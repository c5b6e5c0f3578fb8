use wheatley::build_hash_table;
use wheatley::builder::build;
use wheatley::ConstructionError;
use wheatley::Entry;
use wheatley::File;
use wheatley::Gamma;
use wheatley::QueryError;
use wheatley::Wheatley;

fn create_assets(assets: &[(&str, &str)]) -> Vec<(Vec<u8>, Vec<u8>)> {
    assets
        .iter()
        .map(|(p, c)| (p.as_bytes().to_vec(), c.as_bytes().to_vec()))
        .collect::<Vec<(Vec<u8>, Vec<u8>)>>()
}

fn shuffle(mut buoy: Vec<(Vec<u8>, Vec<u8>)>) -> Vec<(Vec<u8>, Vec<u8>)> {
    let size = buoy.len();
    let halfway_point = size / 2;
    for i in 0..halfway_point {
        buoy.swap(i, halfway_point - i)
    }

    buoy
}

#[test]
fn confirm_entries_sorted_by_hasher() {
    let assets = create_assets(&[("foo", "bar"), ("qux", "baz"), ("zoo", "books")]);
    let (_, expected_hash_table) = build_hash_table(&assets).unwrap();
    let remixed_assets = shuffle(expected_hash_table.clone());

    let (_, hash_table_result) = build_hash_table(&remixed_assets).unwrap();

    assert_eq!(expected_hash_table, hash_table_result);
}

#[test]
fn three_keys_hash_to_a_permutation() {
    let assets = create_assets(&[("foo", "bar"), ("qux", "baz"), ("zoo", "books")]);
    let (mphf, entries) = build_hash_table(&assets).unwrap();

    let mut indices = vec![
        mphf.hash(b"foo").unwrap(),
        mphf.hash(b"qux").unwrap(),
        mphf.hash(b"zoo").unwrap(),
    ];
    indices.sort_unstable();
    assert_eq!(indices, vec![0, 1, 2]);

    let qux_index = mphf.hash(b"qux").unwrap() as usize;
    assert_eq!(entries[qux_index].0, b"qux".to_vec());
    assert_eq!(entries[qux_index].1, b"baz".to_vec());
}

#[test]
fn absent_key_never_panics_and_is_caught() {
    let assets = create_assets(&[("a", "1"), ("b", "2"), ("c", "3")]);
    let (mphf, entries) = build_hash_table(&assets).unwrap();

    // The raw hash may answer a spurious in-range index for an absent key,
    // but it must either answer below the table length or report the miss.
    match mphf.hash(b"z") {
        Ok(index) => assert!(index < 3),
        Err(e) => assert_eq!(e, QueryError::NotInConstructionSet),
    }

    // The hardened store compares the stored path and rejects the stranger.
    let files = entries
        .into_iter()
        .map(|(path, contents)| Entry::File(File::new(path, contents)))
        .collect::<Vec<Entry>>();
    let store = Wheatley::new(files, mphf.levels);
    assert!(store.get(b"z").is_none());
    assert!(store.get(b"a").is_some());
    assert_eq!(store.get(b"b").unwrap().contents, b"2".to_vec());
}

#[test]
fn hundred_thousand_keys_form_a_bijection() {
    // A linear congruential walk over the full 64-bit ring: its first
    // hundred thousand states are pairwise distinct, and the keys made from
    // them look like arbitrary byte strings.
    let mut state: u64 = 0x853c_49e6_748f_ea9b;
    let mut keys: Vec<Vec<u8>> = Vec::new();
    for _ in 0..100_000u64 {
        state = state
            .wrapping_mul(6_364_136_223_846_793_005)
            .wrapping_add(1_442_695_040_888_963_407);
        keys.push(format!("{state:016x}").into_bytes());
    }
    let mphf = build(&keys, &Gamma::new(17, 10)).unwrap();

    let mut seen = vec![false; keys.len()];
    for key in &keys {
        let index = mphf.hash(key.as_slice()).unwrap() as usize;
        assert!(index < keys.len());
        assert!(!seen[index]);
        seen[index] = true;
    }
    assert!(seen.into_iter().all(|s| s));
}

#[test]
fn empty_key_set_is_rejected() {
    let assets: Vec<(Vec<u8>, Vec<u8>)> = Vec::new();
    assert_eq!(
        build_hash_table(&assets).unwrap_err(),
        ConstructionError::EmptyKeySet
    );
}

#[test]
fn duplicate_keys_hit_the_level_cap() {
    let assets = create_assets(&[("twin", "left"), ("twin", "right")]);
    assert_eq!(
        build_hash_table(&assets).unwrap_err(),
        ConstructionError::TooManyLevels
    );
}

#[test]
fn order_of_arrival_does_not_change_the_table() {
    let assets = create_assets(&[
        ("alpha", "1"),
        ("beta", "2"),
        ("gamma", "3"),
        ("delta", "4"),
        ("epsilon", "5"),
        ("zeta", "6"),
        ("eta", "7"),
    ]);
    let mut reversed = assets.clone();
    reversed.reverse();

    let (_, table_a) = build_hash_table(&assets).unwrap();
    let (_, table_b) = build_hash_table(&reversed).unwrap();
    assert_eq!(table_a, table_b);
}

#[test]
fn permuting_twice_changes_nothing() {
    let assets = create_assets(&[("one", "1"), ("two", "2"), ("three", "3"), ("four", "4")]);
    let (mphf, table) = build_hash_table(&assets).unwrap();
    let again = wheatley::permute(&table, &mphf);
    assert_eq!(table, again);
}

#[test]
fn empty_store_answers_not_in_construction_set() {
    let store = Wheatley::new(Vec::new(), Vec::new());
    assert_eq!(
        store.lookup(b"anything").unwrap_err(),
        QueryError::NotInConstructionSet
    );
    assert!(store.get(b"anything").is_none());
}

#[test]
fn truncated_table_answers_out_of_range() {
    let assets = create_assets(&[("foo", "bar"), ("qux", "baz"), ("zoo", "books")]);
    let (mphf, _) = build_hash_table(&assets).unwrap();

    // A store whose entry table is empty but whose hash function answers
    // in-range indices for its construction keys: every lookup of such a key
    // must surface the integrity violation, never index past the table.
    let store = Wheatley::new(Vec::new(), mphf.levels);
    for key in [b"foo".as_slice(), b"qux".as_slice(), b"zoo".as_slice()] {
        assert_eq!(store.lookup(key).unwrap_err(), QueryError::OutOfRange);
        assert!(store.get(key).is_none());
    }
}

#[test]
fn lookup_answers_the_stored_file() {
    let assets = create_assets(&[("letters/a.txt", "alpha"), ("letters/b.txt", "beta")]);
    let (mphf, table) = build_hash_table(&assets).unwrap();
    let files = table
        .into_iter()
        .map(|(path, contents)| Entry::File(File::new(path, contents)))
        .collect::<Vec<Entry>>();
    let store = Wheatley::new(files, mphf.levels);

    let found = store.lookup(b"letters/a.txt").unwrap();
    assert_eq!(found.path, b"letters/a.txt".to_vec());
    assert_eq!(found.contents, b"alpha".to_vec());
}

#[test]
fn gamma_defaults_to_seventeen_tenths() {
    let g = Gamma::default();
    assert_eq!(g.num, 17);
    assert_eq!(g.den, 10);
    let custom = Gamma::new(3, 2);
    assert_eq!((custom.num, custom.den), (3, 2));
}

#[test]
fn config_defaults_are_empty() {
    let c = wheatley::Config::default();
    assert!(c.location.is_empty());
    assert!(c.prefix.is_empty());
    assert!(!c.use_backslash_in_keys);
    assert!(c.ignore_globs.is_empty());
    assert!(c.asset_manifest.is_empty());
}
