use wheatley::hashing::fastmod;
use wheatley::hashing::fold;
use wheatley::hashing::hash_with_seed;
use wheatley::hashing::hash_with_seed32;
use wheatley::hashing::hashmod;
use wheatley::paths::split_path_with_separator;
use wheatley::paths::to_unix_path;

#[test]
fn fold_xors_the_halves() {
    assert_eq!(fold(0x1234_5678_9abc_def0), 0x9abc_def0 ^ 0x1234_5678);
    assert_eq!(fold(0), 0);
    assert_eq!(fold(0xffff_ffff_0000_0000), 0xffff_ffff);
}

#[test]
fn fastmod_stays_in_range_and_matches_the_formula() {
    assert_eq!(fastmod(0x8000_0000, 100), 50);
    assert_eq!(fastmod(0xffff_ffff, 7), 6);
    for hash in [0u32, 1, 0x1234_5678, u32::MAX] {
        for n in [1u32, 2, 3, 100, u32::MAX] {
            let r = fastmod(hash, n);
            assert_eq!(r, ((hash as u64) * (n as u64)) >> 32);
            assert!(r < n as u64);
        }
    }
}

#[test]
fn seeded_hash_matches_the_wyhash_crate() {
    // Level 0 hashes with seed 1, level 3 with seed 64.
    assert_eq!(hash_with_seed(0, b"abc"), wyhash::wyhash(b"abc", 1));
    assert_eq!(hash_with_seed(3, b"abc"), wyhash::wyhash(b"abc", 1 << 6));
    assert_eq!(
        hash_with_seed32(0, b"abc"),
        fold(wyhash::wyhash(b"abc", 1))
    );
}

#[test]
fn hashmod_reduces_into_the_level() {
    for level in 0..5u64 {
        for n in [1u64, 2, 17, 1000] {
            let r = hashmod(level, b"some/asset.txt", n);
            assert!(r < n);
        }
    }
    let h32 = hash_with_seed32(2, b"key") as u64;
    assert_eq!(hashmod(2, b"key", 1000), (h32 * 1000) >> 32);
}

#[test]
fn paths_split_on_both_separators() {
    assert_eq!(to_unix_path(b"examples\\books"), b"examples/books".to_vec());
    assert_eq!(to_unix_path(b"examples/books"), b"examples/books".to_vec());
    assert_eq!(
        split_path_with_separator(b"examples/books/hardly_haunted.txt", b'\\'),
        b"examples\\books\\hardly_haunted.txt".to_vec()
    );
}

#[test]
fn paths_drop_non_normal_segments() {
    assert_eq!(
        to_unix_path(b"./examples//books/../hug_a_cactus.txt"),
        b"examples/books/hug_a_cactus.txt".to_vec()
    );
    assert_eq!(to_unix_path(b"/"), b"".to_vec());
    assert_eq!(to_unix_path(b""), b"".to_vec());
    assert_eq!(to_unix_path(b"..."), b"...".to_vec());
}
