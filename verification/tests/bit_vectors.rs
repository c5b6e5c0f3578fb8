use wheatley::bitvector::u64s;
use wheatley::bitvector::word_mask;
use wheatley::bitvector::word_offset;
use wheatley::BitVector;

fn vector_with_bits(bits: u64, set: &[u64], base: u64) -> BitVector {
    let n_words = ((bits + 63) / 64) as usize;
    let mut words = vec![0u64; n_words];
    for &b in set {
        assert!(b < bits);
        words[(b / 64) as usize] |= 1u64 << (b % 64);
    }
    let n_blocks = ((bits + 511) / 512) as usize;
    let mut ranks = Vec::new();
    let mut running = base;
    for block in 0..n_blocks {
        ranks.push(running);
        for w in 8 * block..(8 * block + 8).min(n_words) {
            running += words[w].count_ones() as u64;
        }
    }
    BitVector::from_embedded_state(bits, words, ranks)
}

#[test]
fn contains_reports_exactly_the_set_bits() {
    let bv = vector_with_bits(100, &[1, 10, 19, 62, 63, 64, 65, 66, 99], 0);
    let expected = [1u64, 10, 19, 62, 63, 64, 65, 66, 99];
    for bit in 0..100 {
        assert_eq!(bv.contains(bit), expected.contains(&bit));
    }
}

#[test]
fn len_counts_the_set_bits() {
    assert_eq!(vector_with_bits(65, &[], 0).len(), 0);
    assert_eq!(vector_with_bits(65, &[0, 63, 64], 0).len(), 3);
    assert_eq!(
        vector_with_bits(100, &[1, 10, 19, 62, 63, 64, 65, 66, 99], 0).len(),
        9
    );
}

#[test]
fn is_empty_distinguishes_blank_vectors() {
    assert!(vector_with_bits(60, &[], 0).is_empty());
    assert!(!vector_with_bits(60, &[5], 0).is_empty());
    assert!(!vector_with_bits(600, &[599], 0).is_empty());
}

#[test]
fn rank_counts_bits_below_the_position() {
    let bv = vector_with_bits(64, &[0, 1, 3], 0);
    assert_eq!(bv.rank(0), 0);
    assert_eq!(bv.rank(1), 1);
    assert_eq!(bv.rank(2), 2);
    assert_eq!(bv.rank(3), 2);
    assert_eq!(bv.rank(4), 3);
    assert_eq!(bv.rank(63), 3);
}

#[test]
fn rank_carries_the_base_offset() {
    let bv = vector_with_bits(2000, &[0, 100, 700, 1999], 40);
    assert_eq!(bv.rank(0), 40);
    assert_eq!(bv.rank(100), 41);
    assert_eq!(bv.rank(701), 43);
    assert_eq!(bv.rank(1999), 43);
}

#[test]
fn rank_is_monotone() {
    let bv = vector_with_bits(1500, &[3, 64, 512, 513, 600, 1023, 1400], 7);
    let mut previous = 0u64;
    for bit in 0..1500 {
        let r = bv.rank(bit);
        assert!(r >= previous);
        previous = r;
    }
}

#[test]
fn iterator_yields_set_bits_ascending() {
    let bv = vector_with_bits(100, &[1, 10, 19, 62, 63, 64, 65, 66, 99], 0);
    let mut it = bv.iter();
    let mut collected = Vec::new();
    while let Some(bit) = it.next() {
        collected.push(bit);
    }
    assert_eq!(collected, vec![1, 10, 19, 62, 63, 64, 65, 66, 99]);
}

#[test]
fn iterator_skips_long_runs_of_zero_words() {
    let bv = vector_with_bits(320, &[0, 127, 191, 255, 319], 0);
    let mut it = bv.iter();
    let mut collected = Vec::new();
    while let Some(bit) = it.next() {
        collected.push(bit);
    }
    assert_eq!(collected, vec![0, 127, 191, 255, 319]);
}

#[test]
fn eq_left_compares_prefixes() {
    let bitvec = vector_with_bits(50, &[0, 1, 3, 5, 11, 12, 19, 23], 0);
    let bitvec2 = vector_with_bits(50, &[0, 1, 3, 5, 7, 11, 13, 17, 19, 23], 0);

    assert!(bitvec.eq_left(&bitvec2, 1));
    assert!(bitvec.eq_left(&bitvec2, 2));
    assert!(bitvec.eq_left(&bitvec2, 3));
    assert!(bitvec.eq_left(&bitvec2, 4));
    assert!(bitvec.eq_left(&bitvec2, 5));
    assert!(bitvec.eq_left(&bitvec2, 6));
    assert!(bitvec.eq_left(&bitvec2, 7));
    assert!(!bitvec.eq_left(&bitvec2, 8));
    assert!(!bitvec.eq_left(&bitvec2, 9));
    assert!(!bitvec.eq_left(&bitvec2, 50));
}

#[test]
fn capacity_and_words_are_reported() {
    let bv = vector_with_bits(130, &[129], 0);
    assert_eq!(bv.capacity(), 130);
    assert_eq!(bv.num_words(), 3);
    assert_eq!(bv.get_word(2), 1u64 << 1);
}

#[test]
fn word_helpers_compute_positions() {
    assert_eq!(u64s(0), 0);
    assert_eq!(u64s(1), 1);
    assert_eq!(u64s(64), 1);
    assert_eq!(u64s(65), 2);
    assert_eq!(word_offset(130), (2, 2));
    assert_eq!(word_mask(130), (2, 4));
}

#[test]
fn each_iterator_is_a_fresh_pass() {
    let bv = vector_with_bits(70, &[2, 40, 69], 0);
    for _ in 0..2 {
        let mut it = bv.iter();
        assert_eq!(it.next(), Some(2));
        assert_eq!(it.next(), Some(40));
        assert_eq!(it.next(), Some(69));
        assert_eq!(it.next(), None);
        assert_eq!(it.next(), None);
    }
}

#[test]
fn get_rank_reads_a_level_directly() {
    let level = vector_with_bits(8, &[0, 1, 3], 5);
    let mphf = wheatley::Mphf::new(vec![level]);
    assert_eq!(mphf.get_rank(0, 0), 5);
    assert_eq!(mphf.get_rank(1, 0), 6);
    assert_eq!(mphf.get_rank(3, 0), 7);
    assert_eq!(mphf.get_rank(7, 0), 8);
}
