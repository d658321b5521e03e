use photonyx::block::{
    BLOCK_SIZE, CARDS_PER_BLOCK, CARD_SIZE, block_count, is_block_aligned, offset_to_block, padded_len,
    padding_for,
};

#[test]
fn block_count_zero_is_zero() {
    assert_eq!(block_count(0), 0);
}

#[test]
fn block_count_exact_multiple() {
    assert_eq!(block_count(BLOCK_SIZE as u64), 1);
    assert_eq!(block_count(BLOCK_SIZE as u64 * 3), 3);
}

#[test]
fn block_count_rounds_up() {
    assert_eq!(block_count(1), 1);
    assert_eq!(block_count(BLOCK_SIZE as u64 + 1), 2);
    assert_eq!(block_count(BLOCK_SIZE as u64 - 1), 1);
}

#[test]
fn padded_len_matches_block_count_times_block_size() {
    for len in [0u64, 1, 2879, 2880, 2881, 5760, 5761] {
        assert_eq!(padded_len(len), block_count(len) * BLOCK_SIZE as u64);
    }
}

#[test]
fn padding_for_zero_length_is_zero() {
    assert_eq!(padding_for(0), 0);
}

#[test]
fn padding_for_exact_multiple_is_zero() {
    assert_eq!(padding_for(BLOCK_SIZE as u64), 0);
    assert_eq!(padding_for(BLOCK_SIZE as u64 * 4), 0);
}

#[test]
fn padding_for_partial_block() {
    assert_eq!(padding_for(1), BLOCK_SIZE as u64 - 1);
    assert_eq!(padding_for(BLOCK_SIZE as u64 + 1), BLOCK_SIZE as u64 - 1);
}

#[test]
fn is_block_aligned_cases() {
    assert!(is_block_aligned(0));
    assert!(is_block_aligned(BLOCK_SIZE as u64));
    assert!(is_block_aligned(BLOCK_SIZE as u64 * 2));
    assert!(!is_block_aligned(1));
    assert!(!is_block_aligned(BLOCK_SIZE as u64 - 1));
    assert!(!is_block_aligned(BLOCK_SIZE as u64 + 1));
}

#[test]
fn offset_to_block_start_of_block() {
    assert_eq!(offset_to_block(0), (0, 0));
    assert_eq!(offset_to_block(BLOCK_SIZE as u64), (1, 0));
    assert_eq!(offset_to_block(BLOCK_SIZE as u64 * 2), (2, 0));
}

#[test]
fn offset_to_block_mid_block() {
    assert_eq!(offset_to_block(1), (0, 1));
    assert_eq!(offset_to_block(BLOCK_SIZE as u64 + 5), (1, 5));
    assert_eq!(offset_to_block(BLOCK_SIZE as u64 - 1), (0, BLOCK_SIZE as u64 - 1));
}

#[test]
fn cards_per_block_is_36() {
    assert_eq!(CARDS_PER_BLOCK, 36);
    assert_eq!(CARDS_PER_BLOCK * CARD_SIZE, BLOCK_SIZE);
}

#[test]
fn padded_len_is_aligned_and_covers_the_unit() {
    for len in [0u64, 7, 2880, 100_000] {
        let p = padded_len(len);
        assert!(is_block_aligned(p));
        assert!(p >= len && p < len + 2880);
        assert_eq!(p - len, padding_for(len));
    }
}
