use poker_abstraction::board::board_mask;

#[test]
fn mask_skips_private_cards() {
    let cards: Vec<u8> = vec![0, 1, 4, 9, 51];
    assert_eq!(board_mask(&cards, 2), (1u64 << 4) | (1u64 << 9) | (1u64 << 51));
}

#[test]
fn mask_of_preflop_is_empty() {
    let cards: Vec<u8> = vec![12, 30];
    assert_eq!(board_mask(&cards, 2), 0);
}

#[test]
fn mask_repeated_card_sets_one_bit() {
    let cards: Vec<u8> = vec![3, 3, 7, 7, 63];
    assert_eq!(board_mask(&cards, 0), (1u64 << 3) | (1u64 << 7) | (1u64 << 63));
}
