use haggis::card::CardValue;
use haggis::combination_type::{is_bomb, is_valid_normal, NormalType};

fn values(cards: &[&str]) -> Vec<CardValue> {
    cards.iter().map(|s| s.parse().unwrap()).collect()
}

fn normal(start_rank: usize, end_rank: usize, suit_count: usize, num_extra_wildcards: usize) -> NormalType {
    NormalType { start_rank, end_rank, suit_count, num_extra_wildcards }
}

#[test]
fn combination_type_test_valid_normal_single() {
    let card_values = values(&["2♦"]);
    assert_eq!(is_valid_normal(&card_values), Some(normal(2, 2, 1, 0)));
}

#[test]
fn tests_test_valid_normal_single() {
    let card_values = values(&["2♦"]);
    assert_eq!(is_valid_normal(&card_values), Some(normal(2, 2, 1, 0)));
}

#[test]
fn combination_type_test_valid_wildcard_single() {
    let card_values = values(&["Q"]);
    assert_eq!(is_valid_normal(&card_values), Some(normal(12, 12, 1, 0)));
}

#[test]
fn tests_test_valid_wildcard_single() {
    let card_values = values(&["Q"]);
    assert_eq!(is_valid_normal(&card_values), Some(normal(12, 12, 1, 0)));
}

#[test]
fn combination_type_test_valid_seven_of_a_kind() {
    let card_values = values(&["10♠", "10♥", "10♦", "10♣", "J", "Q", "K"]);
    assert_eq!(is_valid_normal(&card_values), Some(normal(10, 10, 7, 0)));
}

#[test]
fn tests_test_valid_seven_of_a_kind() {
    let card_values = values(&["10♠", "10♥", "10♦", "10♣", "J", "Q", "K"]);
    assert_eq!(is_valid_normal(&card_values), Some(normal(10, 10, 7, 0)));
}

#[test]
fn combination_type_test_valid_three_normal_three_wildcard() {
    let card_values = values(&["10♠", "10♥", "10♦", "J", "Q", "K"]);
    assert_eq!(is_valid_normal(&card_values), Some(normal(10, 10, 3, 3)));
}

#[test]
fn tests_test_valid_three_normal_three_wildcard() {
    let card_values = values(&["10♠", "10♥", "10♦", "J", "Q", "K"]);
    assert_eq!(is_valid_normal(&card_values), Some(normal(10, 10, 3, 3)));
}

#[test]
fn combination_type_test_invalid_two_single_sequence() {
    let card_values = values(&["7♣", "8♣"]);
    assert_eq!(is_valid_normal(&card_values), None);
}

#[test]
fn tests_test_invalid_two_single_sequence() {
    let card_values = values(&["7♣", "8♣"]);
    assert_eq!(is_valid_normal(&card_values), None);
}

#[test]
fn combination_type_test_valid_single_sequence() {
    let card_values = values(&["7♣", "8♣", "9♣"]);
    assert_eq!(is_valid_normal(&card_values), Some(normal(7, 9, 1, 0)));
}

#[test]
fn tests_test_valid_single_sequence() {
    let card_values = values(&["7♣", "8♣", "9♣"]);
    assert_eq!(is_valid_normal(&card_values), Some(normal(7, 9, 1, 0)));
}

#[test]
fn combination_type_test_valid_sequence_wildcard() {
    let card_values = values(&["7♣", "8♣", "10♣", "Q", "K"]);
    assert_eq!(is_valid_normal(&card_values), Some(normal(7, 11, 1, 0)));
}

#[test]
fn tests_test_valid_sequence_wildcard() {
    let card_values = values(&["7♣", "8♣", "10♣", "Q", "K"]);
    assert_eq!(is_valid_normal(&card_values), Some(normal(7, 11, 1, 0)));
}

#[test]
fn combination_type_test_invalid_sequence_skip() {
    let card_values = values(&["7♣", "8♣", "10♣"]);
    assert_eq!(is_valid_normal(&card_values), None);
}

#[test]
fn tests_test_invalid_sequence_skip() {
    let card_values = values(&["7♣", "8♣", "10♣"]);
    assert_eq!(is_valid_normal(&card_values), None);
}

#[test]
fn combination_type_test_invalid_sequence_suit() {
    let card_values = values(&["7♣", "8♣", "9♠"]);
    assert_eq!(is_valid_normal(&card_values), None);
}

#[test]
fn tests_test_invalid_sequence_suit() {
    let card_values = values(&["7♣", "8♣", "9♠"]);
    assert_eq!(is_valid_normal(&card_values), None);
}

#[test]
fn combination_type_test_valid_double_sequence() {
    let card_values = values(&["7♥", "7♣", "8♥", "8♣"]);
    assert_eq!(is_valid_normal(&card_values), Some(normal(7, 8, 2, 0)));
}

#[test]
fn tests_test_valid_double_sequence() {
    let card_values = values(&["7♥", "7♣", "8♥", "8♣"]);
    assert_eq!(is_valid_normal(&card_values), Some(normal(7, 8, 2, 0)));
}

#[test]
fn combination_type_test_valid_extra_wildcards() {
    let card_values = values(&["2♦", "2♣", "3♣", "J", "Q", "K"]);
    assert_eq!(is_valid_normal(&card_values), Some(normal(2, 3, 2, 2)));
}

#[test]
fn tests_test_valid_extra_wildcards() {
    let card_values = values(&["2♦", "2♣", "3♣", "J", "Q", "K"]);
    assert_eq!(is_valid_normal(&card_values), Some(normal(2, 3, 2, 2)));
}

#[test]
fn combination_type_test_invalid_wildcard() {
    let card_values = values(&["2♠", "2♥", "3♠", "3♥", "J"]);
    assert_eq!(is_valid_normal(&card_values), None);
}

#[test]
fn tests_test_invalid_wildcard() {
    let card_values = values(&["2♠", "2♥", "3♠", "3♥", "J"]);
    assert_eq!(is_valid_normal(&card_values), None);
}

#[test]
fn test_0_bomb() {
    let card_values = values(&["3♦", "5♠", "7♣", "9♥"]);
    assert_eq!(is_bomb(&card_values), Some(0));
}

#[test]
fn test_1_bomb() {
    let card_values = values(&["J", "Q"]);
    assert_eq!(is_bomb(&card_values), Some(1));
}

#[test]
fn test_2_bomb() {
    let card_values = values(&["J", "K"]);
    assert_eq!(is_bomb(&card_values), Some(2));
}

#[test]
fn test_3_bomb() {
    let card_values = values(&["Q", "K"]);
    assert_eq!(is_bomb(&card_values), Some(3));
}

#[test]
fn test_4_bomb() {
    let card_values = values(&["J", "Q", "K"]);
    assert_eq!(is_bomb(&card_values), Some(4));
}

#[test]
fn test_5_bomb() {
    let card_values = values(&["3♣", "5♣", "7♣", "9♣"]);
    assert_eq!(is_bomb(&card_values), Some(5));
}

#[test]
fn test_invalid_0_bomb() {
    let card_values = values(&["3♦", "5♠", "7♣", "9♣"]);
    assert_eq!(is_bomb(&card_values), None);
}

#[test]
fn pair_with_one_wildcard_is_a_pair() {
    let card_values = values(&["5♠", "J"]);
    assert_eq!(is_valid_normal(&card_values), Some(normal(5, 5, 2, 0)));
    let card_values = values(&["J", "Q"]);
    assert_eq!(is_valid_normal(&card_values), None);
    assert_eq!(is_valid_normal(&Vec::new()), None);
}

#[test]
fn bad_card_strings_are_refused() {
    assert_eq!("1♠".parse::<CardValue>(), Err(()));
    assert_eq!("J♠".parse::<CardValue>(), Err(()));
    assert_eq!("7".parse::<CardValue>(), Err(()));
    assert_eq!("7♣".parse::<CardValue>(), Ok(CardValue::Normal { rank: 7, suit: 3 }));
}

#[test]
fn ambiguous_triple_is_beaten_by_higher_rectangle() {
    // three tens and three wildcards: 6 cards, either way extendable
    let triple = normal(10, 10, 3, 3);
    // a higher 6-card shape that reads as a 2x2 rectangle with two extras
    let double = normal(11, 12, 2, 2);
    assert_eq!(double.has_higher_rank_than(&triple), Some(normal(11, 12, 3, 0)));
    assert_eq!(triple.has_higher_rank_than(&double), None);
    // a shape of another card count cannot be compared
    let four = normal(11, 12, 2, 0);
    assert_eq!(four.has_higher_rank_than(&triple), None);
    assert_eq!(triple.rank_count(), 1);
    assert_eq!(double.card_count(), 6);
}
