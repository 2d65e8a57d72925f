use haggis::card::{Location, Player};
use haggis::card_order::{compress_card_order, decompress_card_order};
use haggis::compression::{compress_hand, decode_game, encode_game, n_choose_k, DecodeError};
use haggis::constant::{DECK_SIZE, HAGGIS_SIZE};
use haggis::game::Game;
use rand::seq::SliceRandom;
use rand::thread_rng;

fn dealt_locations() -> Vec<Location> {
    vec![
        Location::Hand(Player::Opponent),
        Location::Haggis,
        Location::Hand(Player::Opponent),
        Location::Hand(Player::Opponent),
        Location::Haggis,
        Location::Haggis,
        Location::Hand(Player::Opponent),
        Location::Hand(Player::Me),
        Location::Hand(Player::Me),
        Location::Hand(Player::Opponent),
        Location::Hand(Player::Me),
        Location::Hand(Player::Me),
        Location::Hand(Player::Me),
        Location::Hand(Player::Me),
        Location::Hand(Player::Opponent),
        Location::Hand(Player::Me),
        Location::Haggis,
        Location::Hand(Player::Opponent),
        Location::Hand(Player::Me),
        Location::Hand(Player::Opponent),
        Location::Haggis,
        Location::Hand(Player::Opponent),
        Location::Hand(Player::Me),
        Location::Hand(Player::Me),
        Location::Hand(Player::Opponent),
        Location::Haggis,
        Location::Hand(Player::Me),
        Location::Hand(Player::Me),
        Location::Hand(Player::Opponent),
        Location::Haggis,
        Location::Hand(Player::Me),
        Location::Hand(Player::Opponent),
        Location::Hand(Player::Opponent),
        Location::Haggis,
        Location::Hand(Player::Opponent),
        Location::Hand(Player::Me),
        Location::Hand(Player::Opponent),
        Location::Hand(Player::Opponent),
        Location::Hand(Player::Opponent),
        Location::Hand(Player::Me),
        Location::Hand(Player::Me),
        Location::Hand(Player::Me),
    ]
}

fn fresh_game() -> Game {
    Game {
        locations: dealt_locations(),
        current_player: Player::Me,
        me_went_first: true,
        last_combination_type: None,
        next_order: 0,
    }
}

#[test]
fn compression_test_card_order_compress_decompress() {
    let mut rng = thread_rng();
    let mut card_order_goal: Vec<usize> = (0..DECK_SIZE).collect();
    card_order_goal.shuffle(&mut rng);
    card_order_goal.truncate(DECK_SIZE - HAGGIS_SIZE);
    let card_order_result =
        decompress_card_order(&compress_card_order(&card_order_goal[0..(DECK_SIZE - HAGGIS_SIZE)]));
    assert_eq!(&card_order_goal, &card_order_result.unwrap());
}

#[test]
fn compression_test_10000_card_order_compress_decompress() {
    for _ in 0..10000 {
        compression_test_card_order_compress_decompress();
    }
}

#[test]
fn compression_test_init_game_compress_decompress() {
    let game = Game::new();
    let my_result = decode_game(&encode_game(&game));
    assert_eq!(game, my_result.unwrap());
}

#[test]
fn compression_test_rand_game_encode_decode() {
    let mut game = fresh_game();

    game.play_cards(&vec![11, 12, 13]).unwrap();

    game.play_cards(&vec![]).unwrap();

    game.play_cards(&vec![10]).unwrap();
    game.play_cards(&vec![6]).unwrap();

    let my_result = decode_game(&encode_game(&game));
    assert_eq!(game, my_result.unwrap());
}

#[test]
fn compression_test_preserve_last_player_pass() {
    let mut game = fresh_game();

    game.play_cards(&vec![11, 12, 13]).unwrap();

    assert_eq!(game, decode_game(&encode_game(&game)).unwrap());

    game.play_cards(&vec![]).unwrap();

    assert_eq!(game, decode_game(&encode_game(&game)).unwrap());
}

#[test]
fn test_n_choose_k() {
    assert_eq!(3796297200, n_choose_k(36, 14));
}

#[test]
fn test_compress_hand() {
    let hand: Vec<usize> = (0..14).collect();
    let compressed = 0;
    assert_eq!(compress_hand(&hand), compressed);

    let hand: Vec<usize> = (22..36).collect();
    let compressed = n_choose_k(36, 14) - 1;
    assert_eq!(compress_hand(&hand), compressed);
}

#[test]
fn small_binomials() {
    assert_eq!(n_choose_k(5, 2), 10);
    assert_eq!(n_choose_k(7, 0), 1);
    assert_eq!(n_choose_k(7, 7), 1);
    assert_eq!(n_choose_k(35, 13), 1476337800);
}

#[test]
fn second_smallest_hand_has_rank_one() {
    let mut hand: Vec<usize> = (0..13).collect();
    hand.push(14);
    assert_eq!(compress_hand(&hand), 1);
}

#[test]
fn identity_order_encodes_to_zero() {
    let order: Vec<usize> = (0..(DECK_SIZE - HAGGIS_SIZE)).collect();
    let bytes = compress_card_order(&order);
    assert_eq!(bytes, vec![0]);
    let mut order: Vec<usize> = (0..(DECK_SIZE - HAGGIS_SIZE)).collect();
    order.swap(0, 1);
    let bytes = compress_card_order(&order);
    assert_eq!(bytes, vec![1]);
    let mut padded = vec![0u8; 19];
    padded.push(1);
    assert_eq!(decompress_card_order(&padded).unwrap(), order);
}

#[test]
fn too_large_card_order_is_refused() {
    let bytes = vec![0xffu8; 20];
    assert_eq!(decompress_card_order(&bytes), None);
}

#[test]
fn encoded_game_layout() {
    let mut game = fresh_game();
    game.play_cards(&vec![11, 12, 13]).unwrap();
    game.play_cards(&vec![]).unwrap();
    let bytes = encode_game(&game);
    assert_eq!(bytes.len(), 32);
    assert_eq!(bytes[20], 14);
    assert_eq!(bytes[21], 17);
    assert_eq!(bytes[31], 1);
    // three table cards: bits 0, 2 (no end), then bits 4 and 5 on the last
    assert_eq!(&bytes[22..31], &[0, 0, 0, 0, 0, 0, 0, 0, 0b110000]);
}

#[test]
fn short_input_is_refused() {
    assert_eq!(decode_game(&[0u8; 31]), Err(DecodeError::TooShort));
}

#[test]
fn bad_hand_sizes_are_refused() {
    let game = fresh_game();
    let mut bytes = encode_game(&game);
    bytes[20] = 18;
    assert_eq!(decode_game(&bytes), Err(DecodeError::BadHandSize));
    bytes[20] = 0;
    bytes[21] = 0;
    assert_eq!(decode_game(&bytes), Err(DecodeError::BadHandSize));
}

#[test]
fn out_of_range_order_is_refused() {
    let game = fresh_game();
    let mut bytes = encode_game(&game);
    for b in bytes.iter_mut().take(20) {
        *b = 0xff;
    }
    assert_eq!(decode_game(&bytes), Err(DecodeError::CardOrderOutOfRange));
}

#[test]
fn illegal_replay_is_refused() {
    let mut game = fresh_game();
    game.play_cards(&vec![11, 12, 13]).unwrap();
    let mut bytes = encode_game(&game);
    // mark the first table card as ending a group: a pass with no open group
    bytes[30] |= 0b10;
    assert_eq!(decode_game(&bytes), Err(DecodeError::IllegalReplay));
}

#[test]
fn round_trip_after_two_combinations_without_pass() {
    let mut game = fresh_game();
    game.play_cards(&vec![10]).unwrap();
    game.play_cards(&vec![6]).unwrap();
    assert_eq!(game, decode_game(&encode_game(&game)).unwrap());
}

#[test]
fn compressed_round_trip_switches_perspective() {
    let mut game = fresh_game();
    game.play_cards(&vec![11, 12, 13]).unwrap();
    let bytes = game.to_compressed().unwrap();
    let mut other = fresh_game();
    assert!(other.from_compressed(&bytes));
    other.switch_perspective();
    assert_eq!(game, other);
    let before = other.clone();
    assert!(!other.from_compressed(&[1, 2, 3]));
    assert_eq!(before, other);
}

#[test]
fn client_id_of_fresh_deal() {
    let game = fresh_game();
    let id = game.get_client_id().unwrap();
    assert_eq!(id.len(), 8);
    let mine: Vec<usize> = (0..36).filter(|&c| game.locations[c] == Location::Hand(Player::Me)).collect();
    let theirs: Vec<usize> = (0..36).filter(|&c| game.locations[c] == Location::Hand(Player::Opponent)).collect();
    assert_eq!(&id[0..4], &compress_hand(&mine).to_le_bytes());
    assert_eq!(&id[4..8], &compress_hand(&theirs).to_le_bytes());
}
