use haggis::card::{CardId, CardValue, Location, Player};
use haggis::combination_type::{CombinationType, NormalType};
use haggis::game::{CardFrontendState, Game, GameStage, PlayError};

fn start_locations() -> Vec<Location> {
    vec![
        Location::Hand(Player::Opponent),
        Location::Haggis,
        Location::Hand(Player::Opponent),
        Location::Hand(Player::Opponent),
        Location::Haggis,
        Location::Haggis,
        Location::Hand(Player::Opponent),
        Location::Hand(Player::Me),
        Location::Hand(Player::Me),
        Location::Hand(Player::Opponent),
        Location::Hand(Player::Me),
        Location::Hand(Player::Me),
        Location::Hand(Player::Me),
        Location::Hand(Player::Me),
        Location::Hand(Player::Opponent),
        Location::Hand(Player::Me),
        Location::Haggis,
        Location::Hand(Player::Opponent),
        Location::Hand(Player::Me),
        Location::Hand(Player::Opponent),
        Location::Haggis,
        Location::Hand(Player::Opponent),
        Location::Hand(Player::Me),
        Location::Hand(Player::Me),
        Location::Hand(Player::Opponent),
        Location::Haggis,
        Location::Hand(Player::Me),
        Location::Hand(Player::Me),
        Location::Hand(Player::Opponent),
        Location::Haggis,
        Location::Hand(Player::Me),
        Location::Hand(Player::Opponent),
        Location::Hand(Player::Opponent),
        Location::Haggis,
        Location::Hand(Player::Opponent),
        Location::Hand(Player::Me),
        Location::Hand(Player::Opponent),
        Location::Hand(Player::Opponent),
        Location::Hand(Player::Opponent),
        Location::Hand(Player::Me),
        Location::Hand(Player::Me),
        Location::Hand(Player::Me),
    ]
}

fn start_game() -> Game {
    Game {
        locations: start_locations(),
        current_player: Player::Me,
        me_went_first: true,
        last_combination_type: None,
        next_order: 0,
    }
}

#[test]
fn test_switch_perspective() {
    let mut game = start_game();

    game.play_cards(&vec![11, 12, 13]).unwrap();
    let game_copy = game.clone();

    assert_eq!(game.current_player, Player::Opponent);
    game.switch_perspective();
    assert_eq!(game.current_player, Player::Me);
    game.switch_perspective();
    assert_eq!(game, game_copy);
}

#[test]
fn opening_pass_is_illegal() {
    let mut game = start_game();
    assert!(!game.can_play_cards(&[]));
    let before = game.clone();
    assert_eq!(game.play_cards(&[]), Err(PlayError::IllegalPlay));
    assert_eq!(game, before);
}

#[test]
fn play_moves_cards_and_passes_turn() {
    let mut game = start_game();
    assert!(game.can_play_cards(&[11, 12, 13]));
    game.play_cards(&[11, 12, 13]).unwrap();
    for c in [11, 12, 13] {
        assert_eq!(
            game.locations[c],
            Location::Table { captured_by: None, order: 0, in_last_combination_before_pass: false }
        );
    }
    assert_eq!(game.next_order, 1);
    assert_eq!(game.current_player, Player::Opponent);
    assert_eq!(
        game.last_combination_type,
        Some(CombinationType::Normal(NormalType {
            start_rank: 4,
            end_rank: 6,
            suit_count: 1,
            num_extra_wildcards: 0
        }))
    );
    assert_eq!(game.card_frontend_state(11), CardFrontendState::JustPlayed);
    assert_eq!(game.card_frontend_state(1), CardFrontendState::Haggis);
    assert_eq!(game.card_frontend_state(7), CardFrontendState::InMyHand);
    assert_eq!(game.card_frontend_state(0), CardFrontendState::InOpponentHand);
    assert_eq!(game.game_stage(), GameStage::Wait);
}

#[test]
fn pass_captures_for_last_player() {
    let mut game = start_game();
    game.play_cards(&[11, 12, 13]).unwrap();
    // the opponent passes: I played last and take the table
    game.play_cards(&[]).unwrap();
    for c in [11, 12, 13] {
        assert_eq!(
            game.locations[c],
            Location::Table {
                captured_by: Some(Player::Me),
                order: 0,
                in_last_combination_before_pass: true
            }
        );
    }
    assert_eq!(game.last_combination_type, None);
    assert_eq!(game.current_player, Player::Me);
    assert_eq!(game.card_frontend_state(11), CardFrontendState::CapturedByMe);
    assert_eq!(game.game_stage(), GameStage::Play);
}

#[test]
fn pass_after_bomb_keeps_table_with_passer() {
    let mut game = start_game();
    // the opponent opens with J-K (ids 39, 41)
    game.current_player = Player::Opponent;
    game.play_cards(&[39, 41]).unwrap();
    assert_eq!(game.last_combination_type, Some(CombinationType::Bomb(2)));
    // I pass right after the bomb: the table goes to me, the current player
    game.play_cards(&[]).unwrap();
    assert_eq!(game.locations[39].captured_by(), Some(Player::Me));
}

#[test]
fn lower_bomb_loses_to_higher_bomb() {
    let mut game = start_game();
    // J-Q (ids 36, 37) is bomb 1
    game.play_cards(&[36, 37]).unwrap();
    assert_eq!(game.last_combination_type, Some(CombinationType::Bomb(1)));
    // J-Q-K (39, 40, 41) is bomb 4 and beats it
    assert!(game.can_play_cards(&[39, 40, 41]));
    // a normal single does not beat a bomb
    assert!(!game.can_play_cards(&[0]));
    game.play_cards(&[39, 40, 41]).unwrap();
    assert_eq!(game.last_combination_type, Some(CombinationType::Bomb(4)));
    // 3-5-7-9 in four suits is bomb 0: lower than bomb 4
    assert!(!game.can_play_cards(&[1, 12, 23, 34]));
}

#[test]
fn bomb_beats_normal_combination() {
    let mut game = start_game();
    game.play_cards(&[11, 12, 13]).unwrap();
    assert!(game.can_play_cards(&[39, 41]));
    assert!(!game.can_play_cards(&[0]));
    assert!(!game.can_play_cards(&[0, 9]));
}

#[test]
fn score_when_my_hand_is_empty() {
    let mut locations = vec![Location::Hand(Player::Opponent); 42];
    // the Haggis holds 3 (1 point) and 4 (no point)
    locations[1] = Location::Haggis;
    locations[2] = Location::Haggis;
    // I captured a 5 (1 point) and a K (5 points)
    locations[3] = Location::Table { captured_by: Some(Player::Me), order: 0, in_last_combination_before_pass: true };
    locations[38] = Location::Table { captured_by: Some(Player::Me), order: 0, in_last_combination_before_pass: true };
    // the opponent captured a 7
    locations[5] = Location::Table { captured_by: Some(Player::Opponent), order: 1, in_last_combination_before_pass: true };
    // my last play is still open on the table: a 9
    locations[7] = Location::Table { captured_by: None, order: 2, in_last_combination_before_pass: false };
    let mut game = Game {
        locations,
        current_player: Player::Opponent,
        me_went_first: true,
        last_combination_type: Some(CombinationType::Normal(NormalType {
            start_rank: 9,
            end_rank: 9,
            suit_count: 1,
            num_extra_wildcards: 0,
        })),
        next_order: 3,
    };
    assert!(game.is_game_over());
    let cards_left = 42 - 6;
    let mut left_points = 0;
    for c in 0..42 {
        match game.locations[c] {
            Location::Hand(_) | Location::Haggis => left_points += CardId(c).to_value().point_value(),
            _ => {}
        }
    }
    let (mine, theirs) = game.calculate_score();
    // my open 9 is mine too
    assert_eq!(game.locations[7].captured_by(), Some(Player::Me));
    assert_eq!(mine, 5 * cards_left + left_points + 1 + 5 + 1);
    assert_eq!(theirs, 1);
    assert_eq!(game.hand_sizes(), (0, cards_left));
}

#[test]
fn score_while_playing_has_no_bonus() {
    let mut game = start_game();
    game.play_cards(&[11, 12, 13]).unwrap();
    game.play_cards(&[]).unwrap();
    // 4, 5, 6 of hearts: one point, the 5
    assert_eq!(game.calculate_score(), (1, 0));
    assert!(!game.is_game_over());
}

#[test]
fn card_values_and_points() {
    assert_eq!(CardId(0).to_value(), CardValue::Normal { rank: 2, suit: 0 });
    assert_eq!(CardId(35).to_value(), CardValue::Normal { rank: 10, suit: 3 });
    assert_eq!(CardId(36).to_value(), CardValue::Wildcard { rank: 11 });
    assert_eq!(CardId(41).to_value(), CardValue::Wildcard { rank: 13 });
    assert_eq!(CardId(1).to_value().point_value(), 1);
    assert_eq!(CardId(2).to_value().point_value(), 0);
    assert_eq!(CardId(36).to_value().point_value(), 2);
    assert_eq!(CardId(37).to_value().point_value(), 3);
    assert_eq!(CardId(38).to_value().point_value(), 5);
    assert_eq!(CardId(38).to_value().rank(), 13);
    assert_eq!(Player::Me.other(), Player::Opponent);
}

#[test]
fn deal_gives_seventeen_cards_each() {
    let game = Game::new();
    assert_eq!(game.hand_sizes(), (17, 17));
    let haggis = game.locations.iter().filter(|l| **l == Location::Haggis).count();
    assert_eq!(haggis, 8);
    assert!(game.am_player_1());
    assert_eq!(game.get_hand(Player::Me).len(), 17);
    let shuffled: Vec<usize> = (0..36).rev().collect();
    let dealt = Game::from_shuffle(&shuffled);
    assert_eq!(dealt.locations[35], Location::Hand(Player::Me));
    assert_eq!(dealt.locations[21], Location::Hand(Player::Opponent));
    assert_eq!(dealt.locations[0], Location::Haggis);
    assert_eq!(dealt.locations[36], Location::Hand(Player::Me));
    assert_eq!(dealt.locations[41], Location::Hand(Player::Opponent));
    let hand: Vec<usize> = dealt.get_hand(Player::Me).iter().map(|c| c.0).collect();
    let expected: Vec<usize> = (22..39).collect();
    assert_eq!(hand, expected);
}

#[test]
fn open_group_is_listed_by_combination() {
    let mut game = start_game();
    game.play_cards(&[10]).unwrap();
    game.play_cards(&[6]).unwrap();
    let table = game.get_table();
    assert_eq!(table.len(), 2);
    assert_eq!(table[0].0, 0);
    assert_eq!(table[0].1, vec![CardId(10)]);
    assert_eq!(table[1].0, 1);
    assert_eq!(table[1].1, vec![CardId(6)]);
    game.play_cards(&[]).unwrap();
    assert!(game.get_table().is_empty());
    assert_eq!(game.get_opponent_num_of_card(), 16);
}

#[test]
fn two_deals_differ() {
    // the chance that two shuffles deal the same hands is negligible
    let a = Game::new();
    let b = Game::new();
    assert_ne!(a.locations, b.locations);
}
