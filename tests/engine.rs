use mankalla_rl::mankalla::{MankallaGame, MankallaGameState, Player};

fn total(s: &MankallaGameState) -> u32 {
    s.fields().iter().map(|&x| x as u32).sum()
}

fn state(fields: [u8; 14], p: Player) -> MankallaGameState {
    MankallaGameState::from_fields(fields, p).unwrap()
}

#[test]
fn initial_position() {
    let s = MankallaGame::new();
    assert_eq!(s.fields(), [6, 6, 6, 6, 6, 6, 0, 6, 6, 6, 6, 6, 6, 0]);
    assert_eq!(s.get_player_to_move(), Player::Player1);
    assert_eq!(total(&s), 72);
}

#[test]
fn initial_actions_are_all_six() {
    let s = MankallaGame::new();
    assert_eq!(MankallaGame::actions(&s.action_relevant_state()), vec![0, 1, 2, 3, 4, 5]);
}

#[test]
fn actions_skip_empty_pits() {
    let key = [0, 3, 0, 1, 0, 2, 9, 9, 9, 9, 9, 9];
    assert_eq!(MankallaGame::actions(&key), vec![1, 3, 5]);
    assert_eq!(MankallaGame::actions(&[0; 12]), Vec::<u8>::new());
}

#[test]
fn projection_puts_mover_first() {
    let f = [1, 2, 3, 4, 5, 6, 20, 7, 8, 9, 10, 11, 12, 30];
    let a: [u8; 12] = state(f, Player::Player1).into();
    assert_eq!(a, [1, 2, 3, 4, 5, 6, 7, 8, 9, 10, 11, 12]);
    let b = state(f, Player::Player2).action_relevant_state();
    assert_eq!(b, [7, 8, 9, 10, 11, 12, 1, 2, 3, 4, 5, 6]);
}

#[test]
fn from_fields_rejects_oversized_boards() {
    let f = [100, 100, 56, 0, 0, 0, 0, 0, 0, 0, 0, 0, 0, 0];
    assert!(MankallaGameState::from_fields(f, Player::Player1).is_none());
    let g = [100, 100, 55, 0, 0, 0, 0, 0, 0, 0, 0, 0, 0, 0];
    assert!(MankallaGameState::from_fields(g, Player::Player1).is_some());
}

#[test]
fn last_marble_in_own_store_gives_free_turn() {
    let s = MankallaGame::new();
    let (next, reward) = MankallaGame::step(&s, &0);
    let n = next.unwrap();
    assert_eq!(n.fields(), [0, 7, 7, 7, 7, 7, 1, 6, 6, 6, 6, 6, 6, 0]);
    assert_eq!(n.get_player_to_move(), Player::Player1);
    assert_eq!(reward, 1);
}

#[test]
fn ordinary_move_passes_the_turn() {
    let s = MankallaGame::new();
    let (next, reward) = MankallaGame::step(&s, &2);
    let n = next.unwrap();
    assert_eq!(n.fields(), [6, 6, 0, 7, 7, 7, 1, 7, 7, 6, 6, 6, 6, 0]);
    assert_eq!(n.get_player_to_move(), Player::Player2);
    assert_eq!(reward, 1);
    assert_eq!(total(&n), 72);
}

#[test]
fn action_four_from_start_does_not_capture() {
    let s = MankallaGame::new();
    let (next, reward) = MankallaGame::step(&s, &4);
    let n = next.unwrap();
    assert_eq!(n.fields(), [6, 6, 6, 6, 0, 7, 1, 7, 7, 7, 7, 6, 6, 0]);
    assert_eq!(n.get_points(&Player::Player1), 1);
    assert_eq!(reward, 1);
}

#[test]
fn capture_takes_both_pits() {
    let s = state([1, 0, 0, 2, 0, 0, 0, 0, 0, 3, 0, 4, 0, 0], Player::Player1);
    let (next, reward) = MankallaGame::step(&s, &0);
    let n = next.unwrap();
    assert_eq!(n.fields(), [0, 0, 0, 2, 0, 0, 5, 0, 0, 3, 0, 0, 0, 0]);
    assert_eq!(reward, 5);
    assert_eq!(n.get_player_to_move(), Player::Player2);
}

#[test]
fn capture_for_player_two_and_reward_sign() {
    // Player two sows pit 7 (action 0) into empty pit 8; opposite pit is 4.
    let s = state([0, 2, 0, 0, 3, 0, 0, 1, 0, 0, 0, 1, 0, 0], Player::Player2);
    let (next, reward) = MankallaGame::step(&s, &0);
    let n = next.unwrap();
    assert_eq!(n.fields(), [0, 2, 0, 0, 0, 0, 0, 0, 0, 0, 0, 1, 0, 4]);
    assert_eq!(reward, 4);
    assert_eq!(n.get_player_to_move(), Player::Player1);
}

#[test]
fn no_capture_when_opposite_is_empty() {
    let s = state([1, 0, 0, 2, 0, 0, 0, 0, 0, 3, 0, 0, 0, 0], Player::Player1);
    let (next, reward) = MankallaGame::step(&s, &0);
    let n = next.unwrap();
    assert_eq!(n.fields(), [0, 1, 0, 2, 0, 0, 0, 0, 0, 3, 0, 0, 0, 0]);
    assert_eq!(reward, 0);
}

#[test]
fn emptying_a_side_ends_the_game() {
    let s = state([0, 0, 0, 0, 0, 1, 10, 3, 0, 0, 0, 0, 0, 4], Player::Player1);
    let (next, reward) = MankallaGame::step(&s, &5);
    assert!(next.is_none());
    assert_eq!(reward, (11 - 10) - (7 - 4));
}

#[test]
fn finishing_sweeps_every_pit() {
    let mut s = state([0, 0, 0, 0, 0, 0, 10, 3, 1, 0, 0, 2, 0, 4], Player::Player2);
    assert!(s.handle_if_game_finished());
    assert_eq!(s.fields(), [0, 0, 0, 0, 0, 0, 10, 0, 0, 0, 0, 0, 0, 10]);
    assert_eq!(s.get_player_to_move(), Player::Player2);
    let mut t = MankallaGame::new();
    assert!(!t.handle_if_game_finished());
    assert_eq!(t.fields(), MankallaGame::new().fields());
}

#[test]
fn steal_helper_and_switch_helper() {
    let mut s = state([0, 1, 0, 2, 0, 0, 0, 0, 0, 3, 0, 4, 0, 0], Player::Player1);
    s.handle_steal(1);
    assert_eq!(s.fields(), [0, 0, 0, 2, 0, 0, 5, 0, 0, 3, 0, 0, 0, 0]);
    s.handle_switch_player(6);
    assert_eq!(s.get_player_to_move(), Player::Player1);
    s.handle_switch_player(13);
    assert_eq!(s.get_player_to_move(), Player::Player2);
    s.handle_switch_player(13);
    assert_eq!(s.get_player_to_move(), Player::Player2);
    s.handle_switch_player(3);
    assert_eq!(s.get_player_to_move(), Player::Player1);
    assert_eq!(s.get_points(&Player::Player1), 5);
    assert_eq!(s.get_points(&Player::Player2), 0);
}

#[test]
fn long_sowing_wraps_around_the_board() {
    let s = state([15, 0, 0, 0, 0, 0, 0, 1, 0, 0, 0, 0, 0, 0], Player::Player1);
    let (next, _) = MankallaGame::step(&s, &0);
    let n = next.unwrap();
    // 15 marbles: one in each of the 13 other pits, then pits 0 and 1 again.
    assert_eq!(n.fields(), [1, 2, 1, 1, 1, 1, 1, 2, 1, 1, 1, 1, 1, 1]);
    assert_eq!(total(&n), 16);
}

#[test]
fn random_games_keep_marbles_and_offer_actions() {
    for seed in 0..40u32 {
        let mut s = MankallaGame::new();
        let mut k = seed;
        for _ in 0..400 {
            let acts = MankallaGame::actions(&s.action_relevant_state());
            assert!(!acts.is_empty());
            k = k.wrapping_mul(1103515245).wrapping_add(12345);
            let a = acts[(k >> 8) as usize % acts.len()];
            let (next, _) = MankallaGame::step(&s, &a);
            match next {
                Some(n) => {
                    assert_eq!(total(&n), 72);
                    s = n;
                }
                None => break,
            }
        }
    }
}

#[test]
fn default_is_the_opening_position() {
    let d = MankallaGameState::default();
    assert_eq!(d.fields(), MankallaGame::new().fields());
    assert_eq!(d.get_player_to_move(), Player::Player1);
}

#[test]
fn board_rendering() {
    let s = MankallaGame::new();
    assert_eq!(s.to_text(), " 0 6 6 6 6 6 6\n   6 6 6 6 6 6 0");
    let t = state([12, 0, 0, 0, 0, 0, 100, 0, 0, 0, 0, 0, 3, 45], Player::Player1);
    assert_eq!(t.to_text(), "45 3 0 0 0 0 0\n  12 0 0 0 0 0100");
}
