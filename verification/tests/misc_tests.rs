use poker_engine::actions::HandAction;
use poker_engine::bet_stage::BetStage;
use poker_engine::config::validate_bot_args;
use poker_engine::table::Table;
use rand::RngExt;
use poker_engine::cards::CardPrinting;
use poker_engine::player::PlayerState;

#[test]
fn check_next_stage() {
    let mut bet_stage = BetStage::PreFlop;
    bet_stage.next_stage();
    assert_eq!(bet_stage, BetStage::Flop);
    bet_stage.next_stage();
    assert_eq!(bet_stage, BetStage::Turn);
    bet_stage.next_stage();
    assert_eq!(bet_stage, BetStage::River);
    bet_stage.next_stage();
    assert_eq!(bet_stage, BetStage::PreFlop);
}

#[test]
fn test_bot_args_sum() {
    // The sum reaches the seat limit, so this is rejected
    assert!(validate_bot_args(10, 10, 3).is_err());
    assert!(validate_bot_args(10, 10, 2).is_ok());
    assert!(validate_bot_args(0, 0, 0).is_ok());
}

#[test]
fn test_pot_limit_clamp_small() {
    // Three seats, hand one: the pot holds three antes, so the first
    // actor's enormous raise is clamped to the pot plus the call,
    // leaving the highest bet at four.
    let mut table = Table::new(3);
    table.take_action(HandAction::Raise(10000000));
    assert_eq!(table.get_largest_active_bet(), 4);
    assert_eq!(table.get_pot_size(), 6);
}

#[test]
fn test_check_into_bet_folds() {
    // A check into an open bet is taken as a fold
    let mut table = Table::new(4);
    table.take_action(HandAction::Raise(2));
    table.take_action(HandAction::Check);
    assert_eq!(table.get_active_player_count(), 3);
}

#[test]
fn test_everyone_checks_through_hand() {
    // A full hand of checks closes all four rounds and resolves; every
    // seat paid exactly one ante and the winners split the antes back
    const N: usize = 23;
    let mut table = Table::new(N);
    assert_eq!(table.hand_number, 1);
    let mut actions = 0;
    while table.hand_number == 1 && actions < 4 * N {
        table.take_action(HandAction::Check);
        actions += 1;
    }
    assert_eq!(table.hand_number, 2);
    // nobody died; money was conserved
    assert!(table.players.iter().all(|p| p.is_alive()));
    let total: i32 = table.players.iter().map(|p| p.total_money).sum::<i32>() + table.get_pot_size();
    assert_eq!(total, N as i32 * 500);
}

#[test]
fn test_conservation_over_random_hands() {
    const N: usize = 6;
    let mut table = Table::new(N);
    let mut rng = rand::rng();
    for _ in 0..2000 {
        if table.is_game_over() {
            break;
        }
        match rng.random_range(0..4) {
            0 => table.take_action(HandAction::Raise(3)),
            1 => table.take_action(HandAction::Check),
            2 => table.take_action(HandAction::Call),
            _ => table.take_action(HandAction::Fold),
        }
        let total: i32 =
            table.players.iter().map(|p| p.total_money).sum::<i32>() + table.get_pot_size();
        assert!(total <= N as i32 * 500);
    }
}

#[test]
fn test_view_hides_other_cards() {
    // No other seat's hole cards show up anywhere in a seat's view
    let table = Table::new(6);
    let viewer = table.current_player_index;
    let view = table.get_table_state_json_for_player(viewer as i8);
    let parsed = json::parse(&view).unwrap();
    let players_json = parsed["players"].dump();
    for (i, p) in table.players.iter().enumerate() {
        if i == viewer {
            continue;
        }
        if let PlayerState::Active(a) = &p.player_state {
            for c in a.hand.iter() {
                assert!(!players_json.contains(&c.to_ascii_string()));
                assert!(!players_json.contains(&c.display_string()));
            }
        }
    }
}

#[test]
fn test_timeout_folds_end_the_game() {
    // Seat B never acts for itself: every turn of the hand is fed the
    // synthetic fold a silent client produces, and A collects until B
    // dies
    let mut table = Table::new(2);
    let a = 0usize;
    let mut guard = 0;
    while !table.is_game_over() && guard < 100000 {
        if table.current_player_index == a {
            table.take_action(HandAction::Check);
        } else {
            table.take_action(HandAction::Fold);
        }
        guard += 1;
    }
    assert!(table.is_game_over());
    let results = table.get_results();
    let first_line = results.lines().next().unwrap();
    assert!(first_line.contains("Rank:  1"));
}

#[test]
fn test_escaped_log_strings_in_view() {
    // After a showdown the previous hand's log holds multi-line text;
    // the view must keep its JSON well formed
    let mut table = Table::new(3);
    let mut guard = 0;
    while table.hand_number == 1 && guard < 20 {
        table.take_action(HandAction::Check);
        guard += 1;
    }
    assert_eq!(table.hand_number, 2);
    let view = table.get_state_json_for_current_player();
    let parsed = json::parse(&view);
    assert!(parsed.is_ok());
    assert!(!parsed.unwrap()["previous_actions"].is_empty());
}
