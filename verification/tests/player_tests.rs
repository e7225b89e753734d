use poker_engine::cards::{Card, CardPrinting};
use poker_engine::player::{ActiveState, Player, PlayerState, DEFAULT_START_MONEY};
use rand::seq::SliceRandom;

fn card(rank: u8, suit: u8) -> Card {
    Card { rank, suit }
}

// suit numbers: 0 clubs, 1 hearts, 2 spades, 3 diamonds
const CLUBS: u8 = 0;
const HEARTS: u8 = 1;
const SPADES: u8 = 2;
const DIAMONDS: u8 = 3;

#[test]
fn test_player_deal() {
    const BET_AMOUNT: i32 = DEFAULT_START_MONEY / 2;
    let mut player = Player::new(0);
    assert_eq!(player.total_money, DEFAULT_START_MONEY);
    player.deal([card(14, CLUBS), card(14, HEARTS)]);
    if let PlayerState::Active(a) = &player.player_state {
        // Check there is no bet yet
        assert_eq!(a.current_bet, 0);
    } else {
        panic!("After deal player wasn't active")
    }
    // Add a bet now
    player.bet(BET_AMOUNT);
    assert!(player.has_had_turn_this_round);
    // Fold and check the player goes to back to folded
    player.fold();
    match player.player_state {
        PlayerState::Folded => {}
        _ => {
            panic!("Didn't go back to folded after a fold")
        }
    }
    // Check they lost their money
    assert_eq!(DEFAULT_START_MONEY - BET_AMOUNT, player.total_money)
}

#[test]
fn test_player_dead() {
    let mut player = Player::new(0);
    assert_eq!(player.total_money, DEFAULT_START_MONEY);
    player.deal([card(14, CLUBS), card(14, HEARTS)]);
    if let PlayerState::Active(a) = &mut player.player_state {
        // Check there is no bet yet
        assert_eq!(a.current_bet, 0);
        // Add a bet now
        a.current_bet = DEFAULT_START_MONEY;
    } else {
        panic!("After deal player wasn't active");
    }
    // Fold and check the player goes to back to inactive
    player.fold();
    // Indicate they are dead by setting the round they died
    player.death_hand_number = Some(0);
    // Check they are dead now
    let is_dead = !player.is_alive();
    assert!(is_dead);
}

#[test]
fn bet_check_normal() {
    let mut player = Player::new(0);
    player.deal([card(14, CLUBS), card(14, HEARTS)]);
    const BET_AMOUNT: i32 = 20;
    assert_eq!(player.bet(BET_AMOUNT), BET_AMOUNT);
    assert_eq!(player.bet(BET_AMOUNT), BET_AMOUNT);
    assert_eq!(player.bet(BET_AMOUNT), BET_AMOUNT);
    if let PlayerState::Active(a) = player.player_state {
        assert_eq!(a.current_bet, BET_AMOUNT * 3)
    } else {
        panic!("Player wasn't in active state after betting.")
    }
}

#[test]
fn bet_all_in() {
    let mut player = Player::new(0);
    player.deal([card(14, CLUBS), card(14, HEARTS)]);
    assert_eq!(player.bet(DEFAULT_START_MONEY + 3), DEFAULT_START_MONEY);
    let mut player = Player::new(0);
    player.deal([card(14, CLUBS), card(14, HEARTS)]);
    assert_eq!(player.bet(DEFAULT_START_MONEY), DEFAULT_START_MONEY);
    assert_eq!(player.bet(DEFAULT_START_MONEY), 0);
    if let PlayerState::Active(a) = player.player_state {
        assert_eq!(a.current_bet, DEFAULT_START_MONEY);
    } else {
        panic!("Player wasn't in active state after going all in.")
    }
}

#[test]
fn bet_all_in_1_bet() {
    let mut player = Player::new(0);
    player.deal([card(14, CLUBS), card(14, HEARTS)]);
    assert_eq!(player.bet(DEFAULT_START_MONEY), DEFAULT_START_MONEY);
    if let PlayerState::Active(a) = player.player_state {
        assert_eq!(a.current_bet, DEFAULT_START_MONEY);
    } else {
        panic!("Player wasn't in active state after going all in.")
    }
}

#[test]
fn test_player_state_string_active() {
    let state = PlayerState::Active(ActiveState {
        hand: [card(14, CLUBS), card(14, HEARTS)],
        current_bet: 30,
    });
    let string_version = state.as_json();
    let json_parsed_string = json::parse(&string_version).unwrap().dump();
    assert_eq!(
        json::parse(&json_parsed_string).unwrap(),
        json::parse(
            "{\"state_type\":\"active\",\"details\":{\"hand\":\"[ A\u{2663} ] [ A\u{2665} ]\",\"bet\":30}}"
        )
        .unwrap()
    )
}

#[test]
fn test_player_state_string_folded() {
    let state = PlayerState::Folded;
    let string_version = state.as_json();
    let json_parsed_string = json::parse(&string_version).unwrap().dump();
    assert_eq!(
        json::parse(&json_parsed_string).unwrap(),
        json::parse("{\"state_type\":\"folded\",\"details\":{}}").unwrap()
    )
}

#[test]
fn test_player_string() {
    let mut player = Player::new(0);
    player.deal([card(14, CLUBS), card(14, HEARTS)]);
    player.bet(DEFAULT_START_MONEY);
    let string_version = player.as_json();
    let json_parsed_string = json::parse(&string_version).unwrap().dump();
    assert_eq!(
        json::parse(&json_parsed_string).unwrap(),
        json::parse("{\"player_state\":{\"state_type\":\"active\",\"details\":{\"hand\":\"[ A\u{2663} ] [ A\u{2665} ]\",\"bet\":500}},\"id\":0,\"total_money\":0}").unwrap())
}

#[test]
fn test_get_id() {
    const ID: i8 = 0;
    let player = Player::new(ID);
    assert_eq!(player.get_id(), ID);
}

#[test]
fn test_no_cards_in_secret() {
    let mut player = Player::new(0);
    player.deal([card(14, CLUBS), card(14, HEARTS)]);
    assert_eq!(player.bet(DEFAULT_START_MONEY), DEFAULT_START_MONEY);
    let string_version = player.as_json_no_secret_data();
    let json_parsed_string = json::parse(&string_version).unwrap().dump();
    assert_eq!(
        json::parse(&json_parsed_string).unwrap(),
        json::parse("{\"player_state\":{\"state_type\":\"active\",\"details\":{\"bet\":500}},\"id\":0,\"total_money\":0}").unwrap())
}

#[test]
fn test_player_order() {
    // Make 10 players, each with a different death hand number
    let mut players = vec![];
    for i in 0..10 {
        players.push(Player::new(i));
        players.get_mut(i as usize).unwrap().death_hand_number = Some(i as i32);
    }
    // Make the last one still alive
    players.last_mut().unwrap().death_hand_number = None;
    // Shuffle the players
    players.shuffle(&mut rand::rng());
    // Sort them to ensure the comparison works correctly
    players.sort_by(|a, b| match Player::result_order(a, b) {
        x if x < 0 => std::cmp::Ordering::Less,
        0 => std::cmp::Ordering::Equal,
        _ => std::cmp::Ordering::Greater,
    });
    // Make sure the order
    for i in 0..10 {
        let player_id = players.get(i).unwrap().get_id();
        assert_eq!(player_id, i as i8)
    }
}

#[test]
fn test_alive_player_order() {
    let mut player1 = Player::new(0);
    let mut player2 = Player::new(1);
    let mut player_dead = Player::new(2);

    player1.total_money = 1;
    player2.total_money = 2;
    player_dead.death_hand_number = Some(1);
    assert!(Player::result_order(&player1, &player2) < 0);
    assert!(Player::result_order(&player2, &player1) > 0);
    assert!(Player::result_order(&player1, &player1) == 0);
    assert!(Player::result_order(&player_dead, &player1) < 0);
    assert!(Player::result_order(&player1, &player_dead) > 0);
    assert!(Player::result_order(&player_dead, &player_dead) == 0);
}

#[test]
fn test_secret_folded() {
    // Make a player that has folded their hand
    let mut player1 = Player::new(0);
    player1.player_state = PlayerState::Folded;
    // Get the secret json version
    let secret_player_json = json::parse(&player1.as_json_no_secret_data()).unwrap();
    // Make sure it is folded
    assert_eq!(secret_player_json["player_state"]["state_type"], "folded");
    // Make sure there are no cards in the json
    let player_string = secret_player_json.to_string();
    for rank in 2..=14u8 {
        for suit in 0..4u8 {
            let c = Card { rank, suit };
            assert!(!player_string.contains(&c.display_string()));
        }
    }
}

#[test]
fn test_to_string() {
    let test_card = card(14, CLUBS);
    assert_eq!(test_card.to_ascii_string(), "AC");
    let test_card = card(13, HEARTS);
    assert_eq!(test_card.to_ascii_string(), "KH");
    let test_card = card(10, SPADES);
    assert_eq!(test_card.to_ascii_string(), "TS");
    let test_card = card(2, DIAMONDS);
    assert_eq!(test_card.to_ascii_string(), "2D");
}
