use poker_engine::actions::{ActionError, HandAction};

#[test]
pub fn test_simple_string() {
    assert_eq!(HandAction::Raise(56).simple_string(), "Raise by 56");
    assert_eq!(HandAction::Check.simple_string(), "Check");
    assert_eq!(HandAction::Fold.simple_string(), "Fold");
    assert_eq!(HandAction::Call.simple_string(), "Call");
}

#[test]
pub fn actions_test_print() {
    assert_eq!(HandAction::Call.to_json_string(), "{\"action\":\"call\"}");
    assert_eq!(HandAction::Fold.to_json_string(), "{\"action\":\"fold\"}");
    assert_eq!(
        HandAction::Raise(23).to_json_string(),
        "{\"action\":\"raise\",\"amount\":23}"
    );
    assert_eq!(HandAction::Check.to_json_string(), "{\"action\":\"check\"}");
}

#[test]
fn test_parse_hand_action() {
    assert_eq!(
        HandAction::parse_hand_action(r#"{"action":"fold"}"#).unwrap(),
        HandAction::Fold
    );

    assert_eq!(
        HandAction::parse_hand_action(r#"{"action":"call"}"#).unwrap(),
        HandAction::Call
    );

    assert_eq!(
        HandAction::parse_hand_action(r#"{"action":"check"}"#).unwrap(),
        HandAction::Check
    );

    assert_eq!(
        HandAction::parse_hand_action(r#"{"action":"raise","amount":50}"#).unwrap(),
        HandAction::Raise(50)
    );

    assert!(HandAction::parse_hand_action(r#"{"action":"invalid_action"}"#).is_err());

    assert!(
        HandAction::parse_hand_action(r#"{"action":"raise","amount":"invalid_amount"}"#).is_err()
    );

    assert!(HandAction::parse_hand_action(r#"{"action":"raise","amount":"2e3"}"#).is_err());
}

#[test]
fn test_parse_case_insensitive_tag() {
    assert_eq!(
        HandAction::parse_hand_action(r#"{"action":"FOLD"}"#).unwrap(),
        HandAction::Fold
    );
    assert_eq!(
        HandAction::parse_hand_action(r#"{"action":"Check"}"#).unwrap(),
        HandAction::Check
    );
}

#[test]
fn test_parse_whitespace_and_extra_keys() {
    assert_eq!(
        HandAction::parse_hand_action(" { \"action\" : \"call\" } ").unwrap(),
        HandAction::Call
    );
    assert_eq!(
        HandAction::parse_hand_action(r#"{"note":"hi","action":"raise","amount":7}"#).unwrap(),
        HandAction::Raise(7)
    );
    // unknown keys may hold any JSON value
    assert_eq!(
        HandAction::parse_hand_action(r#"{"action":"raise","amount":50,"x":[]}"#).unwrap(),
        HandAction::Raise(50)
    );
    assert_eq!(
        HandAction::parse_hand_action(
            r#"{"meta":{"a":[1,2.5,{"b":"c\""}],"d":null},"action":"fold"}"#
        )
        .unwrap(),
        HandAction::Fold
    );
    assert_eq!(
        HandAction::parse_hand_action(r#"{"x":1e9,"action":"check"}"#).unwrap(),
        HandAction::Check
    );
}

#[test]
fn test_parse_error_kinds() {
    assert_eq!(
        HandAction::parse_hand_action("not json"),
        Err(ActionError::Malformed)
    );
    assert_eq!(
        HandAction::parse_hand_action("{}"),
        Err(ActionError::InvalidAction)
    );
    assert_eq!(
        HandAction::parse_hand_action(r#"{"action":"raise"}"#),
        Err(ActionError::InvalidAmount)
    );
    assert_eq!(
        HandAction::parse_hand_action(r#"{"action":"raise","amount":-5}"#),
        Err(ActionError::InvalidAmount)
    );
    assert_eq!(
        HandAction::parse_hand_action(r#"{"action":"raise","amount":2.5}"#),
        Err(ActionError::InvalidAmount)
    );
}

#[test]
fn test_parse_emit_round_trip_values() {
    for a in [
        HandAction::Fold,
        HandAction::Check,
        HandAction::Call,
        HandAction::Raise(0),
        HandAction::Raise(7),
        HandAction::Raise(2147483647),
    ] {
        let wire = a.to_json_string();
        assert_eq!(HandAction::parse_hand_action(&wire).unwrap(), a);
    }
}
