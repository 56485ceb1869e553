use consul::law::{CreateChannelAction, Law, LegalAction, ScriptedHandler};

fn create(name: &str) -> LegalAction {
    LegalAction::CreateChannel(CreateChannelAction::new(name.to_string()))
}

#[test]
fn describe_build_hall() {
    let law = Law::new(
        "Build Hall".to_string(),
        vec![create("town-square")],
    );
    assert_eq!(
        law.natural_language(),
        "The law Build Hall says to:\nCreate a channel named town-square"
    );
}

#[test]
fn describe_joins_actions_without_trailing_newline() {
    let law = Law::new(
        "Expand".to_string(),
        vec![create("alpha"), create("beta")],
    );
    assert_eq!(
        law.natural_language(),
        "The law Expand says to:\nCreate a channel named alpha\nCreate a channel named beta"
    );
}

#[test]
fn describe_empty_law_is_header_only() {
    let law = Law::new("Nothing".to_string(), Vec::new());
    assert_eq!(law.natural_language(), "The law Nothing says to:");
}

#[test]
fn describe_is_deterministic() {
    let law = Law::new("Twice".to_string(), vec![create("echo")]);
    assert_eq!(law.natural_language(), law.natural_language());
}

#[test]
fn action_natural_language() {
    let a = create("general");
    assert_eq!(a.natural_language(), "Create a channel named general");
}

#[test]
fn fail_fast_second_action_fails() {
    let law = Law::new(
        "Three Steps".to_string(),
        vec![create("one"), create("two"), create("three")],
    );
    let mut handler = ScriptedHandler::new(vec![true, false, true]);
    let r = law.execute(9, &mut handler);
    assert!(r.is_err());
    // exactly actions 1 and 2 were attempted; action 3 never was
    assert_eq!(handler.attempt_count(), 2);
    assert_eq!(handler.attempts[0].channel_name, "one");
    assert!(handler.attempts[0].error.is_none());
    assert_eq!(handler.attempts[1].channel_name, "two");
    assert!(handler.attempts[1].error.is_some());
    let err = r.err().unwrap();
    assert!(!err.message.is_empty());
}

#[test]
fn execute_all_success() {
    let law = Law::new(
        "All Good".to_string(),
        vec![create("a"), create("b"), create("c")],
    );
    let mut handler = ScriptedHandler::new(Vec::new());
    let r = law.execute(4, &mut handler);
    assert!(r.is_ok());
    assert_eq!(handler.attempt_count(), 3);
    for a in &handler.attempts {
        assert_eq!(a.guild_id, 4);
        assert!(a.error.is_none());
    }
    assert_eq!(handler.attempts[2].channel_name, "c");
}

#[test]
fn execute_empty_law_succeeds_without_attempts() {
    let law = Law::new("Idle".to_string(), Vec::new());
    let mut handler = ScriptedHandler::new(vec![false]);
    assert!(law.execute(1, &mut handler).is_ok());
    assert_eq!(handler.attempt_count(), 0);
}

#[test]
fn first_action_failure_stops_everything_else() {
    let law = Law::new(
        "Doomed".to_string(),
        vec![create("x"), create("y")],
    );
    let mut handler = ScriptedHandler::new(vec![false]);
    assert!(law.execute(2, &mut handler).is_err());
    assert_eq!(handler.attempt_count(), 1);
}

#[test]
fn law_clone_is_detached_and_equal() {
    let law = Law::new("Copy Me".to_string(), vec![create("hall")]);
    let copy = law.clone();
    assert_eq!(copy.name, law.name);
    assert_eq!(copy.natural_language(), law.natural_language());
    assert_eq!(copy.action_count(), 1);
}
