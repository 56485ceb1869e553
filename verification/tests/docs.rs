use consul::lawdoc::{extract_lawcode, parse_law, LawParseError};

#[test]
fn parse_valid_law_document() {
    let doc = "name: Build Hall\nactions:\n- CreateChannel: town-square\n";
    let law = parse_law(doc).unwrap();
    assert_eq!(law.name, "Build Hall");
    assert_eq!(law.action_count(), 1);
    assert_eq!(
        law.natural_language(),
        "The law Build Hall says to:\nCreate a channel named town-square"
    );
}

#[test]
fn parse_law_without_actions() {
    let law = parse_law("name: Quiet\nactions:\n").unwrap();
    assert_eq!(law.name, "Quiet");
    assert_eq!(law.action_count(), 0);
}

#[test]
fn parse_law_with_several_actions() {
    let doc = "name: Growth\nactions:\n- CreateChannel: one\n- CreateChannel: two\n";
    let law = parse_law(doc).unwrap();
    assert_eq!(law.action_count(), 2);
    assert_eq!(
        law.natural_language(),
        "The law Growth says to:\nCreate a channel named one\nCreate a channel named two"
    );
}

#[test]
fn parse_law_skips_blank_lines() {
    let doc = "\n\nname: Spaced\n\nactions:\n\n- CreateChannel: roomy\n\n";
    let law = parse_law(doc).unwrap();
    assert_eq!(law.name, "Spaced");
    assert_eq!(law.action_count(), 1);
}

#[test]
fn parse_law_without_trailing_newline() {
    let law = parse_law("name: Bare\nactions:\n- CreateChannel: edge").unwrap();
    assert_eq!(law.action_count(), 1);
}

#[test]
fn unknown_action_tag_is_rejected() {
    let doc = "name: Bad\nactions:\n- DeleteChannel: town-square\n";
    let err = parse_law(doc).err().unwrap();
    assert_eq!(err, LawParseError::UnknownAction);
    assert!(!err.message().is_empty());
}

#[test]
fn unknown_action_before_known_one_builds_no_partial_law() {
    let doc = "name: Mixed\nactions:\n- BanUser: someone\n- CreateChannel: ok\n";
    assert_eq!(parse_law(doc).err().unwrap(), LawParseError::UnknownAction);
}

#[test]
fn missing_name_is_reported() {
    assert_eq!(parse_law("actions:\n").err().unwrap(), LawParseError::MissingName);
    assert_eq!(parse_law("").err().unwrap(), LawParseError::MissingName);
}

#[test]
fn missing_actions_header_is_reported() {
    assert_eq!(parse_law("name: Lone\n").err().unwrap(), LawParseError::MissingActions);
    assert_eq!(
        parse_law("name: Lone\nsomething else\n").err().unwrap(),
        LawParseError::MissingActions
    );
}

#[test]
fn stray_line_after_actions_is_reported() {
    assert_eq!(
        parse_law("name: Noisy\nactions:\nnot an action\n").err().unwrap(),
        LawParseError::UnexpectedLine
    );
}

#[test]
fn error_messages_differ_by_cause() {
    assert_ne!(
        LawParseError::MissingName.message(),
        LawParseError::UnknownAction.message()
    );
}

#[test]
fn extract_tagged_fenced_block() {
    let msg = "!propose ```yaml\nname: X\nactions:\n```";
    assert_eq!(extract_lawcode(msg).unwrap(), "\nname: X\nactions:\n");
}

#[test]
fn extract_untagged_fenced_block() {
    let msg = "!propose ```\nname: X\nactions:\n```";
    assert_eq!(extract_lawcode(msg).unwrap(), "\nname: X\nactions:\n");
}

#[test]
fn extract_inside_surrounding_text() {
    let msg = "hello everyone\n!propose ```yaml\nname: Y\nactions:\n``` thanks";
    assert_eq!(extract_lawcode(msg).unwrap(), "\nname: Y\nactions:\n");
}

#[test]
fn extract_returns_none_without_command() {
    assert!(extract_lawcode("just chatting").is_none());
    assert!(extract_lawcode("!propose without a fence").is_none());
    assert!(extract_lawcode("!propose ```unclosed").is_none());
}

#[test]
fn extract_takes_leftmost_command() {
    let msg = "!propose ```first``` and !propose ```second```";
    assert_eq!(extract_lawcode(msg).unwrap(), "first");
}

#[test]
fn extract_bare_yaml_body_falls_back_to_untagged_reading() {
    // the tag is consumed only when a nonempty body follows it
    assert_eq!(extract_lawcode("!propose ```yaml```").unwrap(), "yaml");
}

#[test]
fn extract_then_parse_full_flow() {
    let msg = "!propose ```yaml\nname: Build Hall\nactions:\n- CreateChannel: town-square\n```";
    let code = extract_lawcode(msg).unwrap();
    let law = parse_law(&code).unwrap();
    assert_eq!(
        law.natural_language(),
        "The law Build Hall says to:\nCreate a channel named town-square"
    );
}
