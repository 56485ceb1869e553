use consul::law::{CreateChannelAction, Law, LegalAction};
use consul::state::{ConsulState, LawProposal};
use consul::storage::{load, parse, save};

fn law(name: &str, channels: &[&str]) -> Law {
    let actions: Vec<LegalAction> = channels
        .iter()
        .map(|c| LegalAction::CreateChannel(CreateChannelAction::new(c.to_string())))
        .collect();
    Law::new(name.to_string(), actions)
}

#[test]
fn save_empty_state_is_empty_document() {
    let st = ConsulState::default();
    assert_eq!(save(&st), "");
}

#[test]
fn load_missing_file_yields_default() {
    let st = load(None);
    assert!(st.law_proposals.is_empty());
}

#[test]
fn load_empty_file_yields_default() {
    let st = load(Some(""));
    assert!(st.law_proposals.is_empty());
}

#[test]
fn load_garbage_yields_default() {
    let st = load(Some("this is not a state document at all"));
    assert!(st.law_proposals.is_empty());
}

#[test]
fn load_partially_valid_document_yields_default() {
    let st = load(Some("guild 1\nnonsense right here\n"));
    assert!(st.law_proposals.is_empty());
}

#[test]
fn load_misplaced_proposal_yields_default() {
    // a proposal line before any guild line is out of place
    let st = load(Some("proposal 5 Early Bird\n"));
    assert!(st.law_proposals.is_empty());
}

#[test]
fn parse_rejects_duplicate_guild_lines() {
    assert!(parse("guild 1\nguild 1\n").is_none());
}

#[test]
fn parse_rejects_oversized_number() {
    // one past u64::MAX
    assert!(parse("guild 18446744073709551616\n").is_none());
}

#[test]
fn save_writes_exact_document() {
    let mut st = ConsulState::default();
    st.add_proposal(
        7,
        LawProposal { law: law("Build Hall", &["town-square"]), voting_message_id: 99 },
    );
    assert_eq!(
        save(&st),
        "guild 7\nproposal 99 Build Hall\ncreate-channel town-square\n"
    );
}

#[test]
fn round_trip_single_proposal() {
    let mut st = ConsulState::default();
    st.add_proposal(
        7,
        LawProposal { law: law("Build Hall", &["town-square"]), voting_message_id: 99 },
    );
    let written = save(&st);
    let reloaded = load(Some(&written));
    assert_eq!(reloaded.law_proposals.len(), 1);
    assert_eq!(reloaded.law_proposals[0].guild_id, 7);
    assert_eq!(reloaded.law_proposals[0].proposals.len(), 1);
    let p = &reloaded.law_proposals[0].proposals[0];
    assert_eq!(p.voting_message_id, 99);
    assert_eq!(p.law.name, "Build Hall");
    assert_eq!(
        p.law.natural_language(),
        "The law Build Hall says to:\nCreate a channel named town-square"
    );
    // writing the reloaded state again is byte-identical
    assert_eq!(save(&reloaded), written);
}

#[test]
fn round_trip_preserves_order_across_guilds() {
    let mut st = ConsulState::default();
    st.add_proposal(1, LawProposal { law: law("First", &[]), voting_message_id: 10 });
    st.add_proposal(2, LawProposal { law: law("Other Guild", &["a"]), voting_message_id: 20 });
    st.add_proposal(1, LawProposal { law: law("Second", &["b", "c"]), voting_message_id: 11 });
    let written = save(&st);
    let reloaded = load(Some(&written));
    assert_eq!(reloaded.law_proposals.len(), 2);
    assert_eq!(reloaded.law_proposals[0].guild_id, 1);
    assert_eq!(reloaded.law_proposals[1].guild_id, 2);
    let g1 = &reloaded.law_proposals[0].proposals;
    assert_eq!(g1.len(), 2);
    assert_eq!(g1[0].law.name, "First");
    assert_eq!(g1[1].law.name, "Second");
    assert_eq!(g1[1].law.action_count(), 2);
    assert_eq!(save(&reloaded), written);
}

#[test]
fn round_trip_keeps_spaces_and_empty_names() {
    let mut st = ConsulState::default();
    st.add_proposal(3, LawProposal { law: law("", &[""]), voting_message_id: 0 });
    st.add_proposal(3, LawProposal { law: law("  padded  name ", &[]), voting_message_id: 1 });
    let written = save(&st);
    let reloaded = load(Some(&written));
    let ps = &reloaded.law_proposals[0].proposals;
    assert_eq!(ps[0].law.name, "");
    assert_eq!(ps[1].law.name, "  padded  name ");
    assert_eq!(save(&reloaded), written);
}

#[test]
fn round_trip_largest_identifiers() {
    let mut st = ConsulState::default();
    st.add_proposal(
        u64::MAX,
        LawProposal { law: law("Edge", &[]), voting_message_id: u64::MAX },
    );
    let written = save(&st);
    assert_eq!(
        written,
        "guild 18446744073709551615\nproposal 18446744073709551615 Edge\n"
    );
    let reloaded = load(Some(&written));
    assert_eq!(reloaded.law_proposals[0].guild_id, u64::MAX);
    assert_eq!(reloaded.law_proposals[0].proposals[0].voting_message_id, u64::MAX);
}

#[test]
fn reload_sees_mutation_after_save() {
    let mut st = ConsulState::default();
    st.add_proposal(5, LawProposal { law: law("Old", &[]), voting_message_id: 1 });
    let first = save(&st);
    st.add_proposal(5, LawProposal { law: law("New", &["fresh"]), voting_message_id: 2 });
    let second = save(&st);
    assert_ne!(first, second);
    let reloaded = load(Some(&second));
    let ps = &reloaded.law_proposals[0].proposals;
    assert_eq!(ps.len(), 2);
    assert_eq!(ps[1].law.name, "New");
}

#[test]
fn proposal_lookup_by_voting_message() {
    let mut st = ConsulState::default();
    st.add_proposal(8, LawProposal { law: law("Found", &["spot"]), voting_message_id: 42 });
    let hit = st.get_law(8, 42);
    assert!(hit.is_some());
    assert_eq!(hit.unwrap().name, "Found");
    // a different message identifier is not found, not a panic
    assert!(st.get_law(8, 43).is_none());
    // nor is an unknown guild
    assert!(st.get_law(9, 42).is_none());
}

#[test]
fn lookup_returns_first_matching_proposal() {
    let mut st = ConsulState::default();
    st.add_proposal(1, LawProposal { law: law("Older", &[]), voting_message_id: 7 });
    st.add_proposal(1, LawProposal { law: law("Newer", &[]), voting_message_id: 7 });
    assert_eq!(st.get_law(1, 7).unwrap().name, "Older");
}

#[test]
fn default_state_has_no_proposals() {
    let st = ConsulState::default();
    assert!(st.get_law(1, 1).is_none());
}
