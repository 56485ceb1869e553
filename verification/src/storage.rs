//! The structured-text codec for the persisted process state, and the
//! load/save core of the store.
//!
//! A state is written as a line-oriented, human-diffable document. Each
//! line opens with a keyword: a `guild` line starts a server's entry, a
//! `proposal` line appends a pending proposal (its voting message
//! identifier, then the law's name) to the entry above it, and a
//! `create-channel` line appends one action to the proposal above it:
//!
//! ```text
//! guild 7
//! proposal 99 Build Hall
//! create-channel town-square
//! ```
//!
//! [`save`] renders a state to exactly this document; [`parse`] folds a
//! document back, rejecting anything malformed; [`load`] turns the
//! contents a store read from its file — or the lack of any — into a
//! state, silently falling back to the empty default. The round trip is
//! proved: parsing what `save` wrote yields the state unchanged
//! ([`lemma_save_load_round_trip`]).
//!
//! Names are stored as the remainder of their line, so every state whose
//! law and channel names are free of newlines round-trips; a name holding
//! a newline cannot be represented on one line and is outside that
//! guarantee.

use vstd::prelude::*;
use vstd::string::{StrSliceExecFns, StringExecFns};
use crate::law::{ActionModel, LawModel, Law, LegalAction, CreateChannelAction};
use crate::state::{ConsulState, GuildEntry, GuildEntryModel, LawProposal, ProposalModel, StateModel};
use crate::text::{
    all_digits, append_u64, check_prefix, digit_run_end, digits_val, extract_range, find_newline, is_digit,
    find_nl, lemma_digit_run_end_bounds, lemma_digit_run_end_is, lemma_find_newline,
    lemma_find_newline_is, lemma_u64_digits, parse_u64_run, starts_with_at, u64_digits,
};

verus! {

/// The keyword opening a server's entry.
pub open spec fn kw_guild() -> Seq<char> {
    seq!['g', 'u', 'i', 'l', 'd', ' ']
}

/// The keyword opening a proposal.
pub open spec fn kw_proposal() -> Seq<char> {
    seq!['p', 'r', 'o', 'p', 'o', 's', 'a', 'l', ' ']
}

/// The keyword opening a create-channel action.
pub open spec fn kw_create() -> Seq<char> {
    seq!['c', 'r', 'e', 'a', 't', 'e', '-', 'c', 'h', 'a', 'n', 'n', 'e', 'l', ' ']
}

/// The string literals the executable code matches are those keywords.
proof fn lemma_kw_strings()
    ensures
        "guild "@ == kw_guild(),
        "proposal "@ == kw_proposal(),
        "create-channel "@ == kw_create(),
        "\n"@ == seq!['\n'],
        " "@ == seq![' '],
{
    reveal_strlit("guild ");
    reveal_strlit("proposal ");
    reveal_strlit("create-channel ");
    reveal_strlit("\n");
    reveal_strlit(" ");
    assert("guild "@ =~= kw_guild());
    assert("proposal "@ =~= kw_proposal());
    assert("create-channel "@ =~= kw_create());
    assert("\n"@ =~= seq!['\n']);
    assert(" "@ =~= seq![' ']);
}

/// Whether `s` holds no newline, so that it fits on one line.
pub open spec fn line_free(s: Seq<char>) -> bool {
    forall|i: int| 0 <= i < s.len() ==> #[trigger] s[i] != '\n'
}

/// An action whose name fits on one line.
pub open spec fn action_encodable(a: ActionModel) -> bool {
    match a {
        ActionModel::CreateChannel { name } => line_free(name),
    }
}

/// A proposal whose law name and action names all fit on one line each.
pub open spec fn proposal_encodable(p: ProposalModel) -> bool {
    &&& line_free(p.law.name)
    &&& forall|i: int|
        0 <= i < p.law.actions.len() ==> action_encodable(#[trigger] p.law.actions[i])
}

/// An entry all of whose proposals are encodable.
pub open spec fn entry_encodable(e: GuildEntryModel) -> bool {
    forall|i: int| 0 <= i < e.proposals.len() ==> proposal_encodable(#[trigger] e.proposals[i])
}

/// A state the line-oriented document can represent exactly: every name
/// in it is free of newlines.
pub open spec fn state_encodable(m: StateModel) -> bool {
    forall|i: int| 0 <= i < m.entries.len() ==> entry_encodable(#[trigger] m.entries[i])
}

/// The document line for one action, newline included.
pub open spec fn enc_action(a: ActionModel) -> Seq<char> {
    match a {
        ActionModel::CreateChannel { name } => kw_create() + name + seq!['\n'],
    }
}

/// The document lines for a run of actions.
pub open spec fn enc_actions(s: Seq<ActionModel>) -> Seq<char>
    decreases s.len(),
{
    if s.len() == 0 {
        Seq::empty()
    } else {
        enc_action(s.first()) + enc_actions(s.drop_first())
    }
}

/// The document lines for one proposal: its own line, then its actions.
pub open spec fn enc_proposal(p: ProposalModel) -> Seq<char> {
    kw_proposal() + u64_digits(p.voting_message_id as nat) + seq![' '] + p.law.name + seq!['\n']
        + enc_actions(p.law.actions)
}

/// The document lines for a run of proposals.
pub open spec fn enc_proposals(s: Seq<ProposalModel>) -> Seq<char>
    decreases s.len(),
{
    if s.len() == 0 {
        Seq::empty()
    } else {
        enc_proposal(s.first()) + enc_proposals(s.drop_first())
    }
}

/// The document lines for one server's entry: its guild line, then its
/// proposals.
pub open spec fn enc_entry(e: GuildEntryModel) -> Seq<char> {
    kw_guild() + u64_digits(e.guild_id as nat) + seq!['\n'] + enc_proposals(e.proposals)
}

/// The document lines for a run of entries.
pub open spec fn enc_entries(s: Seq<GuildEntryModel>) -> Seq<char>
    decreases s.len(),
{
    if s.len() == 0 {
        Seq::empty()
    } else {
        enc_entry(s.first()) + enc_entries(s.drop_first())
    }
}

/// The whole document for a state.
pub open spec fn encode_state(m: StateModel) -> Seq<char> {
    enc_entries(m.entries)
}

/// What one document line says.
pub enum LineModel {
    GuildLine { guild_id: u64 },
    ProposalLine { voting_message_id: u64, name: Seq<char> },
    ActionLine { name: Seq<char> },
}

/// Read the line of `t` that spans `[pos, lend)`. A guild line is the
/// keyword and then nothing but digits; a proposal line is the keyword, a
/// digit run, one space, and the name as the rest of the line; an action
/// line is the keyword and the name as the rest of the line. Anything
/// else — another keyword, a missing field, or a number too large for a
/// `u64` — is no line at all.
pub open spec fn classify_at(t: Seq<char>, pos: int, lend: int) -> Option<LineModel> {
    if starts_with_at(t, pos, kw_guild()) && pos + kw_guild().len() <= lend {
        let ds = t.subrange(pos + kw_guild().len(), lend);
        if ds.len() >= 1 && all_digits(ds) && digits_val(ds) <= u64::MAX as nat {
            Some(LineModel::GuildLine { guild_id: digits_val(ds) as u64 })
        } else {
            None
        }
    } else if starts_with_at(t, pos, kw_proposal()) && pos + kw_proposal().len() <= lend {
        let dstart = pos + kw_proposal().len();
        let e = digit_run_end(t, dstart, lend);
        if e > dstart && digits_val(t.subrange(dstart, e)) <= u64::MAX as nat && e < lend && t[e]
            == ' ' {
            Some(
                LineModel::ProposalLine {
                    voting_message_id: digits_val(t.subrange(dstart, e)) as u64,
                    name: t.subrange(e + 1, lend),
                },
            )
        } else {
            None
        }
    } else if starts_with_at(t, pos, kw_create()) && pos + kw_create().len() <= lend {
        Some(LineModel::ActionLine { name: t.subrange(pos + kw_create().len(), lend) })
    } else {
        None
    }
}

/// The state with a fresh, empty entry for `guild_id` at the end.
pub open spec fn push_entry(m: StateModel, guild_id: u64) -> StateModel {
    StateModel { entries: m.entries.push(GuildEntryModel { guild_id, proposals: Seq::empty() }) }
}

/// The state with a fresh proposal (an empty law named `name`, voting
/// message `mid`) appended to the last entry.
pub open spec fn push_proposal(m: StateModel, mid: u64, name: Seq<char>) -> StateModel {
    let i = m.entries.len() - 1;
    StateModel {
        entries: m.entries.update(
            i,
            GuildEntryModel {
                guild_id: m.entries[i].guild_id,
                proposals: m.entries[i].proposals.push(
                    ProposalModel {
                        law: LawModel { name, actions: Seq::empty() },
                        voting_message_id: mid,
                    },
                ),
            },
        ),
    }
}

/// The state with one create-channel action appended to the last entry's
/// last proposal.
pub open spec fn push_action(m: StateModel, name: Seq<char>) -> StateModel {
    let i = m.entries.len() - 1;
    let e = m.entries[i];
    let j = e.proposals.len() - 1;
    let p = e.proposals[j];
    StateModel {
        entries: m.entries.update(
            i,
            GuildEntryModel {
                guild_id: e.guild_id,
                proposals: e.proposals.update(
                    j,
                    ProposalModel {
                        law: LawModel {
                            name: p.law.name,
                            actions: p.law.actions.push(ActionModel::CreateChannel { name }),
                        },
                        voting_message_id: p.voting_message_id,
                    },
                ),
            },
        ),
    }
}

/// Fold one line into the state under construction: a guild line opens a
/// new entry (a server seen before is an error), a proposal line needs an
/// entry to extend, an action line needs a proposal to extend.
pub open spec fn apply_line(m: StateModel, lm: LineModel) -> Option<StateModel> {
    match lm {
        LineModel::GuildLine { guild_id } => if m.has_guild(guild_id) {
            None
        } else {
            Some(push_entry(m, guild_id))
        },
        LineModel::ProposalLine { voting_message_id, name } => if m.entries.len() == 0 {
            None
        } else {
            Some(push_proposal(m, voting_message_id, name))
        },
        LineModel::ActionLine { name } => if m.entries.len() == 0 || m.entries.last().proposals.len()
            == 0 {
            None
        } else {
            Some(push_action(m, name))
        },
    }
}

/// Fold the document `t` from `pos` on into `acc`, line by line; `None`
/// as soon as a line cannot be read or applied.
pub open spec fn parse_from(t: Seq<char>, pos: int, acc: StateModel) -> Option<StateModel>
    decreases t.len() - pos,
    via parse_from_dec
{
    if pos < 0 || pos >= t.len() {
        Some(acc)
    } else {
        let lend = find_newline(t, pos);
        match classify_at(t, pos, lend) {
            None => None,
            Some(lm) => match apply_line(acc, lm) {
                None => None,
                Some(acc2) => parse_from(
                    t,
                    if lend < t.len() {
                        lend + 1
                    } else {
                        lend
                    },
                    acc2,
                ),
            },
        }
    }
}

#[via_fn]
proof fn parse_from_dec(t: Seq<char>, pos: int, acc: StateModel) {
    if 0 <= pos < t.len() {
        lemma_find_newline(t, pos);
    }
}

/// What a whole document denotes: the state folded from its first line,
/// starting empty — or nothing, when any line is unreadable or out of
/// place.
pub open spec fn parse_spec(t: Seq<char>) -> Option<StateModel> {
    parse_from(t, 0, StateModel::empty())
}

/// The state a store holds after reading `contents` from its file: the
/// parsed state, or the empty default when there was no file or the
/// document does not parse.
pub open spec fn load_spec(contents: Option<Seq<char>>) -> StateModel {
    match contents {
        Option::None => StateModel::empty(),
        Option::Some(t) => match parse_spec(t) {
            Option::Some(m) => m,
            Option::None => StateModel::empty(),
        },
    }
}

/// Appending an action extends the rendering by that action's line.
proof fn lemma_enc_actions_snoc(s: Seq<ActionModel>, a: ActionModel)
    ensures
        enc_actions(s.push(a)) == enc_actions(s) + enc_action(a),
    decreases s.len(),
{
    if s.len() == 0 {
        assert(enc_actions(s) == Seq::<char>::empty());
        assert(s.push(a).drop_first() =~= Seq::<ActionModel>::empty());
        assert(s.push(a).first() == a);
        assert(enc_actions(s.push(a)) == enc_action(a) + enc_actions(s.push(a).drop_first()));
        assert(enc_actions(s.push(a).drop_first()) == Seq::<char>::empty());
        assert(enc_actions(s.push(a)) =~= enc_actions(s) + enc_action(a));
    } else {
        lemma_enc_actions_snoc(s.drop_first(), a);
        assert(s.push(a).drop_first() =~= s.drop_first().push(a));
        assert(s.push(a).first() == s.first());
        assert(enc_actions(s.push(a)) == enc_action(s.first()) + enc_actions(s.drop_first().push(a)));
        assert(enc_actions(s) == enc_action(s.first()) + enc_actions(s.drop_first()));
        assert(enc_actions(s.push(a)) =~= enc_actions(s) + enc_action(a));
    }
}

/// Appending a proposal extends the rendering by that proposal's lines.
proof fn lemma_enc_proposals_snoc(s: Seq<ProposalModel>, p: ProposalModel)
    ensures
        enc_proposals(s.push(p)) == enc_proposals(s) + enc_proposal(p),
    decreases s.len(),
{
    if s.len() == 0 {
        assert(enc_proposals(s) == Seq::<char>::empty());
        assert(s.push(p).drop_first() =~= Seq::<ProposalModel>::empty());
        assert(s.push(p).first() == p);
        assert(enc_proposals(s.push(p)) == enc_proposal(p) + enc_proposals(s.push(p).drop_first()));
        assert(enc_proposals(s.push(p).drop_first()) == Seq::<char>::empty());
        assert(enc_proposals(s.push(p)) =~= enc_proposals(s) + enc_proposal(p));
    } else {
        lemma_enc_proposals_snoc(s.drop_first(), p);
        assert(s.push(p).drop_first() =~= s.drop_first().push(p));
        assert(s.push(p).first() == s.first());
        assert(enc_proposals(s.push(p)) == enc_proposal(s.first()) + enc_proposals(s.drop_first().push(p)));
        assert(enc_proposals(s) == enc_proposal(s.first()) + enc_proposals(s.drop_first()));
        assert(enc_proposals(s.push(p)) =~= enc_proposals(s) + enc_proposal(p));
    }
}

/// Appending an entry extends the rendering by that entry's lines.
proof fn lemma_enc_entries_snoc(s: Seq<GuildEntryModel>, e: GuildEntryModel)
    ensures
        enc_entries(s.push(e)) == enc_entries(s) + enc_entry(e),
    decreases s.len(),
{
    if s.len() == 0 {
        assert(enc_entries(s) == Seq::<char>::empty());
        assert(s.push(e).drop_first() =~= Seq::<GuildEntryModel>::empty());
        assert(s.push(e).first() == e);
        assert(enc_entries(s.push(e)) == enc_entry(e) + enc_entries(s.push(e).drop_first()));
        assert(enc_entries(s.push(e).drop_first()) == Seq::<char>::empty());
        assert(enc_entries(s.push(e)) =~= enc_entries(s) + enc_entry(e));
    } else {
        lemma_enc_entries_snoc(s.drop_first(), e);
        assert(s.push(e).drop_first() =~= s.drop_first().push(e));
        assert(s.push(e).first() == s.first());
        assert(enc_entries(s.push(e)) == enc_entry(s.first()) + enc_entries(s.drop_first().push(e)));
        assert(enc_entries(s) == enc_entry(s.first()) + enc_entries(s.drop_first()));
        assert(enc_entries(s.push(e)) =~= enc_entries(s) + enc_entry(e));
    }
}

/// Render `st` as the document that [`parse`] reads back: the state's
/// entries in order, each server's guild line followed by its proposals
/// and their actions, exactly as `encode_state` describes.
pub fn save(st: &ConsulState) -> (r: String)
    ensures
        r@ == encode_state(st@),
{
    let ghost es = st@.entries;
    let mut out = String::new();
    proof {
        lemma_kw_strings();
        assert(enc_entries(es.take(0)) =~= Seq::<char>::empty());
    }
    for i in 0..st.law_proposals.len()
        invariant
            es == st@.entries,
            es.len() == st.law_proposals@.len(),
            out@ == enc_entries(es.take(i as int)),
    {
        let entry = &st.law_proposals[i];
        let ghost ps = es[i as int].proposals;
        out.append("guild ");
        append_u64(&mut out, entry.guild_id);
        out.append("\n");
        let ghost base = enc_entries(es.take(i as int)) + kw_guild() + u64_digits(
            entry.guild_id as nat,
        ) + seq!['\n'];
        proof {
            lemma_kw_strings();
            assert(out@ == base);
            assert(base + enc_proposals(ps.take(0)) =~= base);
        }
        for j in 0..entry.proposals.len()
            invariant
                es == st@.entries,
                es.len() == st.law_proposals@.len(),
                0 <= i < es.len(),
                entry == &st.law_proposals[i as int],
                entry@ == es[i as int],
                ps == es[i as int].proposals,
                ps.len() == entry.proposals@.len(),
                base == enc_entries(es.take(i as int)) + kw_guild() + u64_digits(
                    es[i as int].guild_id as nat,
                ) + seq!['\n'],
                out@ == base + enc_proposals(ps.take(j as int)),
        {
            let p = &entry.proposals[j];
            let ghost acts = ps[j as int].law.actions;
            out.append("proposal ");
            append_u64(&mut out, p.voting_message_id);
            out.append(" ");
            out.append(p.law.name.as_str());
            out.append("\n");
            let ghost base2 = base + enc_proposals(ps.take(j as int)) + kw_proposal()
                + u64_digits(ps[j as int].voting_message_id as nat) + seq![' ']
                + ps[j as int].law.name + seq!['\n'];
            proof {
                lemma_kw_strings();
                assert(p@ == ps[j as int]);
                assert(out@ == base2);
                assert(base2 + enc_actions(acts.take(0)) =~= base2);
            }
            let law = &p.law;
            let n = law.action_count();
            for k in 0..n
                invariant
                    n == law@.actions.len(),
                    law@.actions == acts,
                    out@ == base2 + enc_actions(acts.take(k as int)),
            {
                let a = law.action(k);
                match a {
                    LegalAction::CreateChannel(ca) => {
                        out.append("create-channel ");
                        out.append(ca.name().as_str());
                        out.append("\n");
                    },
                }
                proof {
                    lemma_kw_strings();
                    lemma_enc_actions_snoc(acts.take(k as int), acts[k as int]);
                    assert(acts.take(k as int).push(acts[k as int]) =~= acts.take(k + 1));
                    assert(out@ == base2 + enc_actions(acts.take(k + 1)));
                }
            }
            proof {
                assert(acts.take(acts.len() as int) =~= acts);
                lemma_enc_proposals_snoc(ps.take(j as int), ps[j as int]);
                assert(ps.take(j as int).push(ps[j as int]) =~= ps.take(j + 1));
                assert(base2 + enc_actions(acts) =~= base + enc_proposals(ps.take(j + 1)));
            }
        }
        proof {
            assert(ps.take(ps.len() as int) =~= ps);
            lemma_enc_entries_snoc(es.take(i as int), es[i as int]);
            assert(es.take(i as int).push(es[i as int]) =~= es.take(i + 1));
            assert(base + enc_proposals(ps) =~= enc_entries(es.take(i + 1)));
        }
    }
    proof {
        assert(es.take(es.len() as int) =~= es);
    }
    out
}

/// One read document line, carrying its owned strings.
enum LineSeg {
    Guild(u64),
    Proposal(u64, String),
    Action(String),
}

/// What a read line says.
spec fn seg_model(seg: LineSeg) -> LineModel {
    match seg {
        LineSeg::Guild(g) => LineModel::GuildLine { guild_id: g },
        LineSeg::Proposal(mid, name) => LineModel::ProposalLine {
            voting_message_id: mid,
            name: name@,
        },
        LineSeg::Action(name) => LineModel::ActionLine { name: name@ },
    }
}

/// Read the line of `s` spanning `[pos, lend)`, as `classify_at`
/// describes it.
fn classify_seg(s: &str, pos: usize, lend: usize) -> (r: Option<LineSeg>)
    requires
        pos <= lend <= s@.len(),
    ensures
        match r {
            Some(seg) => classify_at(s@, pos as int, lend as int) == Some(seg_model(seg)),
            None => classify_at(s@, pos as int, lend as int) is None,
        },
{
    proof {
        lemma_kw_strings();
    }
    let ghost t = s@;
    if check_prefix(s, pos, "guild ") {
        let kl = "guild ".unicode_len();
        proof {
            assert(t.subrange(pos as int, pos + kw_guild().len())[0] == t[pos as int]);
            assert(t[pos as int] == 'g');
            if starts_with_at(t, pos as int, kw_proposal()) {
                assert(t.subrange(pos as int, pos + kw_proposal().len())[0] == t[pos as int]);
                assert(false);
            }
            if starts_with_at(t, pos as int, kw_create()) {
                assert(t.subrange(pos as int, pos + kw_create().len())[0] == t[pos as int]);
                assert(false);
            }
        }
        if lend - pos < kl {
            return None;
        }
        let dstart = pos + kl;
        let ghost ds = t.subrange(dstart as int, lend as int);
        proof {
            lemma_digit_run_end_bounds(t, dstart as int, lend as int);
        }
        match parse_u64_run(s, dstart, lend) {
            None => {
                proof {
                    let e = digit_run_end(t, dstart as int, lend as int);
                    if e == dstart {
                        if lend > dstart {
                            assert(ds[0] == t[dstart as int]);
                            assert(!all_digits(ds));
                        }
                    } else {
                        assert(ds =~= t.subrange(dstart as int, e) + t.subrange(e, lend as int));
                        if e == lend {
                            assert(ds =~= t.subrange(dstart as int, e));
                        } else {
                            assert(ds[e - dstart] == t[e]);
                            assert(!all_digits(ds));
                        }
                    }
                }
                None
            },
            Some((v, j)) => {
                if j < lend {
                    proof {
                        assert(ds[j - dstart] == t[j as int]);
                        assert(!all_digits(ds));
                    }
                    None
                } else {
                    proof {
                        assert(ds =~= t.subrange(dstart as int, j as int));
                        assert(all_digits(ds));
                    }
                    Some(LineSeg::Guild(v))
                }
            },
        }
    } else if check_prefix(s, pos, "proposal ") {
        let kl = "proposal ".unicode_len();
        proof {
            if starts_with_at(t, pos as int, kw_proposal()) {
                assert(t.subrange(pos as int, pos + kw_proposal().len())[0] == t[pos as int]);
                assert(t[pos as int] == 'p');
                if starts_with_at(t, pos as int, kw_create()) {
                    assert(t.subrange(pos as int, pos + kw_create().len())[0] == t[pos as int]);
                    assert(false);
                }
            }
        }
        if lend - pos < kl {
            return None;
        }
        let dstart = pos + kl;
        proof {
            lemma_digit_run_end_bounds(t, dstart as int, lend as int);
        }
        match parse_u64_run(s, dstart, lend) {
            None => None,
            Some((v, j)) => {
                if j >= lend {
                    None
                } else if s.get_char(j) != ' ' {
                    None
                } else {
                    let name = extract_range(s, j + 1, lend);
                    Some(LineSeg::Proposal(v, name))
                }
            },
        }
    } else if check_prefix(s, pos, "create-channel ") {
        let kl = "create-channel ".unicode_len();
        proof {
            if starts_with_at(t, pos as int, kw_create()) {
                assert(t.subrange(pos as int, pos + kw_create().len())[0] == t[pos as int]);
                assert(t[pos as int] == 'c');
            }
        }
        if lend - pos < kl {
            return None;
        }
        let name = extract_range(s, pos + kl, lend);
        Some(LineSeg::Action(name))
    } else {
        None
    }
}

/// Open a fresh entry for `g`, unless the state already has one.
fn apply_guild(st: &mut ConsulState, g: u64) -> (ok: bool)
    ensures
        ok ==> !old(st)@.has_guild(g) && final(st)@ == push_entry(old(st)@, g),
        !ok ==> old(st)@.has_guild(g) && final(st)@ == old(st)@,
{
    let ghost pre = st@;
    let mut i: usize = 0;
    while i < st.law_proposals.len()
        invariant
            pre == old(st)@,
            pre == st@,
            0 <= i <= st.law_proposals.len(),
            forall|j: int| 0 <= j < i ==> (#[trigger] pre.entries[j]).guild_id != g,
        decreases st.law_proposals.len() - i,
    {
        if st.law_proposals[i].guild_id == g {
            proof {
                assert((#[trigger] pre.entries[i as int]).guild_id == g);
            }
            return false;
        }
        i = i + 1;
    }
    st.law_proposals.push(GuildEntry { guild_id: g, proposals: Vec::new() });
    proof {
        assert(!pre.has_guild(g));
        assert(st@ =~~= push_entry(pre, g));
    }
    true
}

/// Append a fresh proposal (an empty law named `name`) to the last entry,
/// unless there is none.
fn apply_proposal(st: &mut ConsulState, mid: u64, name: String) -> (ok: bool)
    ensures
        ok ==> old(st)@.entries.len() >= 1 && final(st)@ == push_proposal(old(st)@, mid, name@),
        !ok ==> old(st)@.entries.len() == 0 && final(st)@ == old(st)@,
{
    let ghost pre = st@;
    let ghost nm = name@;
    if st.law_proposals.len() == 0 {
        return false;
    }
    let mut entry = st.law_proposals.pop().unwrap();
    let law = Law::new(name, Vec::new());
    entry.proposals.push(LawProposal { law, voting_message_id: mid });
    st.law_proposals.push(entry);
    proof {
        assert(st@ =~~= push_proposal(pre, mid, nm));
    }
    true
}

/// Append one create-channel action to the last entry's last proposal,
/// unless there is none.
fn apply_action(st: &mut ConsulState, name: String) -> (ok: bool)
    ensures
        ok ==> old(st)@.entries.len() >= 1 && old(st)@.entries.last().proposals.len() >= 1
            && final(st)@ == push_action(old(st)@, name@),
        !ok ==> (old(st)@.entries.len() == 0 || old(st)@.entries.last().proposals.len() == 0)
            && final(st)@ == old(st)@,
{
    let ghost pre = st@;
    let ghost nm = name@;
    if st.law_proposals.len() == 0 {
        return false;
    }
    let mut entry = st.law_proposals.pop().unwrap();
    if entry.proposals.len() == 0 {
        st.law_proposals.push(entry);
        proof {
            assert(st@ =~~= pre);
        }
        return false;
    }
    let mut p = entry.proposals.pop().unwrap();
    p.law.push_action(LegalAction::CreateChannel(CreateChannelAction::new(name)));
    entry.proposals.push(p);
    st.law_proposals.push(entry);
    proof {
        assert(st@ =~~= push_action(pre, nm));
    }
    true
}

/// Read a whole document back into a state, line by line, exactly as
/// `parse_spec` describes: `None` for any malformed or out-of-place line.
pub fn parse(s: &str) -> (r: Option<ConsulState>)
    ensures
        match r {
            Some(st) => parse_spec(s@) == Some(st@) && st@.wf(),
            None => parse_spec(s@) is None,
        },
{
    let n = s.unicode_len();
    let mut st = ConsulState::default();
    let mut pos: usize = 0;
    while pos < n
        invariant
            n == s@.len(),
            0 <= pos <= n,
            parse_spec(s@) == parse_from(s@, pos as int, st@),
        decreases n - pos,
    {
        let ghost stpre = st@;
        let lend = find_nl(s, pos);
        proof {
            lemma_find_newline(s@, pos as int);
        }
        match classify_seg(s, pos, lend) {
            None => {
                return None;
            },
            Some(seg) => {
                let ghost lm = seg_model(seg);
                let ok = match seg {
                    LineSeg::Guild(g) => apply_guild(&mut st, g),
                    LineSeg::Proposal(mid, name) => apply_proposal(&mut st, mid, name),
                    LineSeg::Action(name) => apply_action(&mut st, name),
                };
                if !ok {
                    proof {
                        assert(apply_line(stpre, lm) is None);
                    }
                    return None;
                }
                proof {
                    assert(apply_line(stpre, lm) == Some(st@));
                }
                pos = if lend < n {
                    lend + 1
                } else {
                    lend
                };
            },
        }
    }
    proof {
        lemma_parse_from_wf(s@, 0, StateModel::empty());
    }
    Some(st)
}

/// A parsed state is well-formed: no two entries share a server.
proof fn lemma_parse_from_wf(t: Seq<char>, pos: int, acc: StateModel)
    requires
        0 <= pos,
        acc.wf(),
    ensures
        parse_from(t, pos, acc) matches Some(m) ==> m.wf(),
    decreases t.len() - pos,
{
    if pos < t.len() {
        lemma_find_newline(t, pos);
        let lend = find_newline(t, pos);
        match classify_at(t, pos, lend) {
            None => {},
            Some(lm) => {
                match apply_line(acc, lm) {
                    None => {},
                    Some(acc2) => {
                        assert(acc2.wf()) by {
                            match lm {
                                LineModel::GuildLine { guild_id } => {
                                    assert(forall|i: int|
                                        0 <= i < acc.entries.len() ==> (
                                        #[trigger] acc.entries[i]).guild_id != guild_id);
                                },
                                LineModel::ProposalLine { voting_message_id, name } => {
                                    assert(forall|i: int|
                                        0 <= i < acc2.entries.len() ==> (#[trigger] acc2.entries[i]).guild_id
                                            == acc.entries[i].guild_id);
                                },
                                LineModel::ActionLine { name } => {
                                    assert(forall|i: int|
                                        0 <= i < acc2.entries.len() ==> (#[trigger] acc2.entries[i]).guild_id
                                            == acc.entries[i].guild_id);
                                },
                            }
                        }
                        lemma_parse_from_wf(
                            t,
                            if lend < t.len() {
                                lend + 1
                            } else {
                                lend
                            },
                            acc2,
                        );
                    },
                }
            },
        }
    }
}

/// Turn what a store read from its file into the state it starts from:
/// the parsed state when the contents parse, and the empty default when
/// there was no file (`None`), the file was empty, or its contents are
/// malformed. Loading never fails, and always yields a well-formed state.
pub fn load(contents: Option<&str>) -> (st: ConsulState)
    ensures
        st@ == (match contents {
            Some(text) => load_spec(Some(text@)),
            None => StateModel::empty(),
        }),
        st@.wf(),
{
    match contents {
        None => ConsulState::default(),
        Some(text) => {
            match parse(text) {
                Some(st) => st,
                None => ConsulState::default(),
            }
        },
    }
}

/// The last entry's last proposal extended by the actions `acts`.
spec fn with_actions(m: StateModel, acts: Seq<ActionModel>) -> StateModel {
    let i = m.entries.len() - 1;
    let e = m.entries[i];
    let j = e.proposals.len() - 1;
    let p = e.proposals[j];
    StateModel {
        entries: m.entries.update(
            i,
            GuildEntryModel {
                guild_id: e.guild_id,
                proposals: e.proposals.update(
                    j,
                    ProposalModel {
                        law: LawModel { name: p.law.name, actions: p.law.actions + acts },
                        voting_message_id: p.voting_message_id,
                    },
                ),
            },
        ),
    }
}

/// The last entry extended by the proposals `ps`.
spec fn with_proposals(m: StateModel, ps: Seq<ProposalModel>) -> StateModel {
    let i = m.entries.len() - 1;
    let e = m.entries[i];
    StateModel {
        entries: m.entries.update(
            i,
            GuildEntryModel { guild_id: e.guild_id, proposals: e.proposals + ps },
        ),
    }
}

/// A guild line written at `pos` is read back as that guild line.
proof fn lemma_classify_guild(t: Seq<char>, pos: int, g: u64, rest: Seq<char>)
    requires
        0 <= pos <= t.len(),
        t.skip(pos) == kw_guild() + u64_digits(g as nat) + seq!['\n'] + rest,
    ensures
        find_newline(t, pos) == pos + kw_guild().len() + u64_digits(g as nat).len(),
        find_newline(t, pos) < t.len(),
        classify_at(t, pos, find_newline(t, pos)) == Some(LineModel::GuildLine { guild_id: g }),
{
    lemma_u64_digits(g as nat);
    let kw = kw_guild();
    let ds = u64_digits(g as nat);
    let suffix = t.skip(pos);
    assert(forall|k: int| 0 <= k < suffix.len() ==> #[trigger] suffix[k] == t[pos + k]);
    let lend = pos + kw.len() + ds.len();
    assert(t.len() == pos + suffix.len());
    assert forall|k: int| pos <= k < lend implies #[trigger] t[k] != '\n' by {
        let i = k - pos;
        assert(t[k] == suffix[i]);
        if i < kw.len() {
            assert(suffix[i] == kw[i]);
        } else {
            assert(suffix[i] == ds[i - kw.len()]);
            assert(is_digit(ds[i - kw.len()]));
        }
    }
    assert(t[lend] == suffix[lend - pos]);
    assert(t[lend] == '\n');
    lemma_find_newline_is(t, pos, lend);
    assert(t.subrange(pos, pos + kw.len()) =~= kw);
    assert(starts_with_at(t, pos, kw));
    assert forall|q: int| 0 <= q < ds.len() implies t.subrange(pos + kw.len(), lend)[q] == ds[q] by {
        assert(suffix[kw.len() + q] == t[pos + kw.len() + q]);
        assert(suffix[kw.len() + q] == ds[q]);
    }
    assert(t.subrange(pos + kw.len(), lend) =~= ds);
    assert(digits_val(ds) == g as nat && all_digits(ds) && ds.len() >= 1);
    assert(classify_at(t, pos, lend) == Some(LineModel::GuildLine { guild_id: g }));
}

/// A proposal line written at `pos` is read back as that proposal line.
proof fn lemma_classify_proposal(t: Seq<char>, pos: int, mid: u64, name: Seq<char>, rest: Seq<char>)
    requires
        0 <= pos <= t.len(),
        line_free(name),
        t.skip(pos) == kw_proposal() + u64_digits(mid as nat) + seq![' '] + name + seq!['\n'] + rest,
    ensures
        find_newline(t, pos) == pos + kw_proposal().len() + u64_digits(mid as nat).len() + 1
            + name.len(),
        find_newline(t, pos) < t.len(),
        classify_at(t, pos, find_newline(t, pos)) == Some(
            LineModel::ProposalLine { voting_message_id: mid, name },
        ),
{
    lemma_u64_digits(mid as nat);
    let kw = kw_proposal();
    let ds = u64_digits(mid as nat);
    let suffix = t.skip(pos);
    assert(forall|k: int| 0 <= k < suffix.len() ==> #[trigger] suffix[k] == t[pos + k]);
    let dstart = pos + kw.len();
    let spacep = dstart + ds.len();
    let lend = spacep + 1 + name.len();
    assert(t.len() == pos + suffix.len());
    assert forall|k: int| pos <= k < lend implies #[trigger] t[k] != '\n' by {
        let i = k - pos;
        assert(t[k] == suffix[i]);
        if i < kw.len() {
            assert(suffix[i] == kw[i]);
        } else if i < kw.len() + ds.len() {
            assert(suffix[i] == ds[i - kw.len()]);
            assert(is_digit(ds[i - kw.len()]));
        } else if i == kw.len() + ds.len() {
            assert(suffix[i] == ' ');
        } else {
            assert(suffix[i] == name[i - kw.len() - ds.len() - 1]);
        }
    }
    assert(t[lend] == suffix[lend - pos]);
    assert(t[lend] == '\n');
    lemma_find_newline_is(t, pos, lend);
    assert(t[pos] == suffix[0]);
    assert(t[pos] == 'p');
    if starts_with_at(t, pos, kw_guild()) {
        assert(t.subrange(pos, pos + kw_guild().len())[0] == t[pos]);
        assert(false);
    }
    assert(t.subrange(pos, pos + kw.len()) =~= kw);
    assert(starts_with_at(t, pos, kw));
    assert forall|k: int| dstart <= k < spacep implies is_digit(#[trigger] t[k]) by {
        assert(t[k] == suffix[k - pos]);
        assert(suffix[k - pos] == ds[k - dstart]);
    }
    assert(t[spacep] == suffix[spacep - pos]);
    assert(t[spacep] == ' ');
    assert(!is_digit(' '));
    lemma_digit_run_end_is(t, dstart, lend, spacep);
    assert forall|q: int| 0 <= q < ds.len() implies t.subrange(dstart, spacep)[q] == ds[q] by {
        assert(suffix[kw.len() + q] == t[dstart + q]);
        assert(suffix[kw.len() + q] == ds[q]);
    }
    assert(t.subrange(dstart, spacep) =~= ds);
    assert forall|q: int| 0 <= q < name.len() implies t.subrange(spacep + 1, lend)[q] == name[q] by {
        assert(suffix[kw.len() + ds.len() + 1 + q] == t[spacep + 1 + q]);
        assert(suffix[kw.len() + ds.len() + 1 + q] == name[q]);
    }
    assert(t.subrange(spacep + 1, lend) =~= name);
    assert(classify_at(t, pos, lend) == Some(
        LineModel::ProposalLine { voting_message_id: mid, name },
    ));
}

/// An action line written at `pos` is read back as that action line.
proof fn lemma_classify_action(t: Seq<char>, pos: int, name: Seq<char>, rest: Seq<char>)
    requires
        0 <= pos <= t.len(),
        line_free(name),
        t.skip(pos) == kw_create() + name + seq!['\n'] + rest,
    ensures
        find_newline(t, pos) == pos + kw_create().len() + name.len(),
        find_newline(t, pos) < t.len(),
        classify_at(t, pos, find_newline(t, pos)) == Some(LineModel::ActionLine { name }),
{
    let kw = kw_create();
    let suffix = t.skip(pos);
    assert(forall|k: int| 0 <= k < suffix.len() ==> #[trigger] suffix[k] == t[pos + k]);
    let lend = pos + kw.len() + name.len();
    assert(t.len() == pos + suffix.len());
    assert forall|k: int| pos <= k < lend implies #[trigger] t[k] != '\n' by {
        let i = k - pos;
        assert(t[k] == suffix[i]);
        if i < kw.len() {
            assert(suffix[i] == kw[i]);
        } else {
            assert(suffix[i] == name[i - kw.len()]);
        }
    }
    assert(t[lend] == suffix[lend - pos]);
    assert(t[lend] == '\n');
    lemma_find_newline_is(t, pos, lend);
    assert(t[pos] == suffix[0]);
    assert(t[pos] == 'c');
    if starts_with_at(t, pos, kw_guild()) {
        assert(t.subrange(pos, pos + kw_guild().len())[0] == t[pos]);
        assert(false);
    }
    if starts_with_at(t, pos, kw_proposal()) {
        assert(t.subrange(pos, pos + kw_proposal().len())[0] == t[pos]);
        assert(false);
    }
    assert(t.subrange(pos, pos + kw.len()) =~= kw);
    assert(starts_with_at(t, pos, kw));
    assert forall|q: int| 0 <= q < name.len() implies t.subrange(pos + kw.len(), lend)[q] == name[q] by {
        assert(suffix[kw.len() + q] == t[pos + kw.len() + q]);
        assert(suffix[kw.len() + q] == name[q]);
    }
    assert(t.subrange(pos + kw.len(), lend) =~= name);
    assert(classify_at(t, pos, lend) == Some(LineModel::ActionLine { name }));
}

/// Folding the written lines of `acts` extends the last proposal by
/// exactly `acts`.
proof fn lemma_parse_actions(
    t: Seq<char>,
    pos: int,
    acc: StateModel,
    acts: Seq<ActionModel>,
    rest: Seq<char>,
)
    requires
        0 <= pos <= t.len(),
        t.skip(pos) == enc_actions(acts) + rest,
        forall|i: int| 0 <= i < acts.len() ==> action_encodable(#[trigger] acts[i]),
        acc.entries.len() >= 1,
        acc.entries.last().proposals.len() >= 1,
    ensures
        pos + enc_actions(acts).len() <= t.len(),
        parse_from(t, pos, acc) == parse_from(
            t,
            pos + enc_actions(acts).len(),
            with_actions(acc, acts),
        ),
    decreases acts.len(),
{
    if acts.len() == 0 {
        assert(enc_actions(acts) == Seq::<char>::empty());
        assert(with_actions(acc, acts) =~~= acc);
    } else {
        let a = acts.first();
        let name = (match a {
            ActionModel::CreateChannel { name } => name,
        });
        assert(action_encodable(acts[0]));
        assert(enc_actions(acts) == enc_action(a) + enc_actions(acts.drop_first()));
        let rest2 = enc_actions(acts.drop_first()) + rest;
        assert(t.skip(pos) =~= kw_create() + name + seq!['\n'] + rest2);
        lemma_classify_action(t, pos, name, rest2);
        let lend = find_newline(t, pos);
        let acc1 = push_action(acc, name);
        assert(apply_line(acc, LineModel::ActionLine { name }) == Some(acc1));
        assert(parse_from(t, pos, acc) == parse_from(t, lend + 1, acc1));
        let pos2 = lend + 1;
        assert(pos2 == pos + enc_action(a).len());
        assert(t.skip(pos2) =~= t.skip(pos).skip(pos2 - pos));
        assert(t.skip(pos2) =~= rest2);
        assert(acc1.entries.len() == acc.entries.len());
        assert(acc1.entries.last().proposals.len() == acc.entries.last().proposals.len());
        assert(forall|i: int|
            0 <= i < acts.drop_first().len() ==> action_encodable(
                #[trigger] acts.drop_first()[i],
            ));
        lemma_parse_actions(t, pos2, acc1, acts.drop_first(), rest);
        assert(with_actions(acc1, acts.drop_first()) =~~= with_actions(acc, acts)) by {
            let i = acc.entries.len() - 1;
            let e = acc.entries[i];
            let j = e.proposals.len() - 1;
            let p = e.proposals[j];
            assert(p.law.actions.push(a) + acts.drop_first() =~= p.law.actions + acts);
        }
        assert(pos + enc_actions(acts).len() == pos2 + enc_actions(acts.drop_first()).len());
    }
}

/// Folding the written lines of `ps` extends the last entry by exactly
/// `ps`.
#[verifier::rlimit(60)]
proof fn lemma_parse_proposals(
    t: Seq<char>,
    pos: int,
    acc: StateModel,
    ps: Seq<ProposalModel>,
    rest: Seq<char>,
)
    requires
        0 <= pos <= t.len(),
        t.skip(pos) == enc_proposals(ps) + rest,
        forall|i: int| 0 <= i < ps.len() ==> proposal_encodable(#[trigger] ps[i]),
        acc.entries.len() >= 1,
    ensures
        pos + enc_proposals(ps).len() <= t.len(),
        parse_from(t, pos, acc) == parse_from(
            t,
            pos + enc_proposals(ps).len(),
            with_proposals(acc, ps),
        ),
    decreases ps.len(),
{
    if ps.len() == 0 {
        assert(enc_proposals(ps) == Seq::<char>::empty());
        assert(with_proposals(acc, ps) =~~= acc) by {
            let i = acc.entries.len() - 1;
            assert(acc.entries[i].proposals + ps =~= acc.entries[i].proposals);
        }
    } else {
        let p = ps.first();
        assert(proposal_encodable(ps[0]));
        let acts = p.law.actions;
        let name = p.law.name;
        let mid = p.voting_message_id;
        assert(enc_proposals(ps) == enc_proposal(p) + enc_proposals(ps.drop_first()));
        let rest2 = enc_actions(acts) + (enc_proposals(ps.drop_first()) + rest);
        assert(t.skip(pos) =~= kw_proposal() + u64_digits(mid as nat) + seq![' '] + name
            + seq!['\n'] + rest2);
        lemma_classify_proposal(t, pos, mid, name, rest2);
        let lend = find_newline(t, pos);
        let acc1 = push_proposal(acc, mid, name);
        assert(apply_line(acc, LineModel::ProposalLine { voting_message_id: mid, name }) == Some(
            acc1,
        ));
        assert(parse_from(t, pos, acc) == parse_from(t, lend + 1, acc1));
        let pos2 = lend + 1;
        assert(t.skip(pos2) =~= t.skip(pos).skip(pos2 - pos));
        assert(t.skip(pos2) =~= rest2);
        assert(acc1.entries.len() == acc.entries.len());
        assert(acc1.entries.last().proposals.len() >= 1);
        lemma_parse_actions(t, pos2, acc1, acts, enc_proposals(ps.drop_first()) + rest);
        let acc2 = with_actions(acc1, acts);
        let pos3 = pos2 + enc_actions(acts).len();
        let accp = StateModel {
            entries: acc.entries.update(
                acc.entries.len() - 1,
                GuildEntryModel {
                    guild_id: acc.entries.last().guild_id,
                    proposals: acc.entries.last().proposals.push(p),
                },
            ),
        };
        assert(acc2 =~~= accp) by {
            let i = acc.entries.len() - 1;
            assert(Seq::<ActionModel>::empty() + acts =~= acts);
        }
        assert(t.skip(pos3) =~= t.skip(pos2).skip(pos3 - pos2));
        assert(t.skip(pos3) =~= enc_proposals(ps.drop_first()) + rest);
        assert(accp.entries.len() == acc.entries.len());
        lemma_parse_proposals(t, pos3, accp, ps.drop_first(), rest);
        assert(with_proposals(accp, ps.drop_first()) =~~= with_proposals(acc, ps)) by {
            let i = acc.entries.len() - 1;
            assert(acc.entries[i].proposals.push(p) + ps.drop_first() =~= acc.entries[i].proposals
                + ps);
        }
        assert(pos + enc_proposals(ps).len() == pos3 + enc_proposals(ps.drop_first()).len());
    }
}

/// Folding the written lines of `es` appends exactly those entries.
#[verifier::rlimit(60)]
proof fn lemma_parse_entries(
    t: Seq<char>,
    pos: int,
    acc: StateModel,
    es: Seq<GuildEntryModel>,
    rest: Seq<char>,
)
    requires
        0 <= pos <= t.len(),
        t.skip(pos) == enc_entries(es) + rest,
        forall|i: int| 0 <= i < es.len() ==> entry_encodable(#[trigger] es[i]),
        forall|i: int| 0 <= i < es.len() ==> !acc.has_guild((#[trigger] es[i]).guild_id),
        forall|i: int, j: int|
            0 <= i < j < es.len() ==> (#[trigger] es[i]).guild_id != (#[trigger] es[j]).guild_id,
    ensures
        pos + enc_entries(es).len() <= t.len(),
        parse_from(t, pos, acc) == parse_from(
            t,
            pos + enc_entries(es).len(),
            StateModel { entries: acc.entries + es },
        ),
    decreases es.len(),
{
    if es.len() == 0 {
        assert(enc_entries(es) == Seq::<char>::empty());
        assert(StateModel { entries: acc.entries + es } =~~= acc);
    } else {
        let e = es.first();
        assert(entry_encodable(es[0]));
        let g = e.guild_id;
        let ps = e.proposals;
        assert(enc_entries(es) == enc_entry(e) + enc_entries(es.drop_first()));
        let rest2 = enc_proposals(ps) + (enc_entries(es.drop_first()) + rest);
        assert(t.skip(pos) =~= kw_guild() + u64_digits(g as nat) + seq!['\n'] + rest2);
        lemma_classify_guild(t, pos, g, rest2);
        let lend = find_newline(t, pos);
        assert(!acc.has_guild(g));
        let acc1 = push_entry(acc, g);
        assert(apply_line(acc, LineModel::GuildLine { guild_id: g }) == Some(acc1));
        assert(parse_from(t, pos, acc) == parse_from(t, lend + 1, acc1));
        let pos2 = lend + 1;
        assert(t.skip(pos2) =~= t.skip(pos).skip(pos2 - pos));
        assert(t.skip(pos2) =~= rest2);
        assert(acc1.entries.len() >= 1);
        lemma_parse_proposals(t, pos2, acc1, ps, enc_entries(es.drop_first()) + rest);
        let acc2 = with_proposals(acc1, ps);
        let pos3 = pos2 + enc_proposals(ps).len();
        let accp = StateModel { entries: acc.entries.push(e) };
        assert(acc2 =~~= accp) by {
            assert(Seq::<ProposalModel>::empty() + ps =~= ps);
        }
        assert forall|i: int|
            0 <= i < es.drop_first().len() implies !accp.has_guild(
            (#[trigger] es.drop_first()[i]).guild_id,
        ) by {
            let gi = es.drop_first()[i].guild_id;
            assert(es.drop_first()[i] == es[i + 1]);
            if accp.has_guild(gi) {
                let k = choose|k: int|
                    0 <= k < accp.entries.len() && (#[trigger] accp.entries[k]).guild_id == gi;
                if k < acc.entries.len() {
                    assert(acc.entries[k] == accp.entries[k]);
                    assert(acc.has_guild(gi));
                    assert(false);
                } else {
                    assert(accp.entries[k] == e);
                    assert(es[0].guild_id == es[i + 1].guild_id);
                    assert(false);
                }
            }
        }
        assert(t.skip(pos3) =~= t.skip(pos2).skip(pos3 - pos2));
        assert(t.skip(pos3) =~= enc_entries(es.drop_first()) + rest);
        lemma_parse_entries(t, pos3, accp, es.drop_first(), rest);
        assert(accp.entries + es.drop_first() =~= acc.entries + es);
        assert(StateModel { entries: accp.entries + es.drop_first() } =~~= (StateModel {
            entries: acc.entries + es,
        }));
        assert(pos + enc_entries(es).len() == pos3 + enc_entries(es.drop_first()).len());
    }
}

/// The round trip of the persisted store: a well-formed state whose names
/// fit on their lines is read back from its own rendering unchanged. So a
/// store that saves on releasing its scope and reloads from the same file
/// sees the state it wrote, and saving what was just loaded writes the
/// identical document again.
pub proof fn lemma_save_load_round_trip(m: StateModel)
    requires
        m.wf(),
        state_encodable(m),
    ensures
        parse_spec(encode_state(m)) == Some(m),
        load_spec(Some(encode_state(m))) == m,
        encode_state(load_spec(Some(encode_state(m)))) == encode_state(m),
{
    let t = encode_state(m);
    assert(t.skip(0) =~= enc_entries(m.entries) + Seq::<char>::empty());
    assert(forall|i: int|
        0 <= i < m.entries.len() ==> !StateModel::empty().has_guild(
            (#[trigger] m.entries[i]).guild_id,
        ));
    lemma_parse_entries(t, 0, StateModel::empty(), m.entries, Seq::<char>::empty());
    assert(StateModel { entries: Seq::<GuildEntryModel>::empty() + m.entries } =~~= m);
    assert(parse_from(t, t.len() as int, m) == Some(m));
}

} // verus!
