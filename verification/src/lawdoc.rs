//! Reading laws out of user input.
//!
//! A propose command is free text holding a fenced block — three
//! backticks, optionally tagged `yaml`, the document, three backticks —
//! after the `!propose` keyword; [`extract_lawcode`] finds the first such
//! block. The document inside is line-oriented: a `name:` line, an
//! `actions:` line, then one dashed line per action, tagged with the
//! action's variant; blank lines are skipped anywhere:
//!
//! ```text
//! name: Build Hall
//! actions:
//! - CreateChannel: town-square
//! ```
//!
//! [`parse_law`] reads such a document into a [`Law`], or reports exactly
//! why it cannot: a tag outside the closed action set is rejected as
//! [`LawParseError::UnknownAction`] and no partial law is built. The
//! errors render as plain sentences fit to show an end user.

use vstd::prelude::*;
use vstd::string::StrSliceExecFns;
use crate::law::{ActionModel, CreateChannelAction, Law, LawModel, LegalAction};
use crate::text::{
    check_prefix, extract_range, find_backtick, find_bt, find_newline, find_nl,
    lemma_find_newline, starts_with_at,
};

verus! {

/// Why a law document could not be read.
#[derive(Clone, Copy, Debug, PartialEq, Eq, Structural)]
pub enum LawParseError {
    /// The first nonblank line is not a `name:` line.
    MissingName,
    /// The line after the name is not the `actions:` header.
    MissingActions,
    /// A dashed action line carries a tag outside the closed action set.
    UnknownAction,
    /// A line is neither blank, nor an action line, nor a dash at all.
    UnexpectedLine,
}

impl LawParseError {
    /// The sentence shown to the user who sent the document. It names
    /// what was missing or unknown and nothing of the process behind it.
    pub fn message(&self) -> (r: String)
        ensures
            (match self {
                LawParseError::MissingName => r@ == "a law must open with a name: line"@,
                LawParseError::MissingActions => r@
                    == "a law must list its actions: after its name"@,
                LawParseError::UnknownAction => r@
                    == "a law action carries a tag outside the known set"@,
                LawParseError::UnexpectedLine => r@
                    == "a law line must be blank or open with a dash"@,
            }),
    {
        match self {
            LawParseError::MissingName => "a law must open with a name: line".to_owned(),
            LawParseError::MissingActions => "a law must list its actions: after its name"
                .to_owned(),
            LawParseError::UnknownAction => "a law action carries a tag outside the known set"
                .to_owned(),
            LawParseError::UnexpectedLine => "a law line must be blank or open with a dash"
                .to_owned(),
        }
    }
}

/// The keyword opening a name line.
pub open spec fn kw_name() -> Seq<char> {
    seq!['n', 'a', 'm', 'e', ':', ' ']
}

/// The actions header line.
pub open spec fn kw_actions() -> Seq<char> {
    seq!['a', 'c', 't', 'i', 'o', 'n', 's', ':']
}

/// The keyword opening a create-channel action line.
pub open spec fn kw_action_create() -> Seq<char> {
    seq!['-', ' ', 'C', 'r', 'e', 'a', 't', 'e', 'C', 'h', 'a', 'n', 'n', 'e', 'l', ':', ' ']
}

/// The dash that opens any action line.
pub open spec fn kw_dash() -> Seq<char> {
    seq!['-', ' ']
}

/// The string literals the executable code matches are those keywords.
proof fn lemma_doc_kw_strings()
    ensures
        "name: "@ == kw_name(),
        "actions:"@ == kw_actions(),
        "- CreateChannel: "@ == kw_action_create(),
        "- "@ == kw_dash(),
{
    reveal_strlit("name: ");
    reveal_strlit("actions:");
    reveal_strlit("- CreateChannel: ");
    reveal_strlit("- ");
    assert("name: "@ =~= kw_name());
    assert("actions:"@ =~= kw_actions());
    assert("- CreateChannel: "@ =~= kw_action_create());
    assert("- "@ =~= kw_dash());
}

/// The position of the first nonblank line at or after `pos` (the end of
/// the text when none follows).
pub open spec fn skip_blank(t: Seq<char>, pos: int) -> int
    decreases t.len() - pos,
{
    if pos < 0 || pos >= t.len() {
        pos
    } else if find_newline(t, pos) == pos {
        skip_blank(t, pos + 1)
    } else {
        pos
    }
}

/// `skip_blank` stays within bounds and lands on a nonblank line or the
/// end.
pub proof fn lemma_skip_blank(t: Seq<char>, pos: int)
    requires
        0 <= pos <= t.len(),
    ensures
        pos <= skip_blank(t, pos) <= t.len(),
        skip_blank(t, pos) < t.len() ==> find_newline(t, skip_blank(t, pos)) > skip_blank(t, pos),
        skip_blank(t, skip_blank(t, pos)) == skip_blank(t, pos),
    decreases t.len() - pos,
{
    if pos < t.len() {
        lemma_find_newline(t, pos);
        if find_newline(t, pos) == pos {
            lemma_skip_blank(t, pos + 1);
        }
    }
}

/// The position after the line that spans `[pos, lend)`.
pub open spec fn after_line(t: Seq<char>, lend: int) -> int {
    if lend < t.len() {
        lend + 1
    } else {
        lend
    }
}

/// Read the document's name line: the law's name and the position after
/// the line, or the error when the first nonblank line is no name line.
pub open spec fn doc_name(t: Seq<char>, pos: int) -> Result<(Seq<char>, int), LawParseError> {
    let p = skip_blank(t, pos);
    if p >= t.len() {
        Err(LawParseError::MissingName)
    } else {
        let lend = find_newline(t, p);
        if starts_with_at(t, p, kw_name()) && p + kw_name().len() <= lend {
            Ok((t.subrange(p + kw_name().len(), lend), after_line(t, lend)))
        } else {
            Err(LawParseError::MissingName)
        }
    }
}

/// Read the document's actions header: the position after it, or the
/// error when the next nonblank line is not exactly the header.
pub open spec fn doc_header(t: Seq<char>, pos: int) -> Result<int, LawParseError> {
    let p = skip_blank(t, pos);
    if p >= t.len() {
        Err(LawParseError::MissingActions)
    } else {
        let lend = find_newline(t, p);
        if starts_with_at(t, p, kw_actions()) && lend == p + kw_actions().len() {
            Ok(after_line(t, lend))
        } else {
            Err(LawParseError::MissingActions)
        }
    }
}

/// Read the document's action lines from `pos` on: every remaining
/// nonblank line must be a dashed action line with a known tag.
pub open spec fn doc_actions(t: Seq<char>, pos: int, acc: Seq<ActionModel>) -> Result<
    Seq<ActionModel>,
    LawParseError,
>
    decreases t.len() - pos,
    via doc_actions_dec
{
    let p = skip_blank(t, pos);
    if p < 0 || p >= t.len() {
        Ok(acc)
    } else {
        let lend = find_newline(t, p);
        if starts_with_at(t, p, kw_action_create()) && p + kw_action_create().len() <= lend {
            doc_actions(
                t,
                after_line(t, lend),
                acc.push(
                    ActionModel::CreateChannel {
                        name: t.subrange(p + kw_action_create().len(), lend),
                    },
                ),
            )
        } else if starts_with_at(t, p, kw_dash()) && p + kw_dash().len() <= lend {
            Err(LawParseError::UnknownAction)
        } else {
            Err(LawParseError::UnexpectedLine)
        }
    }
}

#[via_fn]
proof fn doc_actions_dec(t: Seq<char>, pos: int, acc: Seq<ActionModel>) {
    if 0 <= pos <= t.len() {
        lemma_skip_blank(t, pos);
        if skip_blank(t, pos) < t.len() {
            lemma_find_newline(t, skip_blank(t, pos));
        }
    }
}

/// What a whole law document denotes: its name and its actions in order,
/// or the first error met reading it top to bottom.
pub open spec fn law_doc(t: Seq<char>) -> Result<LawModel, LawParseError> {
    match doc_name(t, 0) {
        Err(e) => Err(e),
        Ok((name, p1)) => match doc_header(t, p1) {
            Err(e) => Err(e),
            Ok(p2) => match doc_actions(t, p2, Seq::empty()) {
                Err(e) => Err(e),
                Ok(actions) => Ok(LawModel { name, actions }),
            },
        },
    }
}

/// The position of the first nonblank line of `s` at or after `from`.
fn next_line(s: &str, from: usize) -> (p: usize)
    requires
        from <= s@.len(),
    ensures
        p == skip_blank(s@, from as int),
        from <= p <= s@.len(),
{
    let n = s.unicode_len();
    let mut p = from;
    while p < n
        invariant
            from <= p <= n,
            n == s@.len(),
            skip_blank(s@, from as int) == skip_blank(s@, p as int),
        decreases n - p,
    {
        if s.get_char(p) == '\n' {
            proof {
                assert(find_newline(s@, p as int) == p as int);
            }
            p = p + 1;
        } else {
            proof {
                lemma_find_newline(s@, p as int);
                assert(find_newline(s@, p as int) > p as int);
            }
            return p;
        }
    }
    p
}

/// Read a law document into a law, exactly as `law_doc` describes it: the
/// name line, the actions header, then one action per dashed line — or
/// the first error met, with no partial law constructed.
pub fn parse_law(s: &str) -> (r: Result<Law, LawParseError>)
    ensures
        (match r {
            Ok(law) => law_doc(s@) == Ok::<LawModel, LawParseError>(law@),
            Err(e) => law_doc(s@) == Err::<LawModel, LawParseError>(e),
        }),
{
    proof {
        lemma_doc_kw_strings();
    }
    let ghost t = s@;
    let n = s.unicode_len();
    let p0 = next_line(s, 0);
    if p0 >= n {
        return Err(LawParseError::MissingName);
    }
    let lend0 = find_nl(s, p0);
    proof {
        lemma_find_newline(t, p0 as int);
    }
    let kln = "name: ".unicode_len();
    if !(check_prefix(s, p0, "name: ") && lend0 - p0 >= kln) {
        return Err(LawParseError::MissingName);
    }
    let name = extract_range(s, p0 + kln, lend0);
    let p1 = if lend0 < n {
        lend0 + 1
    } else {
        lend0
    };
    proof {
        assert(doc_name(t, 0) == Ok::<(Seq<char>, int), LawParseError>((name@, p1 as int)));
    }
    let p2 = next_line(s, p1);
    if p2 >= n {
        return Err(LawParseError::MissingActions);
    }
    let lend2 = find_nl(s, p2);
    proof {
        lemma_find_newline(t, p2 as int);
    }
    let kla = "actions:".unicode_len();
    if !(check_prefix(s, p2, "actions:") && lend2 - p2 == kla) {
        return Err(LawParseError::MissingActions);
    }
    let p3 = if lend2 < n {
        lend2 + 1
    } else {
        lend2
    };
    proof {
        assert(doc_header(t, p1 as int) == Ok::<int, LawParseError>(p3 as int));
    }
    let mut actions: Vec<LegalAction> = Vec::new();
    let mut p = next_line(s, p3);
    proof {
        lemma_skip_blank(t, p3 as int);
        assert(actions@.map_values(|a: LegalAction| a@) =~= Seq::<ActionModel>::empty());
        assert(doc_actions(t, p3 as int, Seq::empty()) == doc_actions(
            t,
            p as int,
            actions@.map_values(|a: LegalAction| a@),
        ));
    }
    while p < n
        invariant
            n == t.len(),
            t == s@,
            p <= n,
            p == skip_blank(t, p as int),
            doc_name(t, 0) == Ok::<(Seq<char>, int), LawParseError>((name@, p1 as int)),
            doc_header(t, p1 as int) == Ok::<int, LawParseError>(p3 as int),
            doc_actions(t, p3 as int, Seq::empty()) == doc_actions(
                t,
                p as int,
                actions@.map_values(|a: LegalAction| a@),
            ),
        decreases n - p,
    {
        proof {
            lemma_doc_kw_strings();
            lemma_find_newline(t, p as int);
        }
        let ghost before = actions@.map_values(|a: LegalAction| a@);
        let lend = find_nl(s, p);
        let klc = "- CreateChannel: ".unicode_len();
        let kld = "- ".unicode_len();
        if check_prefix(s, p, "- CreateChannel: ") && lend - p >= klc {
            let aname = extract_range(s, p + klc, lend);
            actions.push(LegalAction::CreateChannel(CreateChannelAction::new(aname)));
            let ghost am = ActionModel::CreateChannel { name: aname@ };
            proof {
                assert(actions@.map_values(|a: LegalAction| a@) =~= before.push(am));
            }
            let pafter = if lend < n {
                lend + 1
            } else {
                lend
            };
            proof {
                assert(doc_actions(t, p as int, before) == doc_actions(
                    t,
                    pafter as int,
                    before.push(am),
                ));
            }
            p = next_line(s, pafter);
            proof {
                lemma_skip_blank(t, pafter as int);
                assert(doc_actions(t, pafter as int, before.push(am)) == doc_actions(
                    t,
                    p as int,
                    before.push(am),
                ));
            }
        } else if check_prefix(s, p, "- ") && lend - p >= kld {
            proof {
                assert(doc_actions(t, p as int, before) == Err::<Seq<ActionModel>, LawParseError>(
                    LawParseError::UnknownAction,
                ));
            }
            return Err(LawParseError::UnknownAction);
        } else {
            proof {
                assert(doc_actions(t, p as int, before) == Err::<Seq<ActionModel>, LawParseError>(
                    LawParseError::UnexpectedLine,
                ));
            }
            return Err(LawParseError::UnexpectedLine);
        }
    }
    proof {
        assert(doc_actions(t, p as int, actions@.map_values(|a: LegalAction| a@))
            == Ok::<Seq<ActionModel>, LawParseError>(actions@.map_values(|a: LegalAction| a@)));
    }
    Ok(Law::new(name, actions))
}

/// The propose keyword and its opening fence.
pub open spec fn kw_propose() -> Seq<char> {
    seq!['!', 'p', 'r', 'o', 'p', 'o', 's', 'e', ' ', '`', '`', '`']
}

/// The optional format tag after the opening fence.
pub open spec fn kw_yaml() -> Seq<char> {
    seq!['y', 'a', 'm', 'l']
}

/// A closing fence.
pub open spec fn kw_ticks() -> Seq<char> {
    seq!['`', '`', '`']
}

proof fn lemma_propose_kw_strings()
    ensures
        "!propose ```"@ == kw_propose(),
        "yaml"@ == kw_yaml(),
        "```"@ == kw_ticks(),
{
    reveal_strlit("!propose ```");
    reveal_strlit("yaml");
    reveal_strlit("```");
    assert("!propose ```"@ =~= kw_propose());
    assert("yaml"@ =~= kw_yaml());
    assert("```"@ =~= kw_ticks());
}

/// The fenced text captured from position `k` on: the longest nonempty
/// run free of backticks, provided a closing fence follows it.
pub open spec fn capture_at(t: Seq<char>, k: int) -> Option<(int, int)> {
    let e = find_backtick(t, k);
    if e > k && starts_with_at(t, e, kw_ticks()) {
        Some((k, e))
    } else {
        None
    }
}

/// The capture of a propose command standing exactly at `i`: after the
/// keyword and its fence, a `yaml` tag is taken when a capture follows
/// it, else the capture starts right after the fence.
pub open spec fn match_at(t: Seq<char>, i: int) -> Option<(int, int)> {
    if starts_with_at(t, i, kw_propose()) {
        if starts_with_at(t, i + kw_propose().len(), kw_yaml()) && capture_at(
            t,
            i + kw_propose().len() + kw_yaml().len(),
        ) is Some {
            capture_at(t, i + kw_propose().len() + kw_yaml().len())
        } else {
            capture_at(t, i + kw_propose().len())
        }
    } else {
        None
    }
}

/// The leftmost propose command in `t` at or after `i`, if any.
pub open spec fn find_propose(t: Seq<char>, i: int) -> Option<(int, int)>
    decreases t.len() - i,
{
    if i >= t.len() {
        None
    } else if match_at(t, i) is Some {
        match_at(t, i)
    } else {
        find_propose(t, i + 1)
    }
}

/// The capture of the leftmost propose command in a message.
pub open spec fn propose_capture(t: Seq<char>) -> Option<(int, int)> {
    find_propose(t, 0)
}

/// The fenced text captured from `k` on, as `capture_at` describes it.
fn capture_exec(s: &str, k: usize) -> (r: Option<(usize, usize)>)
    ensures
        (match r {
            Some(c) => capture_at(s@, k as int) == Some((c.0 as int, c.1 as int)),
            None => capture_at(s@, k as int) is None,
        }),
{
    proof {
        lemma_propose_kw_strings();
    }
    let n = s.unicode_len();
    if k >= n {
        proof {
            assert(find_backtick(s@, k as int) == s@.len());
            assert(capture_at(s@, k as int) is None);
        }
        return None;
    }
    let e = find_bt(s, k);
    proof {
        crate::text::lemma_find_backtick(s@, k as int);
    }
    if e == k {
        return None;
    }
    if check_prefix(s, e, "```") {
        proof {
            assert(capture_at(s@, k as int) == Some((k as int, e as int)));
        }
        Some((k, e))
    } else {
        None
    }
}

/// Find the first propose command in a message and hand back the text of
/// its fenced block, or `None` when the message holds no such command.
/// The leftmost command wins; a `yaml` tag on the fence is skipped.
pub fn extract_lawcode(s: &str) -> (r: Option<String>)
    ensures
        (match r {
            Some(code) => propose_capture(s@) matches Some(c) && code@ == s@.subrange(c.0, c.1),
            None => propose_capture(s@) is None,
        }),
{
    proof {
        lemma_propose_kw_strings();
    }
    let ghost t = s@;
    let n = s.unicode_len();
    let klp = "!propose ```".unicode_len();
    let kly = "yaml".unicode_len();
    let mut i: usize = 0;
    while i < n
        invariant
            n == t.len(),
            t == s@,
            0 <= i <= n,
            klp == kw_propose().len(),
            kly == kw_yaml().len(),
            find_propose(t, 0) == find_propose(t, i as int),
        decreases n - i,
    {
        proof {
            lemma_propose_kw_strings();
        }
        if check_prefix(s, i, "!propose ```") {
            let after = i + klp;
            let cap: Option<(usize, usize)> = if after <= n && check_prefix(s, after, "yaml") {
                match capture_exec(s, after + kly) {
                    Some(c) => Some(c),
                    None => capture_exec(s, after),
                }
            } else {
                capture_exec(s, after)
            };
            match cap {
                Some((a, b)) => {
                    proof {
                        assert(match_at(t, i as int) == Some((a as int, b as int)));
                        assert((a as int, b as int).1 == b as int);
                        assert(0 <= a as int <= b as int <= t.len()) by {
                            crate::text::lemma_find_backtick(t, a as int);
                        }
                    }
                    return Some(extract_range(s, a, b));
                },
                None => {
                    proof {
                        assert(match_at(t, i as int) is None);
                        assert(find_propose(t, i as int) == find_propose(t, i + 1));
                    }
                },
            }
        } else {
            proof {
                assert(match_at(t, i as int) is None);
                assert(find_propose(t, i as int) == find_propose(t, i + 1));
            }
        }
        i = i + 1;
    }
    None
}

} // verus!
