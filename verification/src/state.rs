//! The process state the store persists: for each server, the pending law
//! proposals in the order they were made.
//!
//! The map from server to proposals is kept as a vector of per-server
//! entries so that its order — and with it the insertion order of each
//! server's proposals — survives a save and reload unchanged. Well-formed
//! states hold at most one entry per server; every operation here preserves
//! that invariant.

use vstd::prelude::*;
use crate::law::{Law, LawModel};

verus! {

/// The mathematical value of a pending proposal.
#[verifier::ext_equal]
pub struct ProposalModel {
    pub law: LawModel,
    pub voting_message_id: u64,
}

/// The mathematical value of one server's entry: its proposals, oldest
/// first.
#[verifier::ext_equal]
pub struct GuildEntryModel {
    pub guild_id: u64,
    pub proposals: Seq<ProposalModel>,
}

/// The mathematical value of the whole process state.
#[verifier::ext_equal]
pub struct StateModel {
    pub entries: Seq<GuildEntryModel>,
}

impl StateModel {
    /// The state with no proposals: the default a store falls back to.
    pub open spec fn empty() -> StateModel {
        StateModel { entries: Seq::empty() }
    }

    /// Well-formed: no two entries are for the same server.
    pub open spec fn wf(self) -> bool {
        forall|i: int, j: int|
            0 <= i < j < self.entries.len() ==> (#[trigger] self.entries[i]).guild_id != (
            #[trigger] self.entries[j]).guild_id
    }

    /// Whether some entry is for the server `guild_id`.
    pub open spec fn has_guild(self, guild_id: u64) -> bool {
        exists|i: int|
            0 <= i < self.entries.len() && (#[trigger] self.entries[i]).guild_id == guild_id
    }

    /// The index of the entry for `guild_id` (meaningful when `has_guild`
    /// holds; under `wf` it is unique).
    pub open spec fn guild_index(self, guild_id: u64) -> int {
        choose|i: int|
            0 <= i < self.entries.len() && (#[trigger] self.entries[i]).guild_id == guild_id
    }

    /// The state after recording the proposal `p` for `guild_id`: appended
    /// to that server's proposals, after every earlier one; a server not
    /// seen before gets a new entry at the end.
    pub open spec fn add(self, guild_id: u64, p: ProposalModel) -> StateModel {
        if self.has_guild(guild_id) {
            let i = self.guild_index(guild_id);
            StateModel {
                entries: self.entries.update(
                    i,
                    GuildEntryModel { guild_id, proposals: self.entries[i].proposals.push(p) },
                ),
            }
        } else {
            StateModel {
                entries: self.entries.push(GuildEntryModel { guild_id, proposals: seq![p] }),
            }
        }
    }

    /// The law of the first proposal for `guild_id` whose voting message is
    /// `message_id`, if any.
    pub open spec fn lookup(self, guild_id: u64, message_id: u64) -> Option<LawModel> {
        if self.has_guild(guild_id) {
            first_match(self.entries[self.guild_index(guild_id)].proposals, message_id)
        } else {
            None
        }
    }
}

/// The law of the first proposal in `ps` whose voting message is
/// `message_id`, if any.
pub open spec fn first_match(ps: Seq<ProposalModel>, message_id: u64) -> Option<LawModel>
    decreases ps.len(),
{
    if ps.len() == 0 {
        None
    } else if ps.first().voting_message_id == message_id {
        Some(ps.first().law)
    } else {
        first_match(ps.drop_first(), message_id)
    }
}

/// A law awaiting its triggering vote, tracked by the identifier of the
/// message used to collect that vote.
#[derive(Debug)]
pub struct LawProposal {
    pub law: Law,
    pub voting_message_id: u64,
}

impl View for LawProposal {
    type V = ProposalModel;

    open spec fn view(&self) -> ProposalModel {
        ProposalModel { law: self.law@, voting_message_id: self.voting_message_id }
    }
}

/// One server's pending proposals, oldest first.
#[derive(Debug)]
pub struct GuildEntry {
    pub guild_id: u64,
    pub proposals: Vec<LawProposal>,
}

impl View for GuildEntry {
    type V = GuildEntryModel;

    open spec fn view(&self) -> GuildEntryModel {
        GuildEntryModel {
            guild_id: self.guild_id,
            proposals: self.proposals@.map_values(|p: LawProposal| p@),
        }
    }
}

/// The process state: each server's pending law proposals, in the order
/// they were made.
#[derive(Debug)]
pub struct ConsulState {
    pub law_proposals: Vec<GuildEntry>,
}

impl View for ConsulState {
    type V = StateModel;

    open spec fn view(&self) -> StateModel {
        StateModel { entries: self.law_proposals@.map_values(|e: GuildEntry| e@) }
    }
}

impl Default for ConsulState {
    /// The empty state: no servers, no proposals.
    fn default() -> (r: ConsulState)
        ensures
            r@ == StateModel::empty(),
            r@.wf(),
    {
        let r = ConsulState { law_proposals: Vec::new() };
        proof {
            assert(r@ =~= StateModel::empty());
        }
        r
    }
}

impl ConsulState {
    /// Record `proposal` for the server `guild_id`, after every proposal
    /// already pending for it.
    pub fn add_proposal(&mut self, guild_id: u64, proposal: LawProposal)
        requires
            old(self)@.wf(),
        ensures
            final(self)@ == old(self)@.add(guild_id, proposal@),
            final(self)@.wf(),
    {
        let ghost pre = self@;
        let ghost pm = proposal@;
        let mut i: usize = 0;
        while i < self.law_proposals.len()
            invariant
                pre == old(self)@,
                pre == self@,
                pre.wf(),
                pm == proposal@,
                0 <= i <= self.law_proposals.len(),
                forall|j: int| 0 <= j < i ==> (#[trigger] pre.entries[j]).guild_id != guild_id,
            decreases self.law_proposals.len() - i,
        {
            if self.law_proposals[i].guild_id == guild_id {
                proof {
                    assert((#[trigger] pre.entries[i as int]).guild_id == guild_id);
                    assert(pre.has_guild(guild_id));
                    assert(pre.guild_index(guild_id) == i) by {
                        let k = pre.guild_index(guild_id);
                        assert(0 <= k < pre.entries.len() && pre.entries[k].guild_id == guild_id);
                    }
                }
                let mut entry = self.law_proposals.remove(i);
                entry.proposals.push(proposal);
                self.law_proposals.insert(i, entry);
                proof {
                    assert(self@.entries =~~= pre.entries.update(
                        i as int,
                        GuildEntryModel {
                            guild_id,
                            proposals: pre.entries[i as int].proposals.push(pm),
                        },
                    ));
                    assert(self@ =~~= pre.add(guild_id, pm));
                }
                return ;
            }
            i = i + 1;
        }
        proof {
            assert(!pre.has_guild(guild_id));
        }
        let mut proposals: Vec<LawProposal> = Vec::new();
        proposals.push(proposal);
        self.law_proposals.push(GuildEntry { guild_id, proposals });
        proof {
            assert(proposals@.map_values(|p: LawProposal| p@) =~= seq![pm]);
            assert(self@.entries =~~= pre.entries.push(
                GuildEntryModel { guild_id, proposals: seq![pm] },
            ));
            assert(self@ =~~= pre.add(guild_id, pm));
        }
    }

    /// Look up the law proposed for `guild_id` whose voting message is
    /// `message_id`: a detached copy of the first matching proposal's law,
    /// or `None` when the server has no such pending proposal.
    pub fn get_law(&self, guild_id: u64, message_id: u64) -> (r: Option<Law>)
        requires
            self@.wf(),
        ensures
            match r {
                Some(law) => self@.lookup(guild_id, message_id) == Some(law@),
                None => self@.lookup(guild_id, message_id) is None,
            },
    {
        let ghost m = self@;
        let mut i: usize = 0;
        while i < self.law_proposals.len()
            invariant
                m == self@,
                m.wf(),
                0 <= i <= self.law_proposals.len(),
                forall|j: int| 0 <= j < i ==> (#[trigger] m.entries[j]).guild_id != guild_id,
            decreases self.law_proposals.len() - i,
        {
            if self.law_proposals[i].guild_id == guild_id {
                proof {
                    assert((#[trigger] m.entries[i as int]).guild_id == guild_id);
                    assert(m.has_guild(guild_id));
                    assert(m.guild_index(guild_id) == i) by {
                        let k = m.guild_index(guild_id);
                        assert(0 <= k < m.entries.len() && m.entries[k].guild_id == guild_id);
                    }
                }
                let entry = &self.law_proposals[i];
                let ghost ps = m.entries[i as int].proposals;
                let mut j: usize = 0;
                while j < entry.proposals.len()
                    invariant
                        m == self@,
                        m.has_guild(guild_id),
                        m.guild_index(guild_id) == i,
                        0 <= i < self.law_proposals.len(),
                        entry@ == m.entries[i as int],
                        ps == m.entries[i as int].proposals,
                        ps.len() == entry.proposals.len(),
                        0 <= j <= ps.len(),
                        forall|k: int|
                            0 <= k < j ==> (#[trigger] ps[k]).voting_message_id != message_id,
                    decreases entry.proposals.len() - j,
                {
                    if entry.proposals[j].voting_message_id == message_id {
                        proof {
                            assert(ps[j as int] == entry.proposals@[j as int]@);
                            lemma_first_match_skip(ps, message_id, j as int);
                            assert(ps.skip(j as int).first() == ps[j as int]);
                        }
                        return Some(entry.proposals[j].law.clone());
                    }
                    proof {
                        assert(ps[j as int] == entry.proposals@[j as int]@);
                    }
                    j = j + 1;
                }
                proof {
                    lemma_first_match_skip(ps, message_id, ps.len() as int);
                    assert(ps.skip(ps.len() as int) =~= Seq::<ProposalModel>::empty());
                }
                return None;
            }
            i = i + 1;
        }
        proof {
            assert(!m.has_guild(guild_id));
        }
        None
    }
}

/// When no proposal among the first `j` matches, the first match in `ps` is
/// the first match in what remains after them.
proof fn lemma_first_match_skip(ps: Seq<ProposalModel>, message_id: u64, j: int)
    requires
        0 <= j <= ps.len(),
        forall|k: int| 0 <= k < j ==> (#[trigger] ps[k]).voting_message_id != message_id,
    ensures
        first_match(ps, message_id) == first_match(ps.skip(j), message_id),
    decreases j,
{
    if j == 0 {
        assert(ps.skip(0) =~= ps);
    } else {
        assert(ps.first().voting_message_id != message_id);
        lemma_first_match_skip(ps.drop_first(), message_id, j - 1);
        assert(ps.drop_first().skip(j - 1) =~= ps.skip(j));
    }
}

} // verus!
