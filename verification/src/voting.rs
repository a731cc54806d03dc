//! The election ledger: one voting window, a catalog of projects, a roster of
//! weighted participants, and the rules for mutating them.

use crate::assoc::assoc_map;
use crate::assoc::has_key;
use crate::assoc::unique_keys;
use crate::error::StartNotBeforeEnd;
use crate::error::VotingError;
use crate::identity::lemma_lex_lt_neq;
use crate::identity::lemma_lex_lt_trans;
use crate::identity::lemma_lex_trichotomy;
use crate::identity::lex_lt;
use crate::identity::pk_eq;
use crate::identity::pk_lt;
use crate::identity::PublicKey;
use vstd::prelude::*;

verus! {

broadcast use crate::identity::lemma_pk_view_len;

/// An opaque 64-bit project identifier, ordered by its value.
#[derive(Clone, Copy, Debug, PartialEq, Eq, Structural)]
pub struct ProjectId(pub u64);

impl View for ProjectId {
    type V = u64;

    open spec fn view(&self) -> u64 {
        self.0
    }
}

/// A proposal: five free-form text fields, none of them validated.
#[derive(Clone, Debug, PartialEq, Eq)]
pub struct Project {
    pub name: String,
    pub team_name: String,
    pub video_link: String,
    pub github_link: String,
    pub google_drive_link: String,
}

/// The mathematical content of a `Project`: its five text fields.
#[verifier::ext_equal]
pub ghost struct ProjectV {
    pub name: Seq<char>,
    pub team_name: Seq<char>,
    pub video_link: Seq<char>,
    pub github_link: Seq<char>,
    pub google_drive_link: Seq<char>,
}

impl View for Project {
    type V = ProjectV;

    open spec fn view(&self) -> ProjectV {
        ProjectV {
            name: self.name@,
            team_name: self.team_name@,
            video_link: self.video_link@,
            github_link: self.github_link@,
            google_drive_link: self.google_drive_link@,
        }
    }
}

/// A roster entry: the identity's assigned total power, the running sum of
/// its current allocations, and those allocations, one per project voted on.
#[derive(Clone, Debug, PartialEq, Eq)]
pub struct Participant {
    pub total_voting_power: u64,
    pub used_voting_power: u64,
    pub votes: Vec<(ProjectId, u64)>,
}

/// The mathematical content of a `Participant`: the votes read as a mapping
/// from project id to allocated amount.
#[verifier::ext_equal]
pub ghost struct ParticipantV {
    pub total_voting_power: u64,
    pub used_voting_power: u64,
    pub votes: Map<u64, u64>,
}

/// The vote entries with their keys and values as plain integers.
pub open spec fn votes_vseq(s: Seq<(ProjectId, u64)>) -> Seq<(u64, u64)> {
    s.map_values(|e: (ProjectId, u64)| (e.0@, e.1))
}

impl View for Participant {
    type V = ParticipantV;

    open spec fn view(&self) -> ParticipantV {
        ParticipantV {
            total_voting_power: self.total_voting_power,
            used_voting_power: self.used_voting_power,
            votes: assoc_map(votes_vseq(self.votes@)),
        }
    }
}

/// The ledger: the voting window and the two catalogs it owns. Both catalogs
/// are association sequences sorted strictly by the natural order of their
/// key, so that the encoding of a ledger is deterministic.
#[derive(Debug, PartialEq, Eq)]
pub struct Voting {
    pub start_timestamp: u64,
    pub end_timestamp: u64,
    pub projects: Vec<(ProjectId, Project)>,
    pub participants: Vec<(PublicKey, Participant)>,
}

/// The mathematical content of a ledger: the window and the two mappings.
#[verifier::ext_equal]
pub ghost struct LedgerV {
    pub start_timestamp: u64,
    pub end_timestamp: u64,
    pub projects: Map<u64, ProjectV>,
    pub participants: Map<Seq<u8>, ParticipantV>,
}

/// The project entries with their keys and values abstracted.
pub open spec fn projects_vseq(s: Seq<(ProjectId, Project)>) -> Seq<(u64, ProjectV)> {
    s.map_values(|e: (ProjectId, Project)| (e.0@, e.1@))
}

/// The roster entries with their keys and values abstracted.
pub open spec fn participants_vseq(s: Seq<(PublicKey, Participant)>) -> Seq<
    (Seq<u8>, ParticipantV),
> {
    s.map_values(|e: (PublicKey, Participant)| (e.0@, e.1@))
}

impl View for Voting {
    type V = LedgerV;

    open spec fn view(&self) -> LedgerV {
        LedgerV {
            start_timestamp: self.start_timestamp,
            end_timestamp: self.end_timestamp,
            projects: assoc_map(projects_vseq(self.projects@)),
            participants: assoc_map(participants_vseq(self.participants@)),
        }
    }
}

/// Entries sorted strictly ascending by project id.
pub open spec fn sorted_by_pid<V>(s: Seq<(ProjectId, V)>) -> bool {
    forall|i: int, j: int|
        0 <= i < j < s.len() ==> (#[trigger] s[i]).0.0 < (#[trigger] s[j]).0.0
}

/// Entries sorted strictly ascending by the identity's bytes.
pub open spec fn sorted_by_pk<V>(s: Seq<(PublicKey, V)>) -> bool {
    forall|i: int, j: int|
        0 <= i < j < s.len() ==> lex_lt((#[trigger] s[i]).0@, (#[trigger] s[j]).0@)
}

/// The sum of the allocated amounts in a vote sequence.
pub open spec fn sum_votes(s: Seq<(ProjectId, u64)>) -> int
    decreases s.len(),
{
    if s.len() == 0 {
        0
    } else {
        sum_votes(s.drop_last()) + s.last().1
    }
}

impl Participant {
    /// Well-formedness: votes sorted by project id, their sum no more than
    /// the used power, and the used power within the assigned total.
    pub open spec fn wf(&self) -> bool {
        &&& sorted_by_pid(self.votes@)
        &&& sum_votes(self.votes@) <= self.used_voting_power as int
        &&& self.used_voting_power <= self.total_voting_power
    }

    /// The bookkeeping identity: the used power is exactly the sum of the
    /// stored allocations.
    pub open spec fn balanced(&self) -> bool {
        self.used_voting_power as int == sum_votes(self.votes@)
    }
}

impl Voting {
    /// Well-formedness: the window is non-empty, both catalogs are sorted by
    /// their key, and every roster entry is well-formed.
    pub open spec fn wf(&self) -> bool {
        &&& self.start_timestamp < self.end_timestamp
        &&& sorted_by_pid(self.projects@)
        &&& sorted_by_pk(self.participants@)
        &&& forall|i: int|
            0 <= i < self.participants@.len() ==> (#[trigger] self.participants@[i]).1.wf()
    }

    /// Every participant's used power is exactly the sum of its stored votes.
    pub open spec fn balanced(&self) -> bool {
        forall|i: int|
            0 <= i < self.participants@.len() ==> (#[trigger] self.participants@[i]).1.balanced()
    }
}

/// The outcome of a vote cast, checked in the fixed order: window not yet
/// open, window over, unknown identity, not enough power, unknown project.
pub open spec fn cast_vote_result(
    s: LedgerV,
    pk: Seq<u8>,
    id: u64,
    vote: u64,
    vote_at: u64,
) -> Result<(), VotingError> {
    if vote_at < s.start_timestamp {
        Err(VotingError::VotingNotStarted)
    } else if vote_at >= s.end_timestamp {
        Err(VotingError::VotingEnded)
    } else if !s.participants.contains_key(pk) {
        Err(VotingError::NotAParticipant)
    } else if s.participants[pk].used_voting_power + vote
        > s.participants[pk].total_voting_power {
        Err(VotingError::NotEnoughVotingPower)
    } else if !s.projects.contains_key(id) {
        Err(VotingError::ProjectDoesNotExists)
    } else {
        Ok(())
    }
}

/// The ledger after a successful vote cast: the voter's used power grows by
/// the full new amount and the stored allocation for the project is
/// overwritten (not summed) with it.
pub open spec fn cast_vote_state(s: LedgerV, pk: Seq<u8>, id: u64, vote: u64) -> LedgerV {
    let p = s.participants[pk];
    LedgerV {
        participants: s.participants.insert(
            pk,
            ParticipantV {
                total_voting_power: p.total_voting_power,
                used_voting_power: (p.used_voting_power + vote) as u64,
                votes: p.votes.insert(id, vote),
            },
        ),
        ..s
    }
}

/// A roster entry after a project is withdrawn: the vote on it, if any, is
/// dropped and the used power falls by exactly the dropped amount.
pub open spec fn cancel_vote(p: ParticipantV, id: u64) -> ParticipantV {
    ParticipantV {
        total_voting_power: p.total_voting_power,
        used_voting_power: (p.used_voting_power - vote_amount(p.votes, id)) as u64,
        votes: p.votes.remove(id),
    }
}

/// The whole ledger after a project is withdrawn: the project leaves the
/// catalog and, when it was present, every roster entry drops its vote on it.
pub open spec fn cancel_all(s: LedgerV, id: u64) -> LedgerV {
    LedgerV {
        projects: s.projects.remove(id),
        participants: if s.projects.contains_key(id) {
            Map::new(
                |k: Seq<u8>| s.participants.contains_key(k),
                |k: Seq<u8>| cancel_vote(s.participants[k], id),
            )
        } else {
            s.participants
        },
        ..s
    }
}

/// The amount a vote map allocates to a project: its entry, or zero.
pub open spec fn vote_amount(m: Map<u64, u64>, id: u64) -> int {
    if m.contains_key(id) {
        m[id] as int
    } else {
        0
    }
}

pub proof fn lemma_sum_votes_nonneg(s: Seq<(ProjectId, u64)>)
    ensures
        sum_votes(s) >= 0,
    decreases s.len(),
{
    if s.len() > 0 {
        lemma_sum_votes_nonneg(s.drop_last());
    }
}

pub proof fn lemma_sum_votes_update(s: Seq<(ProjectId, u64)>, i: int, e: (ProjectId, u64))
    requires
        0 <= i < s.len(),
    ensures
        sum_votes(s.update(i, e)) == sum_votes(s) - s[i].1 + e.1,
    decreases s.len(),
{
    let t = s.update(i, e);
    if i == s.len() - 1 {
        assert(t.drop_last() =~= s.drop_last());
    } else {
        assert(t.drop_last() =~= s.drop_last().update(i, e));
        lemma_sum_votes_update(s.drop_last(), i, e);
        assert(t.last() == s.last());
    }
}

pub proof fn lemma_sum_votes_insert(s: Seq<(ProjectId, u64)>, p: int, e: (ProjectId, u64))
    requires
        0 <= p <= s.len(),
    ensures
        sum_votes(s.insert(p, e)) == sum_votes(s) + e.1,
    decreases s.len(),
{
    let t = s.insert(p, e);
    if p == s.len() {
        assert(t.drop_last() =~= s);
        assert(t.last() == e);
    } else {
        assert(t.drop_last() =~= s.drop_last().insert(p, e));
        lemma_sum_votes_insert(s.drop_last(), p, e);
        assert(t.last() == s.last());
    }
}

pub proof fn lemma_sum_votes_remove(s: Seq<(ProjectId, u64)>, i: int)
    requires
        0 <= i < s.len(),
    ensures
        sum_votes(s.remove(i)) == sum_votes(s) - s[i].1,
    decreases s.len(),
{
    let t = s.remove(i);
    if i == s.len() - 1 {
        assert(t =~= s.drop_last());
    } else {
        assert(t.last() == s.last());
        assert(t.drop_last() =~= s.drop_last().remove(i));
        lemma_sum_votes_remove(s.drop_last(), i);
    }
}

pub proof fn lemma_vote_le_sum(s: Seq<(ProjectId, u64)>, i: int)
    requires
        0 <= i < s.len(),
    ensures
        s[i].1 <= sum_votes(s),
    decreases s.len(),
{
    if i == s.len() - 1 {
        lemma_sum_votes_nonneg(s.drop_last());
    } else {
        lemma_vote_le_sum(s.drop_last(), i);
        assert(s.drop_last()[i] == s[i]);
    }
}

proof fn lemma_votes_vseq_index(s: Seq<(ProjectId, u64)>)
    ensures
        votes_vseq(s).len() == s.len(),
        forall|i: int|
            0 <= i < s.len() ==> #[trigger] votes_vseq(s)[i] == (s[i].0.0, s[i].1),
{
}

proof fn lemma_votes_unique(s: Seq<(ProjectId, u64)>)
    requires
        sorted_by_pid(s),
    ensures
        unique_keys(votes_vseq(s)),
{
    lemma_votes_vseq_index(s);
    let t = votes_vseq(s);
    assert forall|i: int, j: int| 0 <= i < j < t.len() implies (#[trigger] t[i]).0
        != (#[trigger] t[j]).0 by {
        assert(s[i].0.0 < s[j].0.0);
    }
}

proof fn lemma_projects_vseq_index(s: Seq<(ProjectId, Project)>)
    ensures
        projects_vseq(s).len() == s.len(),
        forall|i: int|
            0 <= i < s.len() ==> #[trigger] projects_vseq(s)[i] == (s[i].0.0, s[i].1@),
{
}

proof fn lemma_projects_unique(s: Seq<(ProjectId, Project)>)
    requires
        sorted_by_pid(s),
    ensures
        unique_keys(projects_vseq(s)),
{
    lemma_projects_vseq_index(s);
    let t = projects_vseq(s);
    assert forall|i: int, j: int| 0 <= i < j < t.len() implies (#[trigger] t[i]).0
        != (#[trigger] t[j]).0 by {
        assert(s[i].0.0 < s[j].0.0);
    }
}

proof fn lemma_participants_vseq_index(s: Seq<(PublicKey, Participant)>)
    ensures
        participants_vseq(s).len() == s.len(),
        forall|i: int|
            0 <= i < s.len() ==> #[trigger] participants_vseq(s)[i] == (s[i].0@, s[i].1@),
{
}

proof fn lemma_participants_unique(s: Seq<(PublicKey, Participant)>)
    requires
        sorted_by_pk(s),
    ensures
        unique_keys(participants_vseq(s)),
{
    lemma_participants_vseq_index(s);
    let t = participants_vseq(s);
    assert forall|i: int, j: int| 0 <= i < j < t.len() implies (#[trigger] t[i]).0
        != (#[trigger] t[j]).0 by {
        assert(lex_lt(s[i].0@, s[j].0@));
        crate::identity::lemma_lex_lt_neq(s[i].0@, s[j].0@);
    }
}

/// The least index whose key is at least `id`, in a catalog sorted by
/// project id.
fn vote_lower_bound(v: &Vec<(ProjectId, u64)>, id: ProjectId) -> (i: usize)
    requires
        sorted_by_pid(v@),
    ensures
        i <= v@.len(),
        forall|j: int| 0 <= j < i ==> (#[trigger] v@[j]).0.0 < id.0,
        forall|j: int| i <= j < v@.len() ==> id.0 <= (#[trigger] v@[j]).0.0,
{
    let mut i: usize = 0;
    while i < v.len() && v[i].0.0 < id.0
        invariant
            i <= v@.len(),
            sorted_by_pid(v@),
            forall|j: int| 0 <= j < i ==> (#[trigger] v@[j]).0.0 < id.0,
        decreases v@.len() - i,
    {
        i = i + 1;
    }
    proof {
        assert forall|j: int| i <= j < v@.len() implies id.0 <= (#[trigger] v@[j]).0.0 by {
            if (i as int) < j {
                assert(v@[i as int].0.0 < v@[j].0.0);
            }
        }
    }
    i
}

/// Sets the allocation for `id` to `amount`, inserting or overwriting, and
/// keeps the sequence sorted.
fn upsert_vote(v: &mut Vec<(ProjectId, u64)>, id: ProjectId, amount: u64)
    requires
        sorted_by_pid(old(v)@),
    ensures
        sorted_by_pid(final(v)@),
        assoc_map(votes_vseq(final(v)@)) == assoc_map(votes_vseq(old(v)@)).insert(id.0, amount),
        sum_votes(final(v)@) == sum_votes(old(v)@) + amount - vote_amount(
            assoc_map(votes_vseq(old(v)@)),
            id.0,
        ),
{
    let ghost s0 = v@;
    let ghost t0 = votes_vseq(s0);
    proof {
        lemma_votes_unique(s0);
        lemma_votes_vseq_index(s0);
    }
    let i = vote_lower_bound(v, id);
    if i < v.len() && v[i].0.0 == id.0 {
        proof {
            assert(id == s0[i as int].0);
            crate::assoc::lemma_at_index(t0, i as int);
        }
        let e = &mut v[i];
        *e = (id, amount);
        proof {
            assert(v@ == s0.update(i as int, (s0[i as int].0, amount)));
            assert(votes_vseq(v@) =~= t0.update(i as int, (id.0, amount))) by {
                lemma_votes_vseq_index(v@);
            }
            crate::assoc::lemma_update_at(t0, i as int, amount);
            lemma_sum_votes_update(s0, i as int, (id, amount));
            assert(sorted_by_pid(v@)) by {
                assert forall|a: int, b: int| 0 <= a < b < v@.len() implies (
                #[trigger] v@[a]).0.0 < (#[trigger] v@[b]).0.0 by {
                    assert(s0[a].0.0 < s0[b].0.0);
                }
            }
            assert(assoc_map(votes_vseq(v@)) =~= assoc_map(t0).insert(id.0, amount));
        }
    } else {
        proof {
            assert(!has_key(t0, id.0)) by {
                if has_key(t0, id.0) {
                    let n = crate::assoc::index_of_key(t0, id.0);
                    crate::assoc::lemma_index_of_key(t0, id.0);
                    assert(s0[n].0.0 == id.0);
                    if n > i as int {
                        assert(s0[i as int].0.0 < s0[n].0.0);
                    }
                }
            }
            crate::assoc::lemma_absent_key(t0, id.0);
        }
        v.insert(i, (id, amount));
        proof {
            assert(v@ == s0.insert(i as int, (id, amount)));
            assert(votes_vseq(v@) =~= t0.insert(i as int, (id.0, amount))) by {
                lemma_votes_vseq_index(v@);
            }
            crate::assoc::lemma_insert_at(t0, i as int, id.0, amount);
            lemma_sum_votes_insert(s0, i as int, (id, amount));
            assert(sorted_by_pid(v@)) by {
                assert forall|a: int, b: int| 0 <= a < b < v@.len() implies (
                #[trigger] v@[a]).0.0 < (#[trigger] v@[b]).0.0 by {
                    if a < i as int && b > i as int {
                        assert(s0[a].0.0 < s0[b - 1].0.0);
                    } else if a == i as int && b > i as int {
                        assert(id.0 <= s0[i as int].0.0);
                        if (i as int) < b - 1 {
                            assert(s0[i as int].0.0 < s0[b - 1].0.0);
                        }
                    } else if a > i as int {
                        assert(s0[a - 1].0.0 < s0[b - 1].0.0);
                    }
                }
            }
            assert(assoc_map(votes_vseq(v@)) =~= assoc_map(t0).insert(id.0, amount));
        }
    }
}

/// Removes the allocation for `id` if there is one, returning the removed
/// amount.
fn remove_vote(v: &mut Vec<(ProjectId, u64)>, id: ProjectId) -> (removed: Option<u64>)
    requires
        sorted_by_pid(old(v)@),
    ensures
        sorted_by_pid(final(v)@),
        assoc_map(votes_vseq(final(v)@)) == assoc_map(votes_vseq(old(v)@)).remove(id.0),
        removed == (if assoc_map(votes_vseq(old(v)@)).contains_key(id.0) {
            Some(assoc_map(votes_vseq(old(v)@))[id.0])
        } else {
            None::<u64>
        }),
        sum_votes(final(v)@) == sum_votes(old(v)@) - vote_amount(
            assoc_map(votes_vseq(old(v)@)),
            id.0,
        ),
{
    let ghost s0 = v@;
    let ghost t0 = votes_vseq(s0);
    proof {
        lemma_votes_unique(s0);
        lemma_votes_vseq_index(s0);
    }
    let i = vote_lower_bound(v, id);
    if i < v.len() && v[i].0.0 == id.0 {
        proof {
            crate::assoc::lemma_at_index(t0, i as int);
        }
        let e = v.remove(i);
        proof {
            assert(v@ == s0.remove(i as int));
            assert(votes_vseq(v@) =~= t0.remove(i as int)) by {
                lemma_votes_vseq_index(v@);
            }
            crate::assoc::lemma_remove_at(t0, i as int);
            lemma_sum_votes_remove(s0, i as int);
            assert(sorted_by_pid(v@)) by {
                assert forall|a: int, b: int| 0 <= a < b < v@.len() implies (
                #[trigger] v@[a]).0.0 < (#[trigger] v@[b]).0.0 by {
                    let sa = if a < i as int { a } else { a + 1 };
                    let sb = if b < i as int { b } else { b + 1 };
                    assert(v@[a] == s0[sa]);
                    assert(v@[b] == s0[sb]);
                    assert(s0[sa].0.0 < s0[sb].0.0);
                }
            }
            assert(assoc_map(votes_vseq(v@)) =~= assoc_map(t0).remove(id.0));
        }
        Some(e.1)
    } else {
        proof {
            assert(!has_key(t0, id.0)) by {
                if has_key(t0, id.0) {
                    let n = crate::assoc::index_of_key(t0, id.0);
                    crate::assoc::lemma_index_of_key(t0, id.0);
                    assert(s0[n].0.0 == id.0);
                    if n > i as int {
                        assert(s0[i as int].0.0 < s0[n].0.0);
                    }
                }
            }
            crate::assoc::lemma_absent_key(t0, id.0);
        }
        None
    }
}

/// Adjacent order implies the full pairwise order for project-id keys.
proof fn lemma_adjacent_pid<V>(s: Seq<(ProjectId, V)>, i: int, j: int)
    requires
        forall|n: int| 0 <= n < s.len() - 1 ==> (#[trigger] s[n]).0.0 < s[n + 1].0.0,
        0 <= i < j < s.len(),
    ensures
        s[i].0.0 < s[j].0.0,
    decreases j - i,
{
    if i + 1 < j {
        lemma_adjacent_pid(s, i, j - 1);
        assert(s[j - 1].0.0 < s[j].0.0);
    }
}

/// Adjacent order implies the full pairwise order for identity keys.
proof fn lemma_adjacent_pk<V>(s: Seq<(PublicKey, V)>, i: int, j: int)
    requires
        forall|n: int|
            0 <= n < s.len() - 1 ==> lex_lt((#[trigger] s[n]).0@, s[n + 1].0@),
        0 <= i < j < s.len(),
    ensures
        lex_lt(s[i].0@, s[j].0@),
    decreases j - i,
{
    if i + 1 < j {
        lemma_adjacent_pk(s, i, j - 1);
        assert(lex_lt(s[j - 1].0@, s[j].0@));
        lemma_lex_lt_trans(s[i].0@, s[j - 1].0@, s[j].0@);
    }
}

/// A prefix of a vote sequence never sums to more than the whole.
proof fn lemma_sum_prefix(s: Seq<(ProjectId, u64)>, n: int)
    requires
        0 <= n <= s.len(),
    ensures
        sum_votes(s.subrange(0, n)) <= sum_votes(s),
    decreases s.len() - n,
{
    if n == s.len() {
        assert(s.subrange(0, n) =~= s);
    } else {
        lemma_sum_prefix(s, n + 1);
        assert(s.subrange(0, n + 1).drop_last() =~= s.subrange(0, n));
        assert(sum_votes(s.subrange(0, n + 1)) == sum_votes(s.subrange(0, n)) + s[n].1);
    }
}

/// Decides whether a roster entry is well-formed: votes sorted strictly by
/// project id and the sums in bounds.
fn check_participant(p: &Participant) -> (r: bool)
    ensures
        r == p.wf(),
{
    let len = p.votes.len();
    let mut n: usize = 1;
    while n < len
        invariant
            1 <= n,
            n <= len || len == 0,
            len == p.votes@.len(),
            forall|m: int| 0 < m < n ==> (#[trigger] p.votes@[m - 1]).0.0 < p.votes@[m].0.0,
        decreases len - n,
    {
        if !(p.votes[n - 1].0.0 < p.votes[n].0.0) {
            proof {
                assert(!sorted_by_pid(p.votes@));
            }
            return false;
        }
        n = n + 1;
    }
    proof {
        assert(sorted_by_pid(p.votes@)) by {
            assert forall|i: int, j: int|
                0 <= i < j < p.votes@.len() implies (#[trigger] p.votes@[i]).0.0 < (
            #[trigger] p.votes@[j]).0.0 by {
                assert forall|m: int|
                    0 <= m < p.votes@.len() - 1 implies (#[trigger] p.votes@[m]).0.0
                    < p.votes@[m + 1].0.0 by {
                    assert(p.votes@[(m + 1) - 1].0.0 < p.votes@[m + 1].0.0);
                }
                lemma_adjacent_pid(p.votes@, i, j);
            }
        }
    }
    let mut acc: u64 = 0;
    let mut i: usize = 0;
    while i < len
        invariant
            i <= len,
            len == p.votes@.len(),
            sorted_by_pid(p.votes@),
            acc as int == sum_votes(p.votes@.subrange(0, i as int)),
        decreases len - i,
    {
        let v = p.votes[i].1;
        proof {
            assert(p.votes@.subrange(0, i + 1).drop_last() =~= p.votes@.subrange(0, i as int));
            assert(sum_votes(p.votes@.subrange(0, i + 1)) == acc + v);
            lemma_sum_prefix(p.votes@, i + 1);
        }
        if v > u64::MAX - acc {
            proof {
                assert(sum_votes(p.votes@) > u64::MAX);
            }
            return false;
        }
        acc = acc + v;
        i = i + 1;
    }
    proof {
        assert(p.votes@.subrange(0, len as int) =~= p.votes@);
    }
    acc <= p.used_voting_power && p.used_voting_power <= p.total_voting_power
}

impl Voting {
    /// Decides whether the ledger is well-formed; decoded values from an
    /// untrusted store are validated with this before they are operated on.
    pub fn is_well_formed(&self) -> (r: bool)
        ensures
            r == self.wf(),
    {
        if !(self.start_timestamp < self.end_timestamp) {
            return false;
        }
        let mut n: usize = 1;
        while n < self.projects.len()
            invariant
                1 <= n,
                n <= self.projects@.len() || self.projects@.len() == 0,
                forall|m: int|
                    0 < m < n ==> (#[trigger] self.projects@[m - 1]).0.0 < self.projects@[m].0.0,
            decreases self.projects@.len() - n,
        {
            if !(self.projects[n - 1].0.0 < self.projects[n].0.0) {
                proof {
                    assert(!sorted_by_pid(self.projects@));
                }
                return false;
            }
            n = n + 1;
        }
        proof {
            assert(sorted_by_pid(self.projects@)) by {
                assert forall|i: int, j: int|
                    0 <= i < j < self.projects@.len() implies (#[trigger] self.projects@[i]).0.0 < (
                #[trigger] self.projects@[j]).0.0 by {
                    assert forall|m: int|
                        0 <= m < self.projects@.len() - 1 implies (
                    #[trigger] self.projects@[m]).0.0 < self.projects@[m + 1].0.0 by {
                        assert(self.projects@[(m + 1) - 1].0.0 < self.projects@[m + 1].0.0);
                    }
                    lemma_adjacent_pid(self.projects@, i, j);
                }
            }
        }
        let mut n: usize = 1;
        while n < self.participants.len()
            invariant
                1 <= n,
                n <= self.participants@.len() || self.participants@.len() == 0,
                forall|m: int|
                    0 < m < n ==> lex_lt(
                        (#[trigger] self.participants@[m - 1]).0@,
                        self.participants@[m].0@,
                    ),
            decreases self.participants@.len() - n,
        {
            if !pk_lt(&self.participants[n - 1].0, &self.participants[n].0) {
                proof {
                    assert(!sorted_by_pk(self.participants@));
                }
                return false;
            }
            n = n + 1;
        }
        proof {
            assert(sorted_by_pk(self.participants@)) by {
                assert forall|i: int, j: int|
                    0 <= i < j < self.participants@.len() implies lex_lt(
                    (#[trigger] self.participants@[i]).0@,
                    (#[trigger] self.participants@[j]).0@,
                ) by {
                    assert forall|m: int|
                        0 <= m < self.participants@.len() - 1 implies lex_lt(
                        (#[trigger] self.participants@[m]).0@,
                        self.participants@[m + 1].0@,
                    ) by {
                        assert(lex_lt(
                            self.participants@[(m + 1) - 1].0@,
                            self.participants@[m + 1].0@,
                        ));
                    }
                    lemma_adjacent_pk(self.participants@, i, j);
                }
            }
        }
        let mut i: usize = 0;
        while i < self.participants.len()
            invariant
                i <= self.participants@.len(),
                forall|m: int|
                    0 <= m < i ==> (#[trigger] self.participants@[m]).1.wf(),
            decreases self.participants@.len() - i,
        {
            if !check_participant(&self.participants[i].1) {
                return false;
            }
            i = i + 1;
        }
        true
    }
}

/// The least index whose key is at least `id`, in a project catalog sorted by
/// project id.
fn project_lower_bound(v: &Vec<(ProjectId, Project)>, id: ProjectId) -> (i: usize)
    requires
        sorted_by_pid(v@),
    ensures
        i <= v@.len(),
        forall|j: int| 0 <= j < i ==> (#[trigger] v@[j]).0.0 < id.0,
        forall|j: int| i <= j < v@.len() ==> id.0 <= (#[trigger] v@[j]).0.0,
{
    let mut i: usize = 0;
    while i < v.len() && v[i].0.0 < id.0
        invariant
            i <= v@.len(),
            sorted_by_pid(v@),
            forall|j: int| 0 <= j < i ==> (#[trigger] v@[j]).0.0 < id.0,
        decreases v@.len() - i,
    {
        i = i + 1;
    }
    proof {
        assert forall|j: int| i <= j < v@.len() implies id.0 <= (#[trigger] v@[j]).0.0 by {
            if (i as int) < j {
                assert(v@[i as int].0.0 < v@[j].0.0);
            }
        }
    }
    i
}

/// If no key of the sorted catalog equals `id` at the scan position, no key
/// does.
proof fn lemma_project_absent(s: Seq<(ProjectId, Project)>, id: ProjectId, i: int)
    requires
        sorted_by_pid(s),
        0 <= i <= s.len(),
        forall|j: int| 0 <= j < i ==> (#[trigger] s[j]).0.0 < id.0,
        forall|j: int| i <= j < s.len() ==> id.0 <= (#[trigger] s[j]).0.0,
        i < s.len() ==> s[i].0.0 != id.0,
    ensures
        !has_key(projects_vseq(s), id.0),
        !assoc_map(projects_vseq(s)).contains_key(id.0),
        assoc_map(projects_vseq(s)).remove(id.0) =~= assoc_map(projects_vseq(s)),
{
    lemma_projects_vseq_index(s);
    let t = projects_vseq(s);
    assert(!has_key(t, id.0)) by {
        if has_key(t, id.0) {
            let n = crate::assoc::index_of_key(t, id.0);
            crate::assoc::lemma_index_of_key(t, id.0);
            assert(s[n].0.0 == id.0);
            if n > i {
                assert(s[i].0.0 < s[n].0.0);
            }
        }
    }
    crate::assoc::lemma_absent_key(t, id.0);
}

/// The least index whose identity is at least `k`, in a roster sorted by
/// identity.
fn participant_lower_bound(v: &Vec<(PublicKey, Participant)>, k: &PublicKey) -> (i: usize)
    requires
        sorted_by_pk(v@),
    ensures
        i <= v@.len(),
        forall|j: int| 0 <= j < i ==> lex_lt((#[trigger] v@[j]).0@, k@),
        forall|j: int| i <= j < v@.len() ==> !lex_lt((#[trigger] v@[j]).0@, k@),
{
    let mut i: usize = 0;
    while i < v.len() && pk_lt(&v[i].0, k)
        invariant
            i <= v@.len(),
            sorted_by_pk(v@),
            forall|j: int| 0 <= j < i ==> lex_lt((#[trigger] v@[j]).0@, k@),
        decreases v@.len() - i,
    {
        i = i + 1;
    }
    proof {
        assert forall|j: int| i <= j < v@.len() implies !lex_lt((#[trigger] v@[j]).0@, k@) by {
            if (i as int) < j && lex_lt(v@[j].0@, k@) {
                lemma_lex_lt_trans(v@[i as int].0@, v@[j].0@, k@);
            }
        }
    }
    i
}

/// If the identity at the scan position differs from `k`, no roster entry
/// holds `k`, and `k` orders strictly between the scanned prefix and the rest.
proof fn lemma_participant_absent(s: Seq<(PublicKey, Participant)>, k: PublicKey, i: int)
    requires
        sorted_by_pk(s),
        0 <= i <= s.len(),
        forall|j: int| 0 <= j < i ==> lex_lt((#[trigger] s[j]).0@, k@),
        forall|j: int| i <= j < s.len() ==> !lex_lt((#[trigger] s[j]).0@, k@),
        i < s.len() ==> s[i].0@ != k@,
    ensures
        forall|j: int| i <= j < s.len() ==> lex_lt(k@, (#[trigger] s[j]).0@),
        !has_key(participants_vseq(s), k@),
        !assoc_map(participants_vseq(s)).contains_key(k@),
        assoc_map(participants_vseq(s)).remove(k@) =~= assoc_map(participants_vseq(s)),
{
    assert forall|j: int| i <= j < s.len() implies lex_lt(k@, (#[trigger] s[j]).0@) by {
        if j == i {
            lemma_lex_trichotomy(s[i].0@, k@);
        } else {
            lemma_lex_trichotomy(s[i].0@, k@);
            assert(lex_lt(s[i].0@, s[j].0@));
            lemma_lex_lt_trans(k@, s[i].0@, s[j].0@);
        }
    }
    lemma_participants_vseq_index(s);
    let t = participants_vseq(s);
    assert(!has_key(t, k@)) by {
        if has_key(t, k@) {
            let n = crate::assoc::index_of_key(t, k@);
            crate::assoc::lemma_index_of_key(t, k@);
            assert(s[n].0@ == k@);
            if n < i {
                lemma_lex_lt_neq(s[n].0@, k@);
            } else {
                lemma_lex_lt_neq(k@, s[n].0@);
            }
        }
    }
    crate::assoc::lemma_absent_key(t, k@);
}

impl Voting {
    /// Creates the ledger for the voting window `[start_timestamp,
    /// end_timestamp)`, empty of projects and participants. Fails exactly
    /// when the end does not lie strictly after the start.
    pub fn new(start_timestamp: u64, end_timestamp: u64) -> (r: Result<Voting, StartNotBeforeEnd>)
        ensures
            r is Err <==> end_timestamp <= start_timestamp,
            r is Ok ==> r->Ok_0.wf() && r->Ok_0.balanced() && r->Ok_0@ == (LedgerV {
                start_timestamp,
                end_timestamp,
                projects: Map::empty(),
                participants: Map::empty(),
            }),
    {
        if end_timestamp <= start_timestamp {
            Err(StartNotBeforeEnd)
        } else {
            let v = Voting {
                participants: Vec::new(),
                projects: Vec::new(),
                start_timestamp,
                end_timestamp,
            };
            proof {
                crate::assoc::lemma_assoc_empty::<u64, ProjectV>(projects_vseq(v.projects@));
                crate::assoc::lemma_assoc_empty::<Seq<u8>, ParticipantV>(
                    participants_vseq(v.participants@),
                );
            }
            Ok(v)
        }
    }

    /// The start of the voting window.
    pub fn start_at(&self) -> (r: u64)
        ensures
            r == self@.start_timestamp,
    {
        self.start_timestamp
    }

    /// The end of the voting window.
    pub fn end_at(&self) -> (r: u64)
        ensures
            r == self@.end_timestamp,
    {
        self.end_timestamp
    }

    /// The catalog entry for `project_id`, if there is one.
    pub fn get_project(&self, project_id: ProjectId) -> (r: Option<&Project>)
        requires
            self.wf(),
        ensures
            match r {
                Some(p) => self@.projects.contains_key(project_id@) && p@
                    == self@.projects[project_id@],
                None => !self@.projects.contains_key(project_id@),
            },
    {
        let i = project_lower_bound(&self.projects, project_id);
        if i < self.projects.len() && self.projects[i].0.0 == project_id.0 {
            proof {
                lemma_projects_unique(self.projects@);
                lemma_projects_vseq_index(self.projects@);
                crate::assoc::lemma_at_index(projects_vseq(self.projects@), i as int);
            }
            Some(&self.projects[i].1)
        } else {
            proof {
                lemma_project_absent(self.projects@, project_id, i as int);
            }
            None
        }
    }

    /// The roster entry for `public_key`, if there is one.
    pub fn get_participant(&self, public_key: &PublicKey) -> (r: Option<&Participant>)
        requires
            self.wf(),
        ensures
            match r {
                Some(p) => self@.participants.contains_key(public_key@) && p@
                    == self@.participants[public_key@] && p.wf(),
                None => !self@.participants.contains_key(public_key@),
            },
    {
        let i = participant_lower_bound(&self.participants, public_key);
        if i < self.participants.len() && pk_eq(&self.participants[i].0, public_key) {
            proof {
                lemma_participants_unique(self.participants@);
                lemma_participants_vseq_index(self.participants@);
                crate::assoc::lemma_at_index(participants_vseq(self.participants@), i as int);
            }
            Some(&self.participants[i].1)
        } else {
            proof {
                lemma_participant_absent(self.participants@, *public_key, i as int);
            }
            None
        }
    }

    /// Unconditional upsert of a catalog entry; the fields are not validated.
    pub fn add_or_update_project(&mut self, project_id: ProjectId, project: Project)
        requires
            old(self).wf(),
        ensures
            final(self).wf(),
            final(self)@ == (LedgerV {
                projects: old(self)@.projects.insert(project_id@, project@),
                ..old(self)@
            }),
            old(self).balanced() ==> final(self).balanced(),
    {
        let ghost s0 = self.projects@;
        let ghost t0 = projects_vseq(s0);
        proof {
            lemma_projects_unique(s0);
            lemma_projects_vseq_index(s0);
        }
        let i = project_lower_bound(&self.projects, project_id);
        if i < self.projects.len() && self.projects[i].0.0 == project_id.0 {
            proof {
                assert(project_id == s0[i as int].0);
            }
            let e = &mut self.projects[i];
            *e = (project_id, project);
            proof {
                assert(self.projects@ == s0.update(i as int, (project_id, e.1)));
                assert(projects_vseq(self.projects@) =~= t0.update(
                    i as int,
                    (project_id.0, self.projects@[i as int].1@),
                )) by {
                    lemma_projects_vseq_index(self.projects@);
                }
                crate::assoc::lemma_update_at(t0, i as int, self.projects@[i as int].1@);
                assert(sorted_by_pid(self.projects@)) by {
                    assert forall|a: int, b: int|
                        0 <= a < b < self.projects@.len() implies (#[trigger] self.projects@[a]).0.0
                        < (#[trigger] self.projects@[b]).0.0 by {
                        assert(s0[a].0.0 < s0[b].0.0);
                    }
                }
                assert(assoc_map(projects_vseq(self.projects@)) =~= assoc_map(t0).insert(
                    project_id.0,
                    self.projects@[i as int].1@,
                ));
            }
        } else {
            proof {
                lemma_project_absent(s0, project_id, i as int);
            }
            self.projects.insert(i, (project_id, project));
            proof {
                assert(self.projects@ == s0.insert(i as int, self.projects@[i as int]));
                assert(projects_vseq(self.projects@) =~= t0.insert(
                    i as int,
                    (project_id.0, self.projects@[i as int].1@),
                )) by {
                    lemma_projects_vseq_index(self.projects@);
                }
                crate::assoc::lemma_insert_at(
                    t0,
                    i as int,
                    project_id.0,
                    self.projects@[i as int].1@,
                );
                assert(sorted_by_pid(self.projects@)) by {
                    assert forall|a: int, b: int|
                        0 <= a < b < self.projects@.len() implies (#[trigger] self.projects@[a]).0.0
                        < (#[trigger] self.projects@[b]).0.0 by {
                        if a < i as int && b > i as int {
                            assert(s0[a].0.0 < s0[b - 1].0.0);
                        } else if a == i as int && b > i as int {
                            assert(project_id.0 <= s0[i as int].0.0);
                            if (i as int) < b - 1 {
                                assert(s0[i as int].0.0 < s0[b - 1].0.0);
                            }
                        } else if a > i as int {
                            assert(s0[a - 1].0.0 < s0[b - 1].0.0);
                        }
                    }
                }
                assert(assoc_map(projects_vseq(self.projects@)) =~= assoc_map(t0).insert(
                    project_id.0,
                    self.projects@[i as int].1@,
                ));
            }
        }
    }

    /// Removes the roster entry for `public_key` if present; otherwise a
    /// no-op.
    pub fn remove_participant_if_exists(&mut self, public_key: &PublicKey)
        requires
            old(self).wf(),
        ensures
            final(self).wf(),
            final(self)@ == (LedgerV {
                participants: old(self)@.participants.remove(public_key@),
                ..old(self)@
            }),
            old(self).balanced() ==> final(self).balanced(),
    {
        let ghost s0 = self.participants@;
        let ghost t0 = participants_vseq(s0);
        proof {
            lemma_participants_unique(s0);
            lemma_participants_vseq_index(s0);
        }
        let i = participant_lower_bound(&self.participants, public_key);
        if i < self.participants.len() && pk_eq(&self.participants[i].0, public_key) {
            proof {
                crate::assoc::lemma_at_index(t0, i as int);
            }
            self.participants.remove(i);
            proof {
                assert(self.participants@ == s0.remove(i as int));
                assert(participants_vseq(self.participants@) =~= t0.remove(i as int)) by {
                    lemma_participants_vseq_index(self.participants@);
                }
                crate::assoc::lemma_remove_at(t0, i as int);
                assert(t0[i as int].0 == public_key@);
                assert(sorted_by_pk(self.participants@)) by {
                    assert forall|a: int, b: int|
                        0 <= a < b < self.participants@.len() implies lex_lt(
                        (#[trigger] self.participants@[a]).0@,
                        (#[trigger] self.participants@[b]).0@,
                    ) by {
                        let sa = if a < i as int { a } else { a + 1 };
                        let sb = if b < i as int { b } else { b + 1 };
                        assert(self.participants@[a] == s0[sa]);
                        assert(self.participants@[b] == s0[sb]);
                        assert(lex_lt(s0[sa].0@, s0[sb].0@));
                    }
                }
                assert(assoc_map(participants_vseq(self.participants@)) =~= assoc_map(t0).remove(
                    public_key@,
                ));
            }
        } else {
            proof {
                lemma_participant_absent(s0, *public_key, i as int);
            }
        }
    }

    /// Inserts the identity with the given total power, zero used power and
    /// no votes; a known identity is overwritten the same way, so any prior
    /// allocation is discarded.
    pub fn add_or_update_participant(&mut self, public_key: PublicKey, total_voting_power: u64)
        requires
            old(self).wf(),
        ensures
            final(self).wf(),
            final(self)@ == (LedgerV {
                participants: old(self)@.participants.insert(
                    public_key@,
                    (ParticipantV {
                        total_voting_power,
                        used_voting_power: 0,
                        votes: Map::empty(),
                    }),
                ),
                ..old(self)@
            }),
            old(self).balanced() ==> final(self).balanced(),
    {
        let ghost s0 = self.participants@;
        let ghost t0 = participants_vseq(s0);
        proof {
            lemma_participants_unique(s0);
            lemma_participants_vseq_index(s0);
        }
        let fresh = Participant { total_voting_power, used_voting_power: 0, votes: Vec::new() };
        proof {
            crate::assoc::lemma_assoc_empty::<u64, u64>(votes_vseq(fresh.votes@));
            assert(fresh@ =~= (ParticipantV {
                total_voting_power,
                used_voting_power: 0,
                votes: Map::empty(),
            }));
        }
        let i = participant_lower_bound(&self.participants, &public_key);
        if i < self.participants.len() && pk_eq(&self.participants[i].0, &public_key) {
            let e = &mut self.participants[i];
            *e = (public_key, fresh);
            proof {
                let s1 = self.participants@;
                assert(s1 == s0.update(i as int, s1[i as int]));
                assert(participants_vseq(s1) =~= t0.update(i as int, (public_key@, s1[i as int].1@)))
                    by {
                    lemma_participants_vseq_index(s1);
                }
                assert(t0[i as int].0 == public_key@);
                crate::assoc::lemma_update_at(t0, i as int, s1[i as int].1@);
                assert(sorted_by_pk(s1)) by {
                    assert forall|a: int, b: int| 0 <= a < b < s1.len() implies lex_lt(
                        (#[trigger] s1[a]).0@,
                        (#[trigger] s1[b]).0@,
                    ) by {
                        assert(s1[a].0@ == s0[a].0@);
                        assert(s1[b].0@ == s0[b].0@);
                        assert(lex_lt(s0[a].0@, s0[b].0@));
                    }
                }
                assert(assoc_map(participants_vseq(s1)) =~= assoc_map(t0).insert(
                    public_key@,
                    s1[i as int].1@,
                ));
            }
        } else {
            proof {
                lemma_participant_absent(s0, public_key, i as int);
            }
            self.participants.insert(i, (public_key, fresh));
            proof {
                let s1 = self.participants@;
                assert(s1 == s0.insert(i as int, s1[i as int]));
                assert(participants_vseq(s1) =~= t0.insert(i as int, (public_key@, s1[i as int].1@)))
                    by {
                    lemma_participants_vseq_index(s1);
                }
                crate::assoc::lemma_insert_at(t0, i as int, public_key@, s1[i as int].1@);
                assert(sorted_by_pk(s1)) by {
                    assert forall|a: int, b: int| 0 <= a < b < s1.len() implies lex_lt(
                        (#[trigger] s1[a]).0@,
                        (#[trigger] s1[b]).0@,
                    ) by {
                        if a < i as int && b > i as int {
                            assert(lex_lt(s0[a].0@, public_key@));
                            assert(s1[b].0@ == s0[b - 1].0@);
                            if a < b - 1 {
                                assert(lex_lt(s0[a].0@, s0[b - 1].0@));
                            } else {
                                assert(lex_lt(public_key@, s0[b - 1].0@));
                                lemma_lex_lt_trans(s0[a].0@, public_key@, s0[b - 1].0@);
                            }
                        } else if a == i as int {
                            assert(lex_lt(public_key@, s0[b - 1].0@));
                        } else if a > i as int {
                            assert(lex_lt(s0[a - 1].0@, s0[b - 1].0@));
                        }
                    }
                }
                assert(assoc_map(participants_vseq(s1)) =~= assoc_map(t0).insert(
                    public_key@,
                    s1[i as int].1@,
                ));
            }
        }
    }

    /// Casts a vote: validates the window, the voter, the power and the
    /// project in that order, and on success adds the full amount to the used
    /// power while overwriting the stored allocation for the project. A
    /// failed cast leaves the ledger untouched.
    pub fn cast_vote(
        &mut self,
        public_key: PublicKey,
        project_id: ProjectId,
        vote: u64,
        vote_at: u64,
    ) -> (r: Result<(), VotingError>)
        requires
            old(self).wf(),
        ensures
            final(self).wf(),
            r == cast_vote_result(old(self)@, public_key@, project_id@, vote, vote_at),
            r is Ok ==> final(self)@ == cast_vote_state(old(self)@, public_key@, project_id@, vote),
            r is Err ==> *final(self) == *old(self),
            old(self).balanced() && r is Ok && !old(self)@.participants[public_key@].votes.contains_key(
                project_id@,
            ) ==> final(self).balanced(),
    {
        if vote_at < self.start_timestamp {
            return Err(VotingError::VotingNotStarted);
        }
        if vote_at >= self.end_timestamp {
            return Err(VotingError::VotingEnded);
        }
        let ghost s0 = self.participants@;
        let ghost t0 = participants_vseq(s0);
        proof {
            lemma_participants_unique(s0);
            lemma_participants_vseq_index(s0);
        }
        let i = participant_lower_bound(&self.participants, &public_key);
        if !(i < self.participants.len() && pk_eq(&self.participants[i].0, &public_key)) {
            proof {
                lemma_participant_absent(s0, public_key, i as int);
            }
            return Err(VotingError::NotAParticipant);
        }
        proof {
            crate::assoc::lemma_at_index(t0, i as int);
            assert(s0[i as int].1.wf());
        }
        let total = self.participants[i].1.total_voting_power;
        let used = self.participants[i].1.used_voting_power;
        if vote > total - used {
            return Err(VotingError::NotEnoughVotingPower);
        }
        proof {
            lemma_projects_unique(self.projects@);
            lemma_projects_vseq_index(self.projects@);
        }
        let j = project_lower_bound(&self.projects, project_id);
        if !(j < self.projects.len() && self.projects[j].0.0 == project_id.0) {
            proof {
                lemma_project_absent(self.projects@, project_id, j as int);
            }
            return Err(VotingError::ProjectDoesNotExists);
        }
        proof {
            crate::assoc::lemma_at_index(projects_vseq(self.projects@), j as int);
        }
        let ghost old_elem = s0[i as int];
        let ghost old_votes_map = assoc_map(votes_vseq(old_elem.1.votes@));
        let e = &mut self.participants[i];
        upsert_vote(&mut e.1.votes, project_id, vote);
        e.1.used_voting_power = used + vote;
        proof {
            let s1 = self.participants@;
            assert(s1 == s0.update(i as int, s1[i as int]));
            assert(s1[i as int].0 == old_elem.0);
            assert(s1[i as int].1@ =~= (ParticipantV {
                total_voting_power: old_elem.1@.total_voting_power,
                used_voting_power: (old_elem.1@.used_voting_power + vote) as u64,
                votes: old_elem.1@.votes.insert(project_id.0, vote),
            }));
            assert(s1[i as int].1.wf()) by {
                lemma_sum_votes_nonneg(old_elem.1.votes@);
                assert(vote_amount(old_votes_map, project_id.0) >= 0);
            }
            assert(participants_vseq(s1) =~= t0.update(i as int, (public_key@, s1[i as int].1@)))
                by {
                lemma_participants_vseq_index(s1);
            }
            assert(t0[i as int].0 == public_key@);
            crate::assoc::lemma_update_at(t0, i as int, s1[i as int].1@);
            assert(sorted_by_pk(s1)) by {
                assert forall|a: int, b: int| 0 <= a < b < s1.len() implies lex_lt(
                    (#[trigger] s1[a]).0@,
                    (#[trigger] s1[b]).0@,
                ) by {
                    assert(s1[a].0@ == s0[a].0@);
                    assert(s1[b].0@ == s0[b].0@);
                    assert(lex_lt(s0[a].0@, s0[b].0@));
                }
            }
            assert(assoc_map(participants_vseq(s1)) =~= assoc_map(t0).insert(
                public_key@,
                s1[i as int].1@,
            ));
            assert(self@.participants =~= cast_vote_state(
                old(self)@,
                public_key@,
                project_id@,
                vote,
            ).participants);
            if old(self).balanced() && !old_elem.1@.votes.contains_key(project_id@) {
                assert(old_elem.1.balanced());
                assert(vote_amount(old_votes_map, project_id.0) == 0);
                assert forall|n: int| 0 <= n < s1.len() implies (#[trigger] s1[n]).1.balanced() by {
                    if n != i as int {
                        assert(s1[n] == s0[n]);
                    }
                }
            }
        }
        Ok(())
    }

    /// Removes the project if present and, for every participant holding a
    /// vote on it, drops that vote and lowers the used power by exactly the
    /// dropped amount. A no-op when the project does not exist.
    pub fn remove_project_if_exists_and_cancel_votes(&mut self, project_id: ProjectId)
        requires
            old(self).wf(),
        ensures
            final(self).wf(),
            final(self)@.start_timestamp == old(self)@.start_timestamp,
            final(self)@.end_timestamp == old(self)@.end_timestamp,
            final(self)@.projects == old(self)@.projects.remove(project_id@),
            old(self)@.projects.contains_key(project_id@) ==> final(self)@.participants.dom()
                == old(self)@.participants.dom() && (forall|k: Seq<u8>|
                #[trigger] old(self)@.participants.contains_key(k)
                    ==> final(self)@.participants[k] == cancel_vote(
                    old(self)@.participants[k],
                    project_id@,
                )),
            !old(self)@.projects.contains_key(project_id@) ==> *final(self) == *old(self),
            old(self).balanced() ==> final(self).balanced(),
    {
        let ghost q0 = self.projects@;
        proof {
            lemma_projects_unique(q0);
            lemma_projects_vseq_index(q0);
        }
        let j = project_lower_bound(&self.projects, project_id);
        if !(j < self.projects.len() && self.projects[j].0.0 == project_id.0) {
            proof {
                lemma_project_absent(q0, project_id, j as int);
            }
            return ;
        }
        proof {
            crate::assoc::lemma_at_index(projects_vseq(q0), j as int);
        }
        self.projects.remove(j);
        proof {
            assert(projects_vseq(self.projects@) =~= projects_vseq(q0).remove(j as int)) by {
                lemma_projects_vseq_index(self.projects@);
                lemma_projects_vseq_index(q0);
            }
            crate::assoc::lemma_remove_at(projects_vseq(q0), j as int);
            assert(sorted_by_pid(self.projects@)) by {
                assert forall|a: int, b: int|
                    0 <= a < b < self.projects@.len() implies (#[trigger] self.projects@[a]).0.0
                    < (#[trigger] self.projects@[b]).0.0 by {
                    let sa = if a < j as int { a } else { a + 1 };
                    let sb = if b < j as int { b } else { b + 1 };
                    assert(self.projects@[a] == q0[sa]);
                    assert(self.projects@[b] == q0[sb]);
                    assert(q0[sa].0.0 < q0[sb].0.0);
                }
            }
            assert(assoc_map(projects_vseq(self.projects@)) =~= assoc_map(projects_vseq(q0)).remove(
                project_id@,
            ));
        }
        let ghost qf = self.projects@;
        let ghost s0 = self.participants@;
        let mut idx: usize = 0;
        while idx < self.participants.len()
            invariant
                self.projects@ == qf,
                sorted_by_pid(qf),
                assoc_map(projects_vseq(qf)) == old(self)@.projects.remove(project_id@),
                self.start_timestamp == old(self).start_timestamp,
                self.end_timestamp == old(self).end_timestamp,
                old(self).start_timestamp < old(self).end_timestamp,
                s0 == old(self).participants@,
                sorted_by_pk(s0),
                forall|n: int| 0 <= n < s0.len() ==> (#[trigger] s0[n]).1.wf(),
                self.participants@.len() == s0.len(),
                idx <= s0.len(),
                forall|n: int|
                    idx <= n < s0.len() ==> #[trigger] self.participants@[n] == s0[n],
                forall|n: int|
                    0 <= n < idx ==> (#[trigger] self.participants@[n]).0 == s0[n].0
                        && self.participants@[n].1@ == cancel_vote(s0[n].1@, project_id.0)
                        && self.participants@[n].1.wf() && (s0[n].1.balanced()
                        ==> self.participants@[n].1.balanced()),
            decreases s0.len() - idx,
        {
            let ghost sprev = self.participants@;
            let ghost elem0 = s0[idx as int];
            let used0 = self.participants[idx].1.used_voting_power;
            proof {
                assert(elem0.1.wf());
                lemma_votes_unique(elem0.1.votes@);
                lemma_votes_vseq_index(elem0.1.votes@);
            }
            let ghost vt0 = votes_vseq(elem0.1.votes@);
            let e = &mut self.participants[idx];
            let removed = remove_vote(&mut e.1.votes, project_id);
            match removed {
                Some(amount) => {
                    proof {
                        let n = crate::assoc::index_of_key(vt0, project_id.0);
                        crate::assoc::lemma_index_of_key(vt0, project_id.0);
                        crate::assoc::lemma_at_index(vt0, n);
                        lemma_vote_le_sum(elem0.1.votes@, n);
                        assert(amount <= sum_votes(elem0.1.votes@));
                    }
                    e.1.used_voting_power = e.1.used_voting_power - amount;
                }
                None => {
                    proof {
                        assert(vote_amount(assoc_map(vt0), project_id.0) == 0);
                    }
                }
            }
            proof {
                let s1 = self.participants@;
                assert(s1 == sprev.update(idx as int, s1[idx as int]));
                assert(s1[idx as int].0 == elem0.0);
                assert(s1[idx as int].1@ =~= cancel_vote(elem0.1@, project_id.0));
                assert(s1[idx as int].1.wf());
                if elem0.1.balanced() {
                    assert(s1[idx as int].1.balanced());
                }
                assert forall|n: int| idx + 1 <= n < s0.len() implies #[trigger] s1[n] == s0[n] by {
                    assert(s1[n] == sprev[n]);
                }
            }
            idx = idx + 1;
        }
        proof {
            let s1 = self.participants@;
            let t0 = participants_vseq(s0);
            let tf = participants_vseq(s1);
            lemma_participants_unique(s0);
            lemma_participants_vseq_index(s0);
            lemma_participants_vseq_index(s1);
            crate::assoc::lemma_same_keys(t0, tf);
            assert(sorted_by_pk(s1)) by {
                assert forall|a: int, b: int| 0 <= a < b < s1.len() implies lex_lt(
                    (#[trigger] s1[a]).0@,
                    (#[trigger] s1[b]).0@,
                ) by {
                    assert(s1[a].0 == s0[a].0);
                    assert(s1[b].0 == s0[b].0);
                    assert(lex_lt(s0[a].0@, s0[b].0@));
                }
            }
            assert(assoc_map(tf).dom() =~= assoc_map(t0).dom());
            assert forall|k: Seq<u8>| #[trigger] assoc_map(t0).contains_key(k) implies assoc_map(
                tf,
            )[k] == cancel_vote(assoc_map(t0)[k], project_id@) by {
                let n = crate::assoc::index_of_key(t0, k);
                crate::assoc::lemma_index_of_key(t0, k);
                crate::assoc::lemma_at_index(t0, n);
                assert(assoc_map(tf)[t0[n].0] == tf[n].1);
                assert(tf[n].1 == s1[n].1@);
            }
        }
    }
}

} // verus!
