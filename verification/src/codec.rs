//! The codec: a canonical, order-stable encoding of the ledger into
//! primitive-only structures (key-ordered pair sequences and fixed-width
//! integers and strings), suitable for opaque persistent storage, and its
//! inverse. Decoding an encoding restores the ledger field for field.

use crate::assoc::assoc_map;
use crate::identity::lex_lt;
use crate::identity::PublicKey;
use crate::voting::participants_vseq;
use crate::voting::projects_vseq;
use crate::voting::sorted_by_pid;
use crate::voting::sorted_by_pk;
use crate::voting::sum_votes;
use crate::voting::votes_vseq;
use crate::voting::LedgerV;
use crate::voting::Participant;
use crate::voting::ParticipantV;
use crate::voting::Project;
use crate::voting::ProjectId;
use crate::voting::ProjectV;
use crate::voting::Voting;
use vstd::prelude::*;

verus! {

broadcast use crate::identity::lemma_pk_view_len;

/// A project catalog flattened to primitives: each id with the five text
/// fields in the fixed order name, team name, video link, github link, drive
/// link.
pub type ProjectsSerialized = Vec<(u64, (String, String, String, String, String))>;

/// A roster flattened to primitives: each 32-byte identity with total power,
/// used power, and the votes as id-amount pairs.
pub type ParticipantsSerialized = Vec<([u8; 32], (u64, u64, Vec<(u64, u64)>))>;

/// A whole ledger flattened to primitives: the window pair, the projects and
/// the participants.
pub type VotingSerialized = ((u64, u64), ProjectsSerialized, ParticipantsSerialized);

/// The project a serialized five-tuple stands for.
pub open spec fn project_of_fields(t: (String, String, String, String, String)) -> ProjectV {
    ProjectV {
        name: t.0@,
        team_name: t.1@,
        video_link: t.2@,
        github_link: t.3@,
        google_drive_link: t.4@,
    }
}

/// The serialized project entries with their values abstracted.
pub open spec fn proj_ser_vseq(s: Seq<(u64, (String, String, String, String, String))>) -> Seq<
    (u64, ProjectV),
> {
    s.map_values(|e: (u64, (String, String, String, String, String))| (e.0, project_of_fields(e.1)))
}

/// The roster entry a serialized triple stands for.
pub open spec fn participant_of_fields(t: (u64, u64, Vec<(u64, u64)>)) -> ParticipantV {
    ParticipantV {
        total_voting_power: t.0,
        used_voting_power: t.1,
        votes: assoc_map(t.2@),
    }
}

/// The serialized roster entries with their keys and values abstracted.
pub open spec fn part_ser_vseq(s: Seq<([u8; 32], (u64, u64, Vec<(u64, u64)>))>) -> Seq<
    (Seq<u8>, ParticipantV),
> {
    s.map_values(
        |e: ([u8; 32], (u64, u64, Vec<(u64, u64)>))| (e.0@, participant_of_fields(e.1)),
    )
}

/// The ledger a serialized value decodes to.
pub open spec fn decoded_view(v: VotingSerialized) -> LedgerV {
    LedgerV {
        start_timestamp: v.0.0,
        end_timestamp: v.0.1,
        projects: assoc_map(proj_ser_vseq(v.1@)),
        participants: assoc_map(part_ser_vseq(v.2@)),
    }
}

/// Entries sorted strictly ascending by a plain integer key.
pub open spec fn sorted_u64_keys<V>(s: Seq<(u64, V)>) -> bool {
    forall|i: int, j: int| 0 <= i < j < s.len() ==> (#[trigger] s[i]).0 < (#[trigger] s[j]).0
}

/// Entries sorted strictly ascending by a 32-byte key.
pub open spec fn sorted_key_bytes<V>(s: Seq<([u8; 32], V)>) -> bool {
    forall|i: int, j: int|
        0 <= i < j < s.len() ==> lex_lt((#[trigger] s[i]).0@, (#[trigger] s[j]).0@)
}

/// The sum of the amounts in a serialized vote sequence.
pub open spec fn sum_amounts(s: Seq<(u64, u64)>) -> int
    decreases s.len(),
{
    if s.len() == 0 {
        0
    } else {
        sum_amounts(s.drop_last()) + s.last().1
    }
}

/// A serialized roster entry that a well-formed ledger could have produced.
pub open spec fn wf_participant_fields(t: (u64, u64, Vec<(u64, u64)>)) -> bool {
    &&& sorted_u64_keys(t.2@)
    &&& sum_amounts(t.2@) <= t.1 as int
    &&& t.1 <= t.0
}

/// A serialized value that a well-formed ledger could have produced: the
/// window is non-empty, every level is sorted by its key, and every roster
/// entry keeps its sums in bounds.
pub open spec fn wf_serialized(v: VotingSerialized) -> bool {
    &&& v.0.0 < v.0.1
    &&& sorted_u64_keys(v.1@)
    &&& sorted_key_bytes(v.2@)
    &&& forall|i: int| 0 <= i < v.2@.len() ==> wf_participant_fields((#[trigger] v.2@[i]).1)
}

/// `s` is the canonical encoding of the ledger `x`.
pub open spec fn encodes(s: VotingSerialized, x: Voting) -> bool {
    &&& wf_serialized(s)
    &&& decoded_view(s) == x@
}

/// Law: decoding an encoding restores the ledger, field for field — the
/// window, the full project catalog, and the full roster with its vote maps.
pub proof fn lemma_round_trip(x: Voting, s: VotingSerialized, y: Voting)
    requires
        x.wf(),
        encodes(s, x),
        y@ == decoded_view(s),
    ensures
        y@ == x@,
{
}

/// A sequence strictly sorted by integer key is determined by the map it
/// represents.
proof fn lemma_canonical_u64<V>(s1: Seq<(u64, V)>, s2: Seq<(u64, V)>)
    requires
        sorted_u64_keys(s1),
        sorted_u64_keys(s2),
        assoc_map(s1) == assoc_map(s2),
    ensures
        s1 =~= s2,
    decreases s1.len(),
{
    assert forall|i: int, j: int| 0 <= i < j < s1.len() implies (#[trigger] s1[i]).0
        != (#[trigger] s1[j]).0 by {
        assert(s1[i].0 < s1[j].0);
    }
    assert forall|i: int, j: int| 0 <= i < j < s2.len() implies (#[trigger] s2[i]).0
        != (#[trigger] s2[j]).0 by {
        assert(s2[i].0 < s2[j].0);
    }
    if s1.len() == 0 {
        if s2.len() > 0 {
            crate::assoc::lemma_at_index(s2, 0);
            crate::assoc::lemma_index_of_key(s1, s2[0].0);
        }
    } else {
        if s2.len() == 0 {
            crate::assoc::lemma_at_index(s1, 0);
            crate::assoc::lemma_index_of_key(s2, s1[0].0);
        }
        crate::assoc::lemma_at_index(s1, 0);
        crate::assoc::lemma_at_index(s2, 0);
        let m = crate::assoc::index_of_key(s2, s1[0].0);
        crate::assoc::lemma_index_of_key(s2, s1[0].0);
        if m > 0 {
            assert(s2[0].0 < s2[m].0);
        }
        let n = crate::assoc::index_of_key(s1, s2[0].0);
        crate::assoc::lemma_index_of_key(s1, s2[0].0);
        if n > 0 {
            assert(s1[0].0 < s1[n].0);
        }
        assert(s1[0].0 == s2[0].0);
        assert(s1[0].1 == assoc_map(s1)[s1[0].0]);
        assert(s2[0].1 == assoc_map(s2)[s2[0].0]);
        let t1 = s1.remove(0);
        let t2 = s2.remove(0);
        crate::assoc::lemma_remove_at(s1, 0);
        crate::assoc::lemma_remove_at(s2, 0);
        assert(sorted_u64_keys(t1)) by {
            assert forall|i: int, j: int| 0 <= i < j < t1.len() implies (#[trigger] t1[i]).0 < (
            #[trigger] t1[j]).0 by {
                assert(t1[i] == s1[i + 1]);
                assert(t1[j] == s1[j + 1]);
            }
        }
        assert(sorted_u64_keys(t2)) by {
            assert forall|i: int, j: int| 0 <= i < j < t2.len() implies (#[trigger] t2[i]).0 < (
            #[trigger] t2[j]).0 by {
                assert(t2[i] == s2[i + 1]);
                assert(t2[j] == s2[j + 1]);
            }
        }
        assert(assoc_map(t1) =~= assoc_map(t2));
        lemma_canonical_u64(t1, t2);
        assert forall|i: int| 0 <= i < s1.len() implies s1[i] == s2[i] by {
            if i > 0 {
                assert(s1[i] == t1[i - 1]);
                assert(s2[i] == t2[i - 1]);
            }
        }
    }
}

/// A sequence strictly sorted by 32-byte key is determined by the map it
/// represents.
proof fn lemma_canonical_bytes<V>(s1: Seq<(Seq<u8>, V)>, s2: Seq<(Seq<u8>, V)>)
    requires
        forall|i: int| 0 <= i < s1.len() ==> (#[trigger] s1[i]).0.len() == 32,
        forall|i: int| 0 <= i < s2.len() ==> (#[trigger] s2[i]).0.len() == 32,
        forall|i: int, j: int|
            0 <= i < j < s1.len() ==> lex_lt((#[trigger] s1[i]).0, (#[trigger] s1[j]).0),
        forall|i: int, j: int|
            0 <= i < j < s2.len() ==> lex_lt((#[trigger] s2[i]).0, (#[trigger] s2[j]).0),
        assoc_map(s1) == assoc_map(s2),
    ensures
        s1 =~= s2,
    decreases s1.len(),
{
    assert forall|i: int, j: int| 0 <= i < j < s1.len() implies (#[trigger] s1[i]).0
        != (#[trigger] s1[j]).0 by {
        crate::identity::lemma_lex_lt_neq(s1[i].0, s1[j].0);
    }
    assert forall|i: int, j: int| 0 <= i < j < s2.len() implies (#[trigger] s2[i]).0
        != (#[trigger] s2[j]).0 by {
        crate::identity::lemma_lex_lt_neq(s2[i].0, s2[j].0);
    }
    if s1.len() == 0 {
        if s2.len() > 0 {
            crate::assoc::lemma_at_index(s2, 0);
            crate::assoc::lemma_index_of_key(s1, s2[0].0);
        }
    } else {
        if s2.len() == 0 {
            crate::assoc::lemma_at_index(s1, 0);
            crate::assoc::lemma_index_of_key(s2, s1[0].0);
        }
        crate::assoc::lemma_at_index(s1, 0);
        crate::assoc::lemma_at_index(s2, 0);
        let m = crate::assoc::index_of_key(s2, s1[0].0);
        crate::assoc::lemma_index_of_key(s2, s1[0].0);
        let n = crate::assoc::index_of_key(s1, s2[0].0);
        crate::assoc::lemma_index_of_key(s1, s2[0].0);
        if m > 0 && n > 0 {
            assert(lex_lt(s2[0].0, s2[m].0));
            assert(lex_lt(s1[0].0, s1[n].0));
            crate::identity::lemma_lex_lt_trans(s1[0].0, s2[0].0, s1[0].0);
            crate::identity::lemma_lex_lt_irrefl(s1[0].0);
        }
        assert(s1[0].0 == s2[0].0);
        assert(s1[0].1 == assoc_map(s1)[s1[0].0]);
        assert(s2[0].1 == assoc_map(s2)[s2[0].0]);
        let t1 = s1.remove(0);
        let t2 = s2.remove(0);
        crate::assoc::lemma_remove_at(s1, 0);
        crate::assoc::lemma_remove_at(s2, 0);
        assert forall|i: int, j: int| 0 <= i < j < t1.len() implies lex_lt(
            (#[trigger] t1[i]).0,
            (#[trigger] t1[j]).0,
        ) by {
            assert(t1[i] == s1[i + 1]);
            assert(t1[j] == s1[j + 1]);
        }
        assert forall|i: int, j: int| 0 <= i < j < t2.len() implies lex_lt(
            (#[trigger] t2[i]).0,
            (#[trigger] t2[j]).0,
        ) by {
            assert(t2[i] == s2[i + 1]);
            assert(t2[j] == s2[j + 1]);
        }
        assert forall|i: int| 0 <= i < t1.len() implies (#[trigger] t1[i]).0.len() == 32 by {
            assert(t1[i] == s1[i + 1]);
        }
        assert forall|i: int| 0 <= i < t2.len() implies (#[trigger] t2[i]).0.len() == 32 by {
            assert(t2[i] == s2[i + 1]);
        }
        assert(assoc_map(t1) =~= assoc_map(t2));
        lemma_canonical_bytes(t1, t2);
        assert forall|i: int| 0 <= i < s1.len() implies s1[i] == s2[i] by {
            if i > 0 {
                assert(s1[i] == t1[i - 1]);
                assert(s2[i] == t2[i - 1]);
            }
        }
    }
}

/// Law: the encoding is canonical — two well-formed ledgers with the same
/// mathematical content have encodings that agree key for key and field for
/// field (text fields agree as character sequences), so storage-level
/// equality of encodings follows content equality.
pub proof fn lemma_encoding_deterministic(
    x: Voting,
    y: Voting,
    sx: VotingSerialized,
    sy: VotingSerialized,
)
    requires
        x.wf(),
        y.wf(),
        x@ == y@,
        encodes(sx, x),
        encodes(sy, y),
    ensures
        sx.0 == sy.0,
        proj_ser_vseq(sx.1@) == proj_ser_vseq(sy.1@),
        part_ser_vseq(sx.2@) == part_ser_vseq(sy.2@),
        forall|i: int| 0 <= i < sx.2@.len() ==> (#[trigger] sx.2@[i]).1.2@ == sy.2@[i].1.2@,
{
    let p1 = proj_ser_vseq(sx.1@);
    let p2 = proj_ser_vseq(sy.1@);
    assert(sorted_u64_keys(p1)) by {
        assert forall|i: int, j: int| 0 <= i < j < p1.len() implies (#[trigger] p1[i]).0 < (
        #[trigger] p1[j]).0 by {
            assert(sx.1@[i].0 < sx.1@[j].0);
        }
    }
    assert(sorted_u64_keys(p2)) by {
        assert forall|i: int, j: int| 0 <= i < j < p2.len() implies (#[trigger] p2[i]).0 < (
        #[trigger] p2[j]).0 by {
            assert(sy.1@[i].0 < sy.1@[j].0);
        }
    }
    lemma_canonical_u64(p1, p2);
    let q1 = part_ser_vseq(sx.2@);
    let q2 = part_ser_vseq(sy.2@);
    assert forall|i: int, j: int| 0 <= i < j < q1.len() implies lex_lt(
        (#[trigger] q1[i]).0,
        (#[trigger] q1[j]).0,
    ) by {
        assert(lex_lt(sx.2@[i].0@, sx.2@[j].0@));
    }
    assert forall|i: int, j: int| 0 <= i < j < q2.len() implies lex_lt(
        (#[trigger] q2[i]).0,
        (#[trigger] q2[j]).0,
    ) by {
        assert(lex_lt(sy.2@[i].0@, sy.2@[j].0@));
    }
    assert forall|i: int| 0 <= i < q1.len() implies (#[trigger] q1[i]).0.len() == 32 by {
        assert(q1[i].0 == sx.2@[i].0@);
    }
    assert forall|i: int| 0 <= i < q2.len() implies (#[trigger] q2[i]).0.len() == 32 by {
        assert(q2[i].0 == sy.2@[i].0@);
    }
    lemma_canonical_bytes(q1, q2);
    assert forall|i: int|
        0 <= i < sx.2@.len() implies (#[trigger] sx.2@[i]).1.2@ == sy.2@[i].1.2@ by {
        assert(q1[i] == q2[i]);
        assert(participant_of_fields(sx.2@[i].1) == participant_of_fields(sy.2@[i].1));
        lemma_canonical_u64(sx.2@[i].1.2@, sy.2@[i].1.2@);
    }
}

/// Two vote sequences carrying the same amounts in the same order have the
/// same sum.
proof fn lemma_sum_pointwise(a: Seq<(ProjectId, u64)>, b: Seq<(u64, u64)>)
    requires
        b.len() == a.len(),
        forall|i: int| 0 <= i < a.len() ==> (#[trigger] b[i]).1 == a[i].1,
    ensures
        sum_amounts(b) == sum_votes(a),
    decreases a.len(),
{
    if a.len() > 0 {
        lemma_sum_pointwise(a.drop_last(), b.drop_last());
    }
}

impl Voting {
    /// Encodes the ledger canonically: the window pair, then the two catalogs
    /// flattened to primitives in strictly ascending key order.
    pub fn serialize(&self) -> (r: VotingSerialized)
        requires
            self.wf(),
        ensures
            encodes(r, *self),
    {
        (
            (self.start_timestamp, self.end_timestamp),
            self.serialize_projects(),
            self.serialize_participants(),
        )
    }

    fn serialize_projects(&self) -> (output: ProjectsSerialized)
        requires
            self.wf(),
        ensures
            sorted_u64_keys(output@),
            proj_ser_vseq(output@) == projects_vseq(self.projects@),
    {
        let mut output: ProjectsSerialized = Vec::new();
        let mut i: usize = 0;
        while i < self.projects.len()
            invariant
                i <= self.projects@.len(),
                output@.len() == i,
                forall|n: int|
                    0 <= n < i ==> (#[trigger] output@[n]).0 == self.projects@[n].0.0
                        && project_of_fields(output@[n].1) == self.projects@[n].1@,
            decreases self.projects@.len() - i,
        {
            let p = &self.projects[i].1;
            output.push(
                (
                    self.projects[i].0.0,
                    (
                        p.name.clone(),
                        p.team_name.clone(),
                        p.video_link.clone(),
                        p.github_link.clone(),
                        p.google_drive_link.clone(),
                    ),
                ),
            );
            proof {
                assert(project_of_fields(output@[i as int].1) =~= self.projects@[i as int].1@);
            }
            i = i + 1;
        }
        proof {
            assert(proj_ser_vseq(output@) =~= projects_vseq(self.projects@));
            assert(sorted_u64_keys(output@)) by {
                assert forall|a: int, b: int| 0 <= a < b < output@.len() implies (
                #[trigger] output@[a]).0 < (#[trigger] output@[b]).0 by {
                    assert(self.projects@[a].0.0 < self.projects@[b].0.0);
                }
            }
        }
        output
    }

    fn serialize_participants(&self) -> (output: ParticipantsSerialized)
        requires
            self.wf(),
        ensures
            sorted_key_bytes(output@),
            forall|i: int| 0 <= i < output@.len() ==> wf_participant_fields((#[trigger] output@[i]).1),
            part_ser_vseq(output@) == participants_vseq(self.participants@),
    {
        let mut output: ParticipantsSerialized = Vec::new();
        let mut i: usize = 0;
        while i < self.participants.len()
            invariant
                self.wf(),
                i <= self.participants@.len(),
                output@.len() == i,
                forall|n: int|
                    0 <= n < i ==> (#[trigger] output@[n]).0@ == self.participants@[n].0@
                        && wf_participant_fields(output@[n].1) && participant_of_fields(
                        output@[n].1,
                    ) == self.participants@[n].1@,
            decreases self.participants@.len() - i,
        {
            let participant = &self.participants[i].1;
            proof {
                assert(self.participants@[i as int].1.wf());
            }
            let mut votes: Vec<(u64, u64)> = Vec::new();
            let mut n: usize = 0;
            while n < participant.votes.len()
                invariant
                    n <= participant.votes@.len(),
                    votes@.len() == n,
                    forall|m: int|
                        0 <= m < n ==> #[trigger] votes@[m] == (
                            participant.votes@[m].0.0,
                            participant.votes@[m].1,
                        ),
                decreases participant.votes@.len() - n,
            {
                votes.push((participant.votes[n].0.0, participant.votes[n].1));
                n = n + 1;
            }
            proof {
                assert(votes@ =~= votes_vseq(participant.votes@));
                lemma_sum_pointwise(participant.votes@, votes@);
                assert(sorted_u64_keys(votes@)) by {
                    assert forall|a: int, b: int| 0 <= a < b < votes@.len() implies (
                    #[trigger] votes@[a]).0 < (#[trigger] votes@[b]).0 by {
                        assert(participant.votes@[a].0.0 < participant.votes@[b].0.0);
                    }
                }
            }
            let key = self.participants[i].0.value();
            output.push(
                (
                    key,
                    (participant.total_voting_power, participant.used_voting_power, votes),
                ),
            );
            proof {
                assert(participant_of_fields(output@[i as int].1)
                    =~= self.participants@[i as int].1@);
            }
            i = i + 1;
        }
        proof {
            assert(part_ser_vseq(output@) =~= participants_vseq(self.participants@));
            assert(sorted_key_bytes(output@)) by {
                assert forall|a: int, b: int| 0 <= a < b < output@.len() implies lex_lt(
                    (#[trigger] output@[a]).0@,
                    (#[trigger] output@[b]).0@,
                ) by {
                    assert(lex_lt(self.participants@[a].0@, self.participants@[b].0@));
                }
            }
        }
        output
    }

    /// Decodes a serialized value back into a ledger. The decoded ledger is
    /// exactly what the value stands for; an encoding of a well-formed ledger
    /// decodes to a well-formed ledger.
    pub fn deserialize(value: VotingSerialized) -> (r: Voting)
        ensures
            r@ == decoded_view(value),
            wf_serialized(value) ==> r.wf(),
    {
        let r = Voting {
            start_timestamp: value.0.0,
            end_timestamp: value.0.1,
            projects: Voting::deserialize_projects(&value.1),
            participants: Voting::deserialize_participants(&value.2),
        };
        proof {
            if wf_serialized(value) {
                assert(participants_vseq(r.participants@).len() == part_ser_vseq(value.2@).len());
                assert forall|i: int|
                    0 <= i < r.participants@.len() implies (
                #[trigger] r.participants@[i]).1.wf() by {
                    assert(wf_participant_fields(value.2@[i].1));
                }
            }
        }
        r
    }

    fn deserialize_projects(value: &ProjectsSerialized) -> (output: Vec<(ProjectId, Project)>)
        ensures
            projects_vseq(output@) == proj_ser_vseq(value@),
            sorted_u64_keys(value@) ==> sorted_by_pid(output@),
    {
        let mut output: Vec<(ProjectId, Project)> = Vec::new();
        let mut i: usize = 0;
        while i < value.len()
            invariant
                i <= value@.len(),
                output@.len() == i,
                forall|n: int|
                    0 <= n < i ==> (#[trigger] output@[n]).0.0 == value@[n].0 && output@[n].1@
                        == project_of_fields(value@[n].1),
            decreases value@.len() - i,
        {
            let fields = &value[i].1;
            output.push(
                (
                    ProjectId(value[i].0),
                    Project {
                        name: fields.0.clone(),
                        team_name: fields.1.clone(),
                        video_link: fields.2.clone(),
                        github_link: fields.3.clone(),
                        google_drive_link: fields.4.clone(),
                    },
                ),
            );
            proof {
                assert(output@[i as int].1@ =~= project_of_fields(value@[i as int].1));
            }
            i = i + 1;
        }
        proof {
            assert(projects_vseq(output@) =~= proj_ser_vseq(value@));
            if sorted_u64_keys(value@) {
                assert forall|a: int, b: int| 0 <= a < b < output@.len() implies (
                #[trigger] output@[a]).0.0 < (#[trigger] output@[b]).0.0 by {
                    assert(value@[a].0 < value@[b].0);
                }
            }
        }
        output
    }

    fn deserialize_participants(value: &ParticipantsSerialized) -> (output: Vec<
        (PublicKey, Participant),
    >)
        ensures
            participants_vseq(output@) == part_ser_vseq(value@),
            sorted_key_bytes(value@) ==> sorted_by_pk(output@),
            forall|n: int|
                0 <= n < value@.len() && wf_participant_fields((#[trigger] value@[n]).1)
                    ==> output@[n].1.wf(),
    {
        let mut output: Vec<(PublicKey, Participant)> = Vec::new();
        let mut i: usize = 0;
        while i < value.len()
            invariant
                i <= value@.len(),
                output@.len() == i,
                forall|n: int|
                    0 <= n < i ==> (#[trigger] output@[n]).0@ == value@[n].0@ && output@[n].1@
                        == participant_of_fields(value@[n].1) && sum_votes(output@[n].1.votes@)
                        == sum_amounts(value@[n].1.2@) && output@[n].1.total_voting_power
                        == value@[n].1.0 && output@[n].1.used_voting_power == value@[n].1.1 && (
                    sorted_u64_keys(value@[n].1.2@) ==> sorted_by_pid(output@[n].1.votes@)),
            decreases value@.len() - i,
        {
            let entry = &value[i].1;
            let mut votes: Vec<(ProjectId, u64)> = Vec::new();
            let mut n: usize = 0;
            while n < entry.2.len()
                invariant
                    n <= entry.2@.len(),
                    votes@.len() == n,
                    forall|m: int|
                        0 <= m < n ==> (#[trigger] votes@[m]).0.0 == entry.2@[m].0 && votes@[m].1
                            == entry.2@[m].1,
                decreases entry.2@.len() - n,
            {
                votes.push((ProjectId(entry.2[n].0), entry.2[n].1));
                n = n + 1;
            }
            proof {
                assert(votes_vseq(votes@) =~= entry.2@);
                lemma_sum_pointwise(votes@, entry.2@);
                if sorted_u64_keys(entry.2@) {
                    assert forall|a: int, b: int| 0 <= a < b < votes@.len() implies (
                    #[trigger] votes@[a]).0.0 < (#[trigger] votes@[b]).0.0 by {
                        assert(entry.2@[a].0 < entry.2@[b].0);
                    }
                }
            }
            output.push(
                (
                    PublicKey::ed25519_from(value[i].0),
                    Participant {
                        total_voting_power: entry.0,
                        used_voting_power: entry.1,
                        votes,
                    },
                ),
            );
            proof {
                assert(output@[i as int].1@ =~= participant_of_fields(value@[i as int].1));
            }
            i = i + 1;
        }
        proof {
            assert(participants_vseq(output@) =~= part_ser_vseq(value@));
            if sorted_key_bytes(value@) {
                assert forall|a: int, b: int| 0 <= a < b < output@.len() implies lex_lt(
                    (#[trigger] output@[a]).0@,
                    (#[trigger] output@[b]).0@,
                ) by {
                    assert(lex_lt(value@[a].0@, value@[b].0@));
                }
            }
        }
        output
    }
}

} // verus!
