//! The typed requests that the surrounding dispatcher decodes from an
//! operation name and positional arguments, and the single decision step that
//! applies one request to the persisted ledger. The dispatcher supplies the
//! caller identity and the current time, checks administrator authority
//! before every mutating request but vote casting, and persists the returned
//! ledger only on success.

use crate::error::VotingError;
use crate::identity::PublicKey;
use crate::voting::cancel_all;
use crate::voting::cast_vote_result;
use crate::voting::cast_vote_state;
use crate::voting::LedgerV;
use crate::voting::ParticipantV;
use crate::voting::Project;
use crate::voting::ProjectId;
use crate::voting::ProjectV;
use crate::voting::Voting;
use vstd::prelude::*;

verus! {

/// One decoded request against the ledger.
pub enum Input {
    /// Create the ledger with the given window.
    Deploy(u64, u64),
    /// Insert or reset a roster entry with the given total power.
    AddOrUpdateParticipant(PublicKey, u64),
    /// Drop a roster entry if present.
    RemoveParticipant(PublicKey),
    /// Insert or overwrite a catalog entry.
    AddOrUpdateProject(ProjectId, Project),
    /// Drop a catalog entry and cancel its votes.
    RemoveProject(ProjectId),
    /// Allocate voting power to a project, as the caller, at the current
    /// time.
    CastVote(ProjectId, u64),
}

/// Rejection of a whole request by the contract step.
#[derive(Clone, Copy, Debug, PartialEq, Eq, Structural)]
pub enum DispatchError {
    /// Before deployment, only a deploy request is valid.
    UnknownInitCommand,
    /// After deployment, a second deploy request is invalid.
    UnknownContractCommand,
    /// Deployment with an end not strictly after its start.
    StartNotBeforeEnd,
    /// A vote cast that the ledger rejected.
    Voting(VotingError),
}

/// A planned code installation: which entry point to store, the name under
/// which to register the stored contract's key, and the voting window for one
/// initialization call, if the installed code is to be initialized. The
/// surrounding deployer carries the plan out against the host.
pub struct DeployRequest {
    pub fn_name: String,
    pub key_name: String,
    pub init_window: Option<(u64, u64)>,
}

/// Plans installing contract code with no initialization call: the entry
/// point `fn_name` is stored and its key is registered under `key_name`.
pub fn deploy_code(fn_name: &str, key_name: &str) -> (r: DeployRequest)
    ensures
        r.fn_name@ == fn_name@,
        r.key_name@ == key_name@,
        r.init_window is None,
{
    DeployRequest {
        fn_name: fn_name.to_owned(),
        key_name: key_name.to_owned(),
        init_window: None,
    }
}

/// Plans installing contract code followed by one initialization call that
/// deploys the ledger with the given voting window.
pub fn deploy_code_and_init(fn_name: &str, key_name: &str, start_at: u64, end_at: u64) -> (r:
    DeployRequest)
    ensures
        r.fn_name@ == fn_name@,
        r.key_name@ == key_name@,
        r.init_window == Some((start_at, end_at)),
{
    DeployRequest {
        fn_name: fn_name.to_owned(),
        key_name: key_name.to_owned(),
        init_window: Some((start_at, end_at)),
    }
}

/// Builds the catalog entry of an add-or-update-project request from its five
/// decoded text arguments, in their positional order.
pub fn read_project(
    name: String,
    team_name: String,
    video_link: String,
    github_link: String,
    google_drive_link: String,
) -> (p: Project)
    ensures
        p@ == (ProjectV {
            name: name@,
            team_name: team_name@,
            video_link: video_link@,
            github_link: github_link@,
            google_drive_link: google_drive_link@,
        }),
{
    Project { name, team_name, video_link, github_link, google_drive_link }
}

/// One step of the contract: applies a request to the persisted state. An
/// undeployed ledger (`None`) accepts only deployment; a deployed one accepts
/// everything else. On failure the caller persists nothing, so the stored
/// state stays as it was.
pub fn voting_contract(state: Option<Voting>, input: Input, caller: PublicKey, now: u64) -> (r:
    Result<Voting, DispatchError>)
    requires
        state matches Some(v) ==> v.wf(),
    ensures
        r matches Ok(v) ==> v.wf(),
        state is None ==> (match input {
            Input::Deploy(s, e) => {
                if e <= s {
                    r == Err::<Voting, DispatchError>(DispatchError::StartNotBeforeEnd)
                } else {
                    r matches Ok(v) && v@ == (LedgerV {
                        start_timestamp: s,
                        end_timestamp: e,
                        projects: Map::empty(),
                        participants: Map::empty(),
                    })
                }
            },
            _ => r == Err::<Voting, DispatchError>(DispatchError::UnknownInitCommand),
        }),
        state matches Some(v0) ==> (match input {
            Input::Deploy(s, e) => r == Err::<Voting, DispatchError>(
                DispatchError::UnknownContractCommand,
            ),
            Input::AddOrUpdateParticipant(pk, power) => r matches Ok(v) && v@ == (LedgerV {
                participants: v0@.participants.insert(
                    pk@,
                    (ParticipantV { total_voting_power: power, used_voting_power: 0, votes: Map::empty() }),
                ),
                ..v0@
            }),
            Input::RemoveParticipant(pk) => r matches Ok(v) && v@ == (LedgerV {
                participants: v0@.participants.remove(pk@),
                ..v0@
            }),
            Input::AddOrUpdateProject(id, project) => r matches Ok(v) && v@ == (LedgerV {
                projects: v0@.projects.insert(id@, project@),
                ..v0@
            }),
            Input::RemoveProject(id) => r matches Ok(v) && v@ == cancel_all(v0@, id@),
            Input::CastVote(id, vote) => {
                if cast_vote_result(v0@, caller@, id@, vote, now) is Ok {
                    r matches Ok(v) && v@ == cast_vote_state(v0@, caller@, id@, vote)
                } else {
                    r == Err::<Voting, DispatchError>(
                        DispatchError::Voting(
                            cast_vote_result(v0@, caller@, id@, vote, now)->Err_0,
                        ),
                    )
                }
            },
        }),
{
    match state {
        None => match input {
            Input::Deploy(start_at, end_at) => match Voting::new(start_at, end_at) {
                Ok(voting) => Ok(voting),
                Err(_) => Err(DispatchError::StartNotBeforeEnd),
            },
            _ => Err(DispatchError::UnknownInitCommand),
        },
        Some(mut voting) => match input {
            Input::Deploy(_, _) => Err(DispatchError::UnknownContractCommand),
            Input::AddOrUpdateParticipant(public_key, power) => {
                voting.add_or_update_participant(public_key, power);
                Ok(voting)
            },
            Input::RemoveParticipant(public_key) => {
                voting.remove_participant_if_exists(&public_key);
                Ok(voting)
            },
            Input::AddOrUpdateProject(project_id, project) => {
                voting.add_or_update_project(project_id, project);
                Ok(voting)
            },
            Input::RemoveProject(project_id) => {
                let ghost v0 = voting@;
                voting.remove_project_if_exists_and_cancel_votes(project_id);
                proof {
                    if v0.projects.contains_key(project_id@) {
                        assert(voting@.participants =~= cancel_all(v0, project_id@).participants);
                    }
                    assert(voting@ =~= cancel_all(v0, project_id@));
                }
                Ok(voting)
            },
            Input::CastVote(project_id, vote) => match voting.cast_vote(
                caller,
                project_id,
                vote,
                now,
            ) {
                Ok(_) => Ok(voting),
                Err(e) => Err(DispatchError::Voting(e)),
            },
        },
    }
}

} // verus!
