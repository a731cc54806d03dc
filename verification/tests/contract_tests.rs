//! Tests of the contract decision step: one deployment, then one request per
//! call, with the caller identity and current time supplied explicitly. The
//! administrator check of the surrounding dispatcher is outside the ledger,
//! so every request here arrives already authorized.

use voting_ledger::voting_contract;
use voting_ledger::DispatchError;
use voting_ledger::Input;
use voting_ledger::Participant;
use voting_ledger::Project;
use voting_ledger::ProjectId;
use voting_ledger::PublicKey;
use voting_ledger::Voting;
use voting_ledger::VotingError;

const START_AT: u64 = 1;
const END_AT: u64 = 2;
const VOTING_POWER: u64 = 10;

fn admin() -> PublicKey {
    PublicKey::ed25519_from([1u8; 32])
}

fn ali() -> PublicKey {
    PublicKey::ed25519_from([2u8; 32])
}

fn example_project(name: &str) -> Project {
    Project {
        name: name.to_string(),
        team_name: "casperlabs".to_string(),
        video_link: "https://www.youtube.com/channel/UCjFz9Sfi4yFwocnDQTWDSqA".to_string(),
        github_link: "https://github.com/CasperLabs/CasperLabs".to_string(),
        google_drive_link: "http://drive.google.com".to_string(),
    }
}

fn deployed(start_at: u64, end_at: u64) -> Voting {
    voting_contract(None, Input::Deploy(start_at, end_at), admin(), 0).unwrap()
}

fn call(voting: Voting, input: Input, sender: PublicKey, now: u64) -> Voting {
    voting_contract(Some(voting), input, sender, now).unwrap()
}

#[test]
fn tests_test_init() {
    let voting = deployed(START_AT, END_AT);
    assert_eq!(voting.start_at(), START_AT);
    assert_eq!(voting.end_at(), END_AT);
}

#[test]
#[should_panic]
fn test_init_with_start_after_end() {
    deployed(END_AT, START_AT);
}

#[test]
fn test_add_and_update_participant() {
    let mut voting = deployed(START_AT, END_AT);
    voting = call(
        voting,
        Input::AddOrUpdateParticipant(ali(), VOTING_POWER),
        admin(),
        0,
    );
    assert_eq!(
        voting.get_participant(&ali()).unwrap(),
        &Participant {
            total_voting_power: VOTING_POWER,
            used_voting_power: 0,
            votes: Vec::new()
        }
    );
    let new_voting_power: u64 = 11;
    voting = call(
        voting,
        Input::AddOrUpdateParticipant(ali(), new_voting_power),
        admin(),
        0,
    );
    assert_eq!(
        voting.get_participant(&ali()).unwrap(),
        &Participant {
            total_voting_power: new_voting_power,
            used_voting_power: 0,
            votes: Vec::new()
        }
    );
}

#[test]
fn tests_test_remove_participant() {
    let mut voting = deployed(START_AT, END_AT);
    voting = call(
        voting,
        Input::AddOrUpdateParticipant(ali(), VOTING_POWER),
        admin(),
        0,
    );
    voting = call(voting, Input::RemoveParticipant(ali()), admin(), 0);
    assert!(voting.get_participant(&ali()).is_none());
}

#[test]
fn tests_test_add_and_update_project() {
    let mut voting = deployed(START_AT, END_AT);
    let project = example_project("project");
    let project_id = ProjectId(1);
    voting = call(
        voting,
        Input::AddOrUpdateProject(project_id, project.clone()),
        admin(),
        0,
    );
    assert_eq!(voting.get_project(project_id).unwrap(), &project);
    let updated_project = example_project("project2");
    voting = call(
        voting,
        Input::AddOrUpdateProject(project_id, updated_project.clone()),
        admin(),
        0,
    );
    assert_eq!(voting.get_project(project_id).unwrap(), &updated_project);
}

#[test]
fn tests_test_remove_project() {
    let mut voting = deployed(START_AT, END_AT);
    let project = example_project("project");
    let project_id = ProjectId(1);
    voting = call(
        voting,
        Input::AddOrUpdateProject(project_id, project),
        admin(),
        0,
    );
    voting = call(voting, Input::RemoveProject(project_id), admin(), 0);
    assert!(voting.get_project(project_id).is_none());
}

#[test]
fn test_vote_casting() {
    let mut voting = deployed(START_AT, END_AT);
    let project = example_project("project");
    let project_id = ProjectId(1);
    voting = call(
        voting,
        Input::AddOrUpdateProject(project_id, project),
        admin(),
        0,
    );
    voting = call(
        voting,
        Input::AddOrUpdateParticipant(ali(), VOTING_POWER),
        admin(),
        0,
    );
    voting = call(
        voting,
        Input::CastVote(project_id, VOTING_POWER),
        ali(),
        START_AT,
    );
    let votes = vec![(project_id, VOTING_POWER)];
    assert_eq!(
        voting.get_participant(&ali()).unwrap(),
        &Participant {
            total_voting_power: VOTING_POWER,
            used_voting_power: VOTING_POWER,
            votes
        }
    );
}

#[test]
fn dispatch_rejects_wrong_phase() {
    let r = voting_contract(
        None,
        Input::AddOrUpdateParticipant(ali(), VOTING_POWER),
        admin(),
        0,
    );
    assert_eq!(r.unwrap_err(), DispatchError::UnknownInitCommand);

    let voting = deployed(START_AT, END_AT);
    let r = voting_contract(Some(voting), Input::Deploy(START_AT, END_AT), admin(), 0);
    assert_eq!(r.unwrap_err(), DispatchError::UnknownContractCommand);

    let r = voting_contract(None, Input::Deploy(END_AT, START_AT), admin(), 0);
    assert_eq!(r.unwrap_err(), DispatchError::StartNotBeforeEnd);
}

#[test]
fn dispatch_reports_voting_errors() {
    let voting = deployed(START_AT, END_AT);
    let r = voting_contract(
        Some(voting),
        Input::CastVote(ProjectId(1), 1),
        ali(),
        START_AT,
    );
    assert_eq!(
        r.unwrap_err(),
        DispatchError::Voting(VotingError::NotAParticipant)
    );
}

#[test]
fn deploy_plans_carry_their_arguments() {
    let plan = voting_ledger::deploy_code("voting_indirect", "voting_indirect");
    assert_eq!(plan.fn_name, "voting_indirect");
    assert_eq!(plan.key_name, "voting_indirect");
    assert!(plan.init_window.is_none());

    let plan = voting_ledger::deploy_code_and_init("voting_contract", "voting_contract", 1, 2);
    assert_eq!(plan.fn_name, "voting_contract");
    assert_eq!(plan.key_name, "voting_contract");
    assert_eq!(plan.init_window, Some((1, 2)));
}

#[test]
fn read_project_builds_fields_in_order() {
    let project = voting_ledger::read_project(
        "name".to_string(),
        "team".to_string(),
        "video".to_string(),
        "github".to_string(),
        "drive".to_string(),
    );
    assert_eq!(project.name, "name");
    assert_eq!(project.team_name, "team");
    assert_eq!(project.video_link, "video");
    assert_eq!(project.github_link, "github");
    assert_eq!(project.google_drive_link, "drive");
}
