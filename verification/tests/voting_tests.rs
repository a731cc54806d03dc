//! Tests of the ledger's operations and of its codec.

use voting_ledger::Participant;
use voting_ledger::Project;
use voting_ledger::ProjectId;
use voting_ledger::PublicKey;
use voting_ledger::Voting;
use voting_ledger::VotingError;

fn ali() -> PublicKey {
    PublicKey::ed25519_from([1u8; 32])
}

fn bob() -> PublicKey {
    PublicKey::ed25519_from([2u8; 32])
}

fn jon() -> PublicKey {
    PublicKey::ed25519_from([3u8; 32])
}

fn example_project(name: &str) -> Project {
    Project {
        name: name.to_string(),
        team_name: "casperlabs".to_string(),
        video_link: "https://www.youtube.com/channel/UCjFz9Sfi4yFwocnDQTWDSqA".to_string(),
        github_link: "https://github.com/CasperLabs/CasperLabs".to_string(),
        google_drive_link: "http://drive.google.com".to_string(),
    }
}

#[test]
fn voting_test_init() {
    let start: u64 = 10;
    assert!(Voting::new(start, start).is_err());
    assert!(Voting::new(start, start - 1).is_err());
    let voting = Voting::new(start, start + 1).unwrap();
    assert_eq!(voting.start_at(), start);
    assert_eq!(voting.end_at(), start + 1);
}

#[test]
fn test_add_or_update_participant() {
    let mut voting = Voting::new(1, 2).unwrap();
    let ali_power: u64 = 10;

    voting.add_or_update_participant(ali(), ali_power);
    assert_eq!(
        voting.get_participant(&ali()).unwrap(),
        &Participant {
            total_voting_power: ali_power,
            used_voting_power: 0,
            votes: Vec::new()
        }
    );

    let updated_ali_power: u64 = 11;
    voting.add_or_update_participant(ali(), updated_ali_power);
    assert_eq!(
        voting.get_participant(&ali()).unwrap(),
        &Participant {
            total_voting_power: updated_ali_power,
            used_voting_power: 0,
            votes: Vec::new()
        }
    );
}

#[test]
fn voting_test_remove_participant() {
    let mut voting = Voting::new(1, 2).unwrap();
    let ali_power: u64 = 10;
    voting.add_or_update_participant(ali(), ali_power);
    voting.remove_participant_if_exists(&ali());
    assert!(voting.get_participant(&ali()).is_none());
}

#[test]
fn voting_test_add_and_update_project() {
    let mut voting = Voting::new(1, 2).unwrap();
    let project_id = ProjectId(1);
    let project = example_project("project");

    voting.add_or_update_project(project_id, project.clone());
    assert_eq!(voting.get_project(project_id).unwrap(), &project);

    let updated_project = example_project("project2");
    voting.add_or_update_project(project_id, updated_project.clone());
    assert_eq!(voting.get_project(project_id).unwrap(), &updated_project);
}

#[test]
fn voting_test_remove_project() {
    let mut voting = Voting::new(1, 2).unwrap();
    let project_id = ProjectId(1);
    let project = example_project("project");
    voting.add_or_update_project(project_id, project);
    voting.remove_project_if_exists_and_cancel_votes(project_id);
    assert!(voting.get_project(project_id).is_none());
}

#[test]
fn test_voting() {
    let mut voting = Voting::new(1, 2).unwrap();

    let a_project_id = ProjectId(1);
    let a_project = example_project("a_project");
    let b_project_id = ProjectId(2);
    let b_project = example_project("b_project");
    voting.add_or_update_project(a_project_id, a_project);
    voting.add_or_update_project(b_project_id, b_project);

    let ali_power: u64 = 3;
    let bob_power: u64 = 5;
    voting.add_or_update_participant(ali(), ali_power);
    voting.add_or_update_participant(bob(), bob_power);

    // Cannot vote before voting starts.
    let vote_at: u64 = 0;
    assert_eq!(
        voting.cast_vote(ali(), a_project_id, 1, vote_at).unwrap_err(),
        VotingError::VotingNotStarted
    );

    // Cannot vote after voting ends.
    let vote_at: u64 = 2;
    assert_eq!(
        voting.cast_vote(ali(), a_project_id, 1, vote_at).unwrap_err(),
        VotingError::VotingEnded
    );

    // Cannot vote more than the voting power.
    let vote_at: u64 = 1;
    assert_eq!(
        voting
            .cast_vote(ali(), b_project_id, ali_power + 1, vote_at)
            .unwrap_err(),
        VotingError::NotEnoughVotingPower
    );

    // Cannot vote on non-existing projects.
    let unknown_project_id = ProjectId(3);
    assert_eq!(
        voting
            .cast_vote(ali(), unknown_project_id, ali_power, vote_at)
            .unwrap_err(),
        VotingError::ProjectDoesNotExists
    );

    // Cannot vote as a non-participant.
    assert_eq!(
        voting
            .cast_vote(jon(), a_project_id, ali_power, vote_at)
            .unwrap_err(),
        VotingError::NotAParticipant
    );

    // Vote as Ali.
    let ali_a_project_vote: u64 = 2;
    let ali_b_project_vote: u64 = 1;
    voting
        .cast_vote(ali(), a_project_id, ali_a_project_vote, vote_at)
        .unwrap();
    voting
        .cast_vote(ali(), b_project_id, ali_b_project_vote, vote_at)
        .unwrap();
    let votes = vec![(a_project_id, ali_a_project_vote), (b_project_id, ali_b_project_vote)];
    assert_eq!(
        voting.get_participant(&ali()).unwrap(),
        &Participant {
            total_voting_power: ali_power,
            used_voting_power: ali_a_project_vote + ali_b_project_vote,
            votes
        }
    );

    // Vote as Bob.
    let bob_a_project_vote: u64 = 1;
    let bob_b_project_vote: u64 = 2;
    voting
        .cast_vote(bob(), a_project_id, bob_a_project_vote, vote_at)
        .unwrap();
    voting
        .cast_vote(bob(), b_project_id, bob_b_project_vote, vote_at)
        .unwrap();
    let votes = vec![(a_project_id, bob_a_project_vote), (b_project_id, bob_b_project_vote)];
    assert_eq!(
        voting.get_participant(&bob()).unwrap(),
        &Participant {
            total_voting_power: bob_power,
            used_voting_power: bob_a_project_vote + bob_b_project_vote,
            votes
        }
    );

    // Removing a project removes its votes.
    voting.remove_project_if_exists_and_cancel_votes(b_project_id);
    let votes = vec![(a_project_id, ali_a_project_vote)];
    assert_eq!(
        voting.get_participant(&ali()).unwrap(),
        &Participant {
            total_voting_power: ali_power,
            used_voting_power: ali_a_project_vote,
            votes
        }
    );
    let votes = vec![(a_project_id, bob_a_project_vote)];
    assert_eq!(
        voting.get_participant(&bob()).unwrap(),
        &Participant {
            total_voting_power: bob_power,
            used_voting_power: bob_a_project_vote,
            votes
        }
    );

    // Updating a participant's power removes its votes.
    let updated_ali_power: u64 = 10;
    voting.add_or_update_participant(ali(), updated_ali_power);
    assert_eq!(
        voting.get_participant(&ali()).unwrap(),
        &Participant {
            total_voting_power: updated_ali_power,
            used_voting_power: 0,
            votes: Vec::new()
        }
    );
}

#[test]
fn test_serialization() {
    let mut voting = Voting::new(1, 2).unwrap();
    let project_id = ProjectId(1);
    let project = example_project("project");
    let ali_power: u64 = 10;
    voting.add_or_update_project(project_id, project);
    voting.add_or_update_participant(ali(), ali_power);
    voting.cast_vote(ali(), project_id, ali_power, 1).unwrap();

    let serialized = voting.serialize();
    let deserialized = Voting::deserialize(serialized);
    assert_eq!(voting, deserialized);
}

#[test]
fn serialization_orders_by_key() {
    let mut voting = Voting::new(1, 9).unwrap();
    voting.add_or_update_project(ProjectId(7), example_project("late"));
    voting.add_or_update_project(ProjectId(3), example_project("early"));
    voting.add_or_update_participant(bob(), 5);
    voting.add_or_update_participant(ali(), 4);

    let serialized = voting.serialize();
    assert_eq!(serialized.0, (1, 9));
    assert_eq!(serialized.1.len(), 2);
    assert_eq!(serialized.1[0].0, 3);
    assert_eq!((serialized.1[0].1).0, "early".to_string());
    assert_eq!(serialized.1[1].0, 7);
    assert_eq!((serialized.1[1].1).0, "late".to_string());
    assert_eq!(serialized.2.len(), 2);
    assert_eq!(serialized.2[0].0, [1u8; 32]);
    assert_eq!((serialized.2[0].1).0, 4);
    assert_eq!(serialized.2[1].0, [2u8; 32]);
    assert_eq!((serialized.2[1].1).0, 5);
}

#[test]
fn repeated_vote_on_same_project_inflates_used_power() {
    let mut voting = Voting::new(1, 9).unwrap();
    let project_id = ProjectId(1);
    voting.add_or_update_project(project_id, example_project("project"));
    voting.add_or_update_participant(ali(), 10);
    voting.cast_vote(ali(), project_id, 1, 1).unwrap();
    voting.cast_vote(ali(), project_id, 2, 1).unwrap();
    // The full new amount is added to the used power while the stored vote is
    // overwritten, not summed.
    let votes = vec![(project_id, 2u64)];
    assert_eq!(
        voting.get_participant(&ali()).unwrap(),
        &Participant {
            total_voting_power: 10,
            used_voting_power: 3,
            votes
        }
    );
}

#[test]
fn scenario_window_checks() {
    let mut voting = Voting::new(1, 2).unwrap();
    let p1 = ProjectId(1);
    voting.add_or_update_project(p1, example_project("P1"));
    voting.add_or_update_participant(ali(), 3);

    assert_eq!(
        voting.cast_vote(ali(), p1, 1, 0).unwrap_err(),
        VotingError::VotingNotStarted
    );
    assert_eq!(
        voting.cast_vote(ali(), p1, 1, 2).unwrap_err(),
        VotingError::VotingEnded
    );
    assert_eq!(
        voting.cast_vote(ali(), p1, 4, 1).unwrap_err(),
        VotingError::NotEnoughVotingPower
    );
    let p2 = ProjectId(2);
    assert_eq!(
        voting.cast_vote(ali(), p2, 1, 1).unwrap_err(),
        VotingError::ProjectDoesNotExists
    );
    voting.cast_vote(ali(), p1, 2, 1).unwrap();
    let participant = voting.get_participant(&ali()).unwrap();
    assert_eq!(participant.used_voting_power, 2);
    assert_eq!(participant.votes, vec![(p1, 2u64)]);
}

#[test]
fn validator_accepts_and_rejects() {
    let mut voting = Voting::new(1, 9).unwrap();
    voting.add_or_update_participant(ali(), 4);
    voting.add_or_update_participant(bob(), 5);
    assert!(voting.is_well_formed());

    // A window that is not strictly increasing is rejected.
    let bad_window = Voting {
        start_timestamp: 2,
        end_timestamp: 2,
        projects: Vec::new(),
        participants: Vec::new(),
    };
    assert!(!bad_window.is_well_formed());

    // An unsorted catalog is rejected.
    let unsorted = Voting {
        start_timestamp: 1,
        end_timestamp: 2,
        projects: vec![
            (ProjectId(2), example_project("b")),
            (ProjectId(1), example_project("a")),
        ],
        participants: Vec::new(),
    };
    assert!(!unsorted.is_well_formed());

    // A roster entry whose used power understates its votes is rejected.
    let unbalanced = Voting {
        start_timestamp: 1,
        end_timestamp: 2,
        projects: Vec::new(),
        participants: vec![(
            ali(),
            Participant {
                total_voting_power: 5,
                used_voting_power: 1,
                votes: vec![(ProjectId(1), 3u64)],
            },
        )],
    };
    assert!(!unbalanced.is_well_formed());
}

#[test]
fn identity_round_trip_and_order() {
    let raw: [u8; 32] = [9u8; 32];
    let key = PublicKey::ed25519_from(raw);
    assert_eq!(key.value(), raw);
    assert_eq!(key, PublicKey::ed25519_from([9u8; 32]));
    assert_ne!(key, ali());
}
