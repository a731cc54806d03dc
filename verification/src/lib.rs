//! An election-record keeper: a ledger of one fixed voting window, a catalog
//! of projects, and a roster of weighted participants with their per-project
//! vote allocations, together with a canonical codec that turns the ledger
//! into primitive-only structures for opaque persistent storage.

pub mod assoc;
pub mod codec;
pub mod dispatch;
pub mod error;
pub mod identity;
pub mod voting;

pub use dispatch::deploy_code;
pub use dispatch::deploy_code_and_init;
pub use dispatch::read_project;
pub use dispatch::DeployRequest;
pub use dispatch::voting_contract;
pub use dispatch::DispatchError;
pub use dispatch::Input;
pub use error::StartNotBeforeEnd;
pub use error::VotingError;
pub use identity::PublicKey;
pub use voting::Participant;
pub use voting::Project;
pub use voting::ProjectId;
pub use voting::Voting;
