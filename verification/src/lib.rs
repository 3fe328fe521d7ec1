//! Assigns applicants to projects with a limited number of seats by deferred
//! acceptance: each applicant asks for the projects of its list in order, a
//! project with room admits whoever asks, and a full project gives the seat
//! of its weakest occupant to an applicant that a comparator calls strictly
//! stronger. Ties never take a seat, so that among equals the order of
//! asking decides; `run_lottery` draws that order at random.
//!
//! `run_assignments` and `run_lottery` are the entry points. What they
//! promise is stated in `outcome` and `steps`; what follows from it is proved
//! in `laws`.

pub mod admission;
pub mod engine;
pub mod fairness;
pub mod finish;
pub mod laws;
pub mod lottery;
pub mod matching;
pub mod model;
pub mod outcome;
pub mod progress;
pub mod ranking;
pub mod seats;
pub mod setup;
pub mod steps;

pub use crate::admission::{admission, Admission};
pub use crate::engine::run_assignments;
pub use crate::lottery::run_lottery;
pub use crate::model::{
    ApplicantId, ApplicantInfo, Claimant, LotteryConfiguration, LotteryResult, ProjectId,
    ProjectInfo,
};
pub use crate::setup::check_configuration;
