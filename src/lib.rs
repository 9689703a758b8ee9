//! A score ledger: paid score submissions, a ranked leaderboard and aggregate
//! statistics, with a submission fee that depends on the network the ledger
//! was deployed to.

pub mod fee;
pub mod ledger;
pub mod submission;

pub use fee::{required_fee, REDUCED_FEE, STANDARD_FEE, TEST_NETWORK_ID};
pub use ledger::{Ledger, MAX_NAME_CHARS};
pub use submission::{score_from_words, Submission, SubmissionError, SubmissionReceipt};
