//! The logic of each `med` subcommand.
pub mod commit;
pub mod think;
pub mod learn;
pub mod query;
pub mod init;
pub mod embed;
pub mod run;
