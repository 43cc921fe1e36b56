pub mod age_laws;
pub mod ages;
pub mod ancestry;
pub mod calendar;
pub mod calendar_laws;
pub mod compare;
pub mod compare_laws;
pub mod config_path;
pub mod data;
pub mod error;
pub mod eval;
pub mod evidence;
pub mod evidence_laws;
pub mod git;
pub mod git_laws;
pub mod identity;
pub mod identity_laws;
pub mod laws;
pub mod movement;
pub mod range;
pub mod report;
pub mod report_laws;
pub mod snapshot_laws;
pub mod transitions;
