//! Verified core of the nox warrior: execution limits, schema names,
//! package manifests, bracket formulas and artifact claims.
pub mod text;
pub mod limits;
pub mod names;
pub mod ordering;
pub mod manifest;
pub mod noun;
pub mod formula;
pub mod program;
pub mod schema;
pub mod reader;
pub mod digest;
pub mod job;
pub mod job_result;
pub mod proof_artifact;
pub mod bindings;
pub mod warrior;
pub mod artifacts;
pub mod commands;
pub mod build_request;
pub mod run;
pub mod reports;
pub mod file_input;
pub mod job_laws;
pub mod publication;
