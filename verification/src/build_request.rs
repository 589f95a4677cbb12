//! The `joy build` request: what is emitted, in which format, and which
//! requests are refused before any compilation.
use vstd::prelude::*;
use crate::reports::JoyError;
use crate::text::text;
use crate::artifacts::same_text;

verus! {

/// What a build publishes.
pub enum Emit {
    Bundle,
    Nox,
    /// A complete ART1 program for `run-artifact`.
    Artifact,
}

/// How a build reports its result.
pub enum Format {
    Human,
    JsonV1,
}

/// The entry/result profile of an emitted ART1 program.
pub enum ArtifactProfile {
    Raw,
    CompilerJob,
}

/// A build request as the command line gives it; paths are kept as text.
pub struct BuildArgs {
    pub input: String,
    pub target: Option<String>,
    pub profile: String,
    pub emit: Emit,
    pub artifact_profile: Option<ArtifactProfile>,
    pub output: Option<String>,
    pub force: bool,
    pub format: Format,
}

pub open spec fn msg_profile_needs_artifact() -> Seq<char> {
    "--artifact-profile requires --emit artifact"@
}

pub open spec fn msg_build_input() -> Seq<char> {
    "build expects .tri source or project directory"@
}

impl BuildArgs {
    /// Admits the request: an artifact profile only with `--emit artifact`,
    /// and as input a project directory or a file with the `tri` extension.
    pub fn check(&self, is_dir: bool, extension: Option<&str>) -> (r: Result<(), JoyError>)
        ensures
            (self.artifact_profile is Some && !(self.emit is Artifact)) ==> (r matches Err(JoyError::Compile(m))
                && m@ == msg_profile_needs_artifact()),
            !(self.artifact_profile is Some && !(self.emit is Artifact)) && !is_dir
                && !(extension matches Some(e) && e@ == "tri"@) ==> (r matches Err(JoyError::Compile(m))
                && m@ == msg_build_input()),
            !(self.artifact_profile is Some && !(self.emit is Artifact)) && (is_dir
                || (extension matches Some(e) && e@ == "tri"@)) ==> r is Ok,
    {
        let emits_artifact = match self.emit {
            Emit::Artifact => true,
            _ => false,
        };
        if self.artifact_profile.is_some() && !emits_artifact {
            return Err(JoyError::Compile(text("--artifact-profile requires --emit artifact")));
        }
        let is_tri = match extension {
            Some(e) => same_text(e, "tri"),
            None => false,
        };
        if !is_dir && !is_tri {
            return Err(JoyError::Compile(text("build expects .tri source or project directory")));
        }
        Ok(())
    }

    /// The suffix of the published file; an ART1 build names its own.
    pub fn suffix(&self) -> (r: Option<&'static str>)
        ensures
            match self.emit {
                Emit::Bundle => r matches Some(s) && s@ == "bundle.json"@,
                Emit::Nox => r matches Some(s) && s@ == "nox"@,
                Emit::Artifact => r is None,
            },
    {
        match self.emit {
            Emit::Bundle => Some("bundle.json"),
            Emit::Nox => Some("nox"),
            Emit::Artifact => None,
        }
    }

    /// The format named in the build report.
    pub fn format_name(&self) -> (r: &'static str)
        ensures
            r@ == match self.emit {
                Emit::Bundle => "bundle"@,
                Emit::Nox => "nox"@,
                Emit::Artifact => "artifact"@,
            },
    {
        match self.emit {
            Emit::Bundle => "bundle",
            Emit::Nox => "nox",
            Emit::Artifact => "artifact",
        }
    }

    /// The ART1 profile asked for, raw when none is given.
    pub fn profile_or_raw(&self) -> (r: ArtifactProfile)
        ensures
            match self.artifact_profile {
                Some(ArtifactProfile::CompilerJob) => r is CompilerJob,
                _ => r is Raw,
            },
    {
        match self.artifact_profile {
            Some(ArtifactProfile::CompilerJob) => ArtifactProfile::CompilerJob,
            _ => ArtifactProfile::Raw,
        }
    }
}

/// The machine-readable code of a failed build.
pub fn build_error_code(error: &JoyError) -> (r: &'static str)
    ensures
        r@ == match error {
            JoyError::Compile(_) => "compile_failed"@,
            JoyError::Io(_) => "artifact_write_failed"@,
            _ => "build_failed"@,
        },
{
    match error {
        JoyError::Compile(_) => "compile_failed",
        JoyError::Io(_) => "artifact_write_failed",
        _ => "build_failed",
    }
}

} // verus!
