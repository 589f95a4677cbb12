//! The command-line rules: which targets the warrior answers for, how inputs
//! are assembled, and what the legacy verification mode refuses.
use vstd::prelude::*;
use crate::text::text;
use crate::artifacts::same_text;
use crate::reports::JoyError;

verus! {

/// The inputs of one run: public values, secret values, digest stream.
pub struct ProgramInput {
    pub public: Vec<u64>,
    pub secret: Vec<u64>,
    pub digests: Vec<Vec<u64>>,
}

/// Assembles the inputs of a run from the optional command-line lists.
pub fn make_input(input_values: &Option<Vec<u64>>, secret: &Option<Vec<u64>>) -> (r: ProgramInput)
    ensures
        r.public@ == match input_values { Some(v) => v@, None => Seq::empty() },
        r.secret@ == match secret { Some(v) => v@, None => Seq::empty() },
        r.digests@.len() == 0,
{
    let public = match input_values {
        Some(v) => v.clone(),
        None => Vec::new(),
    };
    let secret = match secret {
        Some(v) => v.clone(),
        None => Vec::new(),
    };
    ProgramInput { public, secret, digests: Vec::new() }
}

/// The message refusing a target that is not the warrior's.
pub open spec fn foreign_target(t: Seq<char>) -> Seq<char> {
    "joy is the nox warrior; target '"@ + t + "' is not mine (use trisha for triton)"@
}

/// The warrior answers for the nox terrain and the cyber battlefield only.
pub fn check_target(target: &str) -> (r: Result<(), JoyError>)
    ensures
        (target@ == "nox"@ || target@ == "cyber"@) ==> r is Ok,
        !(target@ == "nox"@ || target@ == "cyber"@) ==> (r matches Err(JoyError::Execute(e))
            && e@ == foreign_target(target@)),
{
    if same_text(target, "nox") || same_text(target, "cyber") {
        return Ok(());
    }
    let mut e = text("joy is the nox warrior; target '");
    e.append(target);
    e.append("' is not mine (use trisha for triton)");
    Err(JoyError::Execute(e))
}

pub open spec fn msg_legacy_opt_in() -> Seq<char> {
    "legacy trace statements do not prove execution; use a new public execution proof, or explicitly inspect with --legacy-trace-statement"@
}

pub open spec fn msg_legacy_constraints() -> Seq<char> {
    "legacy trace statements cannot verify requested input, output, secret or state constraints"@
}

/// Legacy trace statements are inspected only on explicit request, and never
/// against requested output, inputs, secrets or state.
pub fn require_legacy_mode(legacy: bool, claim: bool, inputs: bool, secret: bool, state: bool) -> (r: Result<(), String>)
    ensures
        !legacy ==> (r matches Err(e) && e@ == msg_legacy_opt_in()),
        legacy && (claim || inputs || secret || state) ==> (r matches Err(e) && e@ == msg_legacy_constraints()),
        legacy && !(claim || inputs || secret || state) ==> r is Ok,
{
    if !legacy {
        return Err(text("legacy trace statements do not prove execution; use a new public execution proof, or explicitly inspect with --legacy-trace-statement"));
    }
    if claim || inputs || secret || state {
        return Err(text("legacy trace statements cannot verify requested input, output, secret or state constraints"));
    }
    Ok(())
}

/// A public execution proof is verified without state or secret inputs.
pub fn check_public_verify_inputs(state: bool, secret: &Option<Vec<u64>>) -> (r: Result<(), String>)
    ensures
        (state || (secret matches Some(s) && s@.len() > 0)) ==> (r matches Err(e)
            && e@ == "public execution verification takes no state or secret inputs"@),
        !(state || (secret matches Some(s) && s@.len() > 0)) ==> r is Ok,
{
    let has_secret = match secret {
        Some(s) => s.len() > 0,
        None => false,
    };
    if state || has_secret {
        return Err(text("public execution verification takes no state or secret inputs"));
    }
    Ok(())
}

/// A private proof is verified without a private witness.
pub fn check_private_verify_inputs(secret: &Option<Vec<u64>>) -> (r: Result<(), String>)
    ensures
        (secret matches Some(s) && s@.len() > 0) ==> (r matches Err(e)
            && e@ == "private proof verification takes public inputs and optional expected state, no private witness"@),
        !(secret matches Some(s) && s@.len() > 0) ==> r is Ok,
{
    let has_secret = match secret {
        Some(s) => s.len() > 0,
        None => false,
    };
    if has_secret {
        return Err(text("private proof verification takes public inputs and optional expected state, no private witness"));
    }
    Ok(())
}

/// Which proof `joy prove` produces.
pub enum ProofMode {
    Public,
    Private,
    PublicState,
    PrivateState,
}

/// The proof mode: zero knowledge when asked for or when secrets are given;
/// state when a state certificate is given.
pub fn proof_mode(zk_flag: bool, secrets: usize, state: bool) -> (m: ProofMode)
    ensures
        state && (zk_flag || secrets > 0) ==> m is PrivateState,
        state && !(zk_flag || secrets > 0) ==> m is PublicState,
        !state && (zk_flag || secrets > 0) ==> m is Private,
        !state && !(zk_flag || secrets > 0) ==> m is Public,
{
    let zk = zk_flag || secrets > 0;
    if state && zk {
        ProofMode::PrivateState
    } else if state {
        ProofMode::PublicState
    } else if zk {
        ProofMode::Private
    } else {
        ProofMode::Public
    }
}

pub open spec fn spec_mode_text(m: ProofMode) -> Seq<char> {
    match m {
        ProofMode::PrivateState => "private authenticated state execution (Triton ZK)"@,
        ProofMode::PublicState => "authenticated public state execution"@,
        ProofMode::Private => "private execution (Triton ZK)"@,
        ProofMode::Public => "public execution"@,
    }
}

/// How a proof mode is reported.
pub fn mode_text(m: &ProofMode) -> (r: String)
    ensures
        r@ == spec_mode_text(*m),
{
    match m {
        ProofMode::PrivateState => text("private authenticated state execution (Triton ZK)"),
        ProofMode::PublicState => text("authenticated public state execution"),
        ProofMode::Private => text("private execution (Triton ZK)"),
        ProofMode::Public => text("public execution"),
    }
}

/// The default artifact file name: the input's stem with `.zheng`, or
/// `program.zheng` when the input has no usable stem.
pub fn artifact_file_name(stem: Option<&str>) -> (r: String)
    ensures
        r@ == match stem { Some(s) => s@, None => "program"@ } + ".zheng"@,
{
    let mut name = match stem {
        Some(s) => text(s),
        None => text("program"),
    };
    name.append(".zheng");
    name
}

/// The message of a bundle input with an unsupported extension.
pub open spec fn unsupported_input(display: Seq<char>) -> Seq<char> {
    "unsupported input '"@ + display + "' (expected .json bundle, .tri source, or .nox formula)"@
}

/// How an input file is loaded, by its extension.
pub enum InputKind {
    Bundle,
    Source,
    Formula,
}

/// The loader for an input: `.json` bundle, `.tri` source, `.nox` formula.
pub fn input_kind(extension: Option<&str>, display: &str) -> (r: Result<InputKind, JoyError>)
    ensures
        (extension matches Some(e) && e@ == "json"@) ==> (r is Ok && r->Ok_0 is Bundle),
        (extension matches Some(e) && e@ == "tri"@) ==> (r is Ok && r->Ok_0 is Source),
        (extension matches Some(e) && e@ == "nox"@) ==> (r is Ok && r->Ok_0 is Formula),
        !(extension matches Some(e) && (e@ == "json"@ || e@ == "tri"@ || e@ == "nox"@)) ==> (r matches Err(JoyError::Io(m))
            && m@ == unsupported_input(display@)),
{
    proof {
        reveal_strlit("json");
        reveal_strlit("tri");
        reveal_strlit("nox");
        assert("json"@.len() == 4 && "tri"@.len() == 3 && "nox"@.len() == 3);
        assert("tri"@[0] != "nox"@[0]);
    }
    if let Some(e) = extension {
        if same_text(e, "json") {
            return Ok(InputKind::Bundle);
        }
        if same_text(e, "tri") {
            return Ok(InputKind::Source);
        }
        if same_text(e, "nox") {
            return Ok(InputKind::Formula);
        }
    }
    let mut m = text("unsupported input '");
    m.append(display);
    m.append("' (expected .json bundle, .tri source, or .nox formula)");
    Err(JoyError::Io(m))
}

/// The compilation target: the explicit one, else the project's, else nox.
pub fn resolve_target<'a>(explicit: Option<&'a str>, project: Option<&'a str>) -> (r: &'a str)
    ensures
        r@ == match explicit {
            Some(t) => t@,
            None => match project {
                Some(p) => p@,
                None => "nox"@,
            },
        },
{
    match explicit {
        Some(t) => t,
        None => match project {
            Some(p) => p,
            None => "nox",
        },
    }
}

/// A compilation profile is `debug`, `release`, or one the project declares.
pub fn check_profile(profile: &str, declared_by_project: bool) -> (r: Result<(), JoyError>)
    ensures
        (profile@ == "debug"@ || profile@ == "release"@ || declared_by_project) ==> r is Ok,
        !(profile@ == "debug"@ || profile@ == "release"@ || declared_by_project) ==> (r matches Err(JoyError::Compile(e))
            && e@ == "unknown compilation profile '"@ + profile@ + "'"@),
{
    if same_text(profile, "debug") || same_text(profile, "release") || declared_by_project {
        return Ok(());
    }
    let mut e = text("unknown compilation profile '");
    e.append(profile);
    e.append("'");
    Err(JoyError::Compile(e))
}


/// A `joy run` request; paths are kept as text.
pub struct RunArgs {
    pub input: String,
    pub target: String,
    pub profile: String,
    pub input_values: Option<Vec<u64>>,
    pub secret: Option<Vec<u64>>,
    pub budget: u64,
    pub state: Option<String>,
}

/// The note printed when a run is given a state it does not use.
pub open spec fn state_note(s: Seq<char>) -> Seq<char> {
    "note: state '"@ + s + "' ignored (chain wiring lands after M4)"@
}

impl RunArgs {
    /// Admits the request: the target must be the warrior's.
    pub fn check(&self) -> (r: Result<(), JoyError>)
        ensures
            (self.target@ == "nox"@ || self.target@ == "cyber"@) ==> r is Ok,
            !(self.target@ == "nox"@ || self.target@ == "cyber"@) ==> (r matches Err(JoyError::Execute(e))
                && e@ == foreign_target(self.target@)),
    {
        check_target(self.target.as_str())
    }

    /// The note for a state the run ignores, if one was given.
    pub fn ignored_state(&self) -> (r: Option<String>)
        ensures
            match self.state {
                Some(s) => r matches Some(n) && n@ == state_note(s@),
                None => r is None,
            },
    {
        match &self.state {
            Some(s) => {
                let mut n = text("note: state '");
                n.append(s.as_str());
                n.append("' ignored (chain wiring lands after M4)");
                Some(n)
            },
            None => None,
        }
    }

    /// The inputs of the run.
    pub fn program_input(&self) -> (r: ProgramInput)
        ensures
            r.public@ == match self.input_values { Some(v) => v@, None => Seq::empty() },
            r.secret@ == match self.secret { Some(v) => v@, None => Seq::empty() },
            r.digests@.len() == 0,
    {
        make_input(&self.input_values, &self.secret)
    }
}

/// A `joy prove` request; paths are kept as text.
pub struct ProveArgs {
    pub input: String,
    pub target: Option<String>,
    pub profile: String,
    pub input_values: Option<Vec<u64>>,
    pub secret: Option<Vec<u64>>,
    pub zk: bool,
    pub budget: u64,
    pub output: Option<String>,
    pub state: Option<String>,
}

/// How many secret values a request carries.
pub open spec fn secret_count(secret: Option<Vec<u64>>) -> nat {
    match secret {
        Some(v) => v@.len(),
        None => 0,
    }
}

impl ProveArgs {
    /// Admits the request: the target, nox when none is named, must be the warrior's.
    pub fn check(&self) -> (r: Result<(), JoyError>)
        ensures
            ({
                let t = match self.target { Some(t) => t@, None => "nox"@ };
                &&& (t == "nox"@ || t == "cyber"@) ==> r is Ok
                &&& !(t == "nox"@ || t == "cyber"@) ==> (r matches Err(JoyError::Execute(e)) && e@ == foreign_target(t))
            }),
    {
        match &self.target {
            Some(t) => check_target(t.as_str()),
            None => check_target("nox"),
        }
    }

    /// The proof this request produces.
    pub fn mode(&self) -> (m: ProofMode)
        ensures
            ({
                let zk = self.zk || secret_count(self.secret) > 0;
                &&& self.state is Some && zk ==> m is PrivateState
                &&& self.state is Some && !zk ==> m is PublicState
                &&& self.state is None && zk ==> m is Private
                &&& self.state is None && !zk ==> m is Public
            }),
    {
        let secrets = match &self.secret {
            Some(v) => v.len(),
            None => 0,
        };
        proof_mode(self.zk, secrets, self.state.is_some())
    }

    /// The inputs of the proved run.
    pub fn program_input(&self) -> (r: ProgramInput)
        ensures
            r.public@ == match self.input_values { Some(v) => v@, None => Seq::empty() },
            r.secret@ == match self.secret { Some(v) => v@, None => Seq::empty() },
            r.digests@.len() == 0,
    {
        make_input(&self.input_values, &self.secret)
    }
}

/// A `joy verify` request; paths are kept as text.
pub struct VerifyArgs {
    pub input: String,
    pub claim: Option<Vec<u64>>,
    pub proof: Option<String>,
    pub legacy_trace_statement: bool,
    pub target: String,
    pub profile: String,
    pub input_values: Option<Vec<u64>>,
    pub secret: Option<Vec<u64>>,
    pub budget: u64,
    pub state: Option<String>,
}

pub open spec fn msg_claim_or_proof() -> Seq<char> {
    "--claim <values> (re-execution) or --proof <artifact> is required"@
}

impl VerifyArgs {
    /// Admits the request: the target must be the warrior's.
    pub fn check(&self) -> (r: Result<(), JoyError>)
        ensures
            (self.target@ == "nox"@ || self.target@ == "cyber"@) ==> r is Ok,
            !(self.target@ == "nox"@ || self.target@ == "cyber"@) ==> (r matches Err(JoyError::Execute(e))
                && e@ == foreign_target(self.target@)),
    {
        check_target(self.target.as_str())
    }

    /// The file that may hold a proof: the `--proof` one, else the input.
    pub fn proof_path(&self) -> (r: &str)
        ensures
            r@ == match self.proof { Some(p) => p@, None => self.input@ },
    {
        match &self.proof {
            Some(p) => p.as_str(),
            None => self.input.as_str(),
        }
    }

    /// A legacy trace statement is inspected only on explicit request, and
    /// never against requested output, inputs, secrets or state.
    pub fn legacy_check(&self) -> (r: Result<(), String>)
        ensures
            !self.legacy_trace_statement ==> (r matches Err(e) && e@ == msg_legacy_opt_in()),
            self.legacy_trace_statement && (self.claim is Some || self.input_values is Some
                || self.secret is Some || self.state is Some) ==> (r matches Err(e) && e@ == msg_legacy_constraints()),
            self.legacy_trace_statement && !(self.claim is Some || self.input_values is Some
                || self.secret is Some || self.state is Some) ==> r is Ok,
    {
        require_legacy_mode(
            self.legacy_trace_statement,
            self.claim.is_some(),
            self.input_values.is_some(),
            self.secret.is_some(),
            self.state.is_some(),
        )
    }

    /// A public execution proof is checked without state or secret inputs.
    pub fn public_check(&self) -> (r: Result<(), String>)
        ensures
            (self.state is Some || secret_count(self.secret) > 0) ==> (r matches Err(e)
                && e@ == "public execution verification takes no state or secret inputs"@),
            !(self.state is Some || secret_count(self.secret) > 0) ==> r is Ok,
    {
        check_public_verify_inputs(self.state.is_some(), &self.secret)
    }

    /// A private proof is checked without a private witness.
    pub fn private_check(&self) -> (r: Result<(), String>)
        ensures
            secret_count(self.secret) > 0 ==> (r matches Err(e)
                && e@ == "private proof verification takes public inputs and optional expected state, no private witness"@),
            secret_count(self.secret) == 0 ==> r is Ok,
    {
        check_private_verify_inputs(&self.secret)
    }

    /// Re-execution needs the claimed output.
    pub fn rerun_claim(&self) -> (r: Result<&Vec<u64>, String>)
        ensures
            match self.claim {
                Some(c) => r matches Ok(v) && *v == c,
                None => r matches Err(e) && e@ == msg_claim_or_proof(),
            },
    {
        match &self.claim {
            Some(c) => Ok(c),
            None => Err(text("--claim <values> (re-execution) or --proof <artifact> is required")),
        }
    }

    /// The inputs of a re-execution.
    pub fn program_input(&self) -> (r: ProgramInput)
        ensures
            r.public@ == match self.input_values { Some(v) => v@, None => Seq::empty() },
            r.secret@ == match self.secret { Some(v) => v@, None => Seq::empty() },
            r.digests@.len() == 0,
    {
        make_input(&self.input_values, &self.secret)
    }
}


/// A public execution proof belongs to a bundle when the bundle targets nox,
/// reads no state, and the proof names its program.
pub fn check_public_program(target_vm: &str, reads_state: bool, matches_program: bool) -> (r: Result<(), String>)
    ensures
        (target_vm@ == "nox"@ && !reads_state && matches_program) ==> r is Ok,
        !(target_vm@ == "nox"@ && !reads_state && matches_program) ==> (r matches Err(e)
            && e@ == "execution proof is for another program"@),
{
    if !crate::warrior::is_nox(target_vm) || reads_state || !matches_program {
        return Err(text("execution proof is for another program"));
    }
    Ok(())
}

/// A private proof belongs to a bundle when the bundle targets nox, reads
/// state exactly when the proof's subject holds the root, the proof names its
/// program, and both carry the same source hash.
pub fn check_private_program(target_vm: &str, reads_state: bool, root_in_subject: bool, matches_program: bool, source_hash: &str, bundle_source_hash: &str) -> (r: Result<(), String>)
    ensures
        (target_vm@ == "nox"@ && reads_state == root_in_subject && matches_program && source_hash@ == bundle_source_hash@) ==> r is Ok,
        !(target_vm@ == "nox"@ && reads_state == root_in_subject && matches_program && source_hash@ == bundle_source_hash@)
            ==> (r matches Err(e) && e@ == "private proof is for another program or compilation identity"@),
{
    if !crate::warrior::is_nox(target_vm) || reads_state != root_in_subject || !matches_program
        || !same_text(source_hash, bundle_source_hash) {
        return Err(text("private proof is for another program or compilation identity"));
    }
    Ok(())
}


/// A public execution proof answers the request only when it matches the
/// requested output, inputs and budget.
pub fn check_public_claim(matches: bool) -> (r: Result<(), String>)
    ensures
        matches ==> r is Ok,
        !matches ==> (r matches Err(e) && e@ == "execution proof differs from requested input, output or budget"@),
{
    if !matches {
        return Err(text("execution proof differs from requested input, output or budget"));
    }
    Ok(())
}

/// A private proof answers the request only when it matches the requested
/// output, inputs and budget.
pub fn check_private_claim(matches: bool) -> (r: Result<(), String>)
    ensures
        matches ==> r is Ok,
        !matches ==> (r matches Err(e) && e@ == "private proof differs from requested input, output or budget"@),
{
    if !matches {
        return Err(text("private proof differs from requested input, output or budget"));
    }
    Ok(())
}

/// An expected state is met by a private proof only when the proof carries a
/// state with the same root.
pub fn check_state_root(expected: &[u8; 32], actual: Option<&[u8; 32]>) -> (r: Result<(), String>)
    ensures
        actual is None ==> (r matches Err(e) && e@ == "proof has no state"@),
        actual matches Some(a) && a@ == expected@ ==> r is Ok,
        actual matches Some(a) && a@ != expected@ ==> (r matches Err(e) && e@ == "private proof state root mismatch"@),
{
    let a = match actual {
        Some(a) => a,
        None => {
            return Err(text("proof has no state"));
        },
    };
    let mut i: usize = 0;
    while i < 32
        invariant
            i <= 32,
            forall|k: int| 0 <= k < i ==> a@[k] == expected@[k],
            actual == Some(a),
        decreases 32 - i,
    {
        if a[i] != expected[i] {
            assert(a@[i as int] != expected@[i as int]);
            return Err(text("private proof state root mismatch"));
        }
        i = i + 1;
    }
    assert(a@ =~= expected@);
    Ok(())
}

} // verus!
