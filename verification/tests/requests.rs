use joy::commands::{check_private_program, check_public_program};
use joy::build_request::{ArtifactProfile, BuildArgs, Emit as BuildEmit, Format};
use joy::commands::{ProofMode, ProveArgs, RunArgs, VerifyArgs};
use joy::reports::{Emit, JoyError, LimitArgs, PackArgs, RunArgs as ArtifactRunArgs};

fn build_args(emit: BuildEmit, profile: Option<ArtifactProfile>) -> BuildArgs {
    BuildArgs {
        input: "app.tri".to_string(),
        target: None,
        profile: "debug".to_string(),
        emit,
        artifact_profile: profile,
        output: None,
        force: false,
        format: Format::Human,
    }
}

#[test]
fn build_requests_are_admitted_before_compiling() {
    let refused = build_args(BuildEmit::Bundle, Some(ArtifactProfile::Raw)).check(false, Some("tri"));
    assert!(matches!(refused, Err(JoyError::Compile(m)) if m == "--artifact-profile requires --emit artifact"));
    let not_source = build_args(BuildEmit::Nox, None).check(false, Some("rs"));
    assert!(matches!(not_source, Err(JoyError::Compile(m)) if m == "build expects .tri source or project directory"));
    let no_extension = build_args(BuildEmit::Nox, None).check(false, None);
    assert!(matches!(no_extension, Err(JoyError::Compile(_))));
    assert!(build_args(BuildEmit::Artifact, Some(ArtifactProfile::CompilerJob)).check(false, Some("tri")).is_ok());
    assert!(build_args(BuildEmit::Bundle, None).check(true, None).is_ok());
}

#[test]
fn build_outputs_are_named_by_what_they_emit() {
    assert_eq!(build_args(BuildEmit::Bundle, None).suffix(), Some("bundle.json"));
    assert_eq!(build_args(BuildEmit::Nox, None).suffix(), Some("nox"));
    assert_eq!(build_args(BuildEmit::Artifact, None).suffix(), None);
    assert_eq!(build_args(BuildEmit::Bundle, None).format_name(), "bundle");
    assert_eq!(build_args(BuildEmit::Nox, None).format_name(), "nox");
    assert_eq!(build_args(BuildEmit::Artifact, None).format_name(), "artifact");
    assert!(matches!(build_args(BuildEmit::Artifact, None).profile_or_raw(), ArtifactProfile::Raw));
    assert!(matches!(
        build_args(BuildEmit::Artifact, Some(ArtifactProfile::CompilerJob)).profile_or_raw(),
        ArtifactProfile::CompilerJob
    ));
}

#[test]
fn run_requests_carry_target_state_and_inputs() {
    let args = RunArgs {
        input: "p.nox".to_string(),
        target: "cyber".to_string(),
        profile: "debug".to_string(),
        input_values: Some(vec![3, 5]),
        secret: None,
        budget: 10,
        state: Some("s.json".to_string()),
    };
    assert!(args.check().is_ok());
    assert_eq!(args.ignored_state().unwrap(), "note: state 's.json' ignored (chain wiring lands after M4)");
    let input = args.program_input();
    assert_eq!(input.public, vec![3, 5]);
    assert!(input.secret.is_empty());
    let foreign = RunArgs { target: "triton".to_string(), state: None, ..args };
    assert_eq!(
        foreign.check().unwrap_err().message(),
        "execution error: joy is the nox warrior; target 'triton' is not mine (use trisha for triton)"
    );
    assert!(foreign.ignored_state().is_none());
}

#[test]
fn prove_requests_pick_their_proof() {
    let args = ProveArgs {
        input: "p.tri".to_string(),
        target: None,
        profile: "debug".to_string(),
        input_values: None,
        secret: None,
        zk: false,
        budget: 10,
        output: None,
        state: None,
    };
    assert!(args.check().is_ok());
    assert!(matches!(args.mode(), ProofMode::Public));
    let secret = ProveArgs { secret: Some(vec![11]), ..args };
    assert!(matches!(secret.mode(), ProofMode::Private));
    assert_eq!(secret.program_input().secret, vec![11]);
    let empty_secret = ProveArgs { secret: Some(vec![]), state: Some("s".to_string()), ..secret };
    assert!(matches!(empty_secret.mode(), ProofMode::PublicState));
    let zk_state = ProveArgs { zk: true, ..empty_secret };
    assert!(matches!(zk_state.mode(), ProofMode::PrivateState));
    let foreign = ProveArgs { target: Some("triton".to_string()), ..zk_state };
    assert!(foreign.check().is_err());
}

fn verify_args() -> VerifyArgs {
    VerifyArgs {
        input: "p.json".to_string(),
        claim: None,
        proof: None,
        legacy_trace_statement: false,
        target: "nox".to_string(),
        profile: "debug".to_string(),
        input_values: None,
        secret: None,
        budget: 10,
        state: None,
    }
}

#[test]
fn verify_requests_route_and_refuse() {
    let args = verify_args();
    assert!(args.check().is_ok());
    assert_eq!(args.proof_path(), "p.json");
    assert!(args.legacy_check().unwrap_err().starts_with("legacy trace statements do not prove execution"));
    assert_eq!(
        args.rerun_claim().unwrap_err(),
        "--claim <values> (re-execution) or --proof <artifact> is required"
    );
    assert!(args.public_check().is_ok());
    assert!(args.private_check().is_ok());

    let legacy = VerifyArgs { legacy_trace_statement: true, proof: Some("p.zheng".to_string()), ..verify_args() };
    assert_eq!(legacy.proof_path(), "p.zheng");
    assert!(legacy.legacy_check().is_ok());

    let claimed = VerifyArgs { legacy_trace_statement: true, claim: Some(vec![24]), ..verify_args() };
    assert_eq!(
        claimed.legacy_check().unwrap_err(),
        "legacy trace statements cannot verify requested input, output, secret or state constraints"
    );
    assert_eq!(claimed.rerun_claim().unwrap(), &vec![24]);

    let secret = VerifyArgs { secret: Some(vec![1]), ..verify_args() };
    assert_eq!(secret.public_check().unwrap_err(), "public execution verification takes no state or secret inputs");
    assert!(secret.private_check().is_err());
    let stated = VerifyArgs { state: Some("s".to_string()), ..verify_args() };
    assert!(stated.public_check().is_err());
    assert!(stated.private_check().is_ok());
}

fn limit_args() -> LimitArgs {
    LimitArgs {
        budget: 1_000_000,
        arena_nodes: 196_608,
        frames: 16_384,
        artifact_bytes: 100,
        artifact_nodes: 196_608,
        artifact_depth: 4096,
        time_ms: 30_000,
        source_bytes: 4_194_304,
        modules: 4096,
        diagnostics: 1024,
        sequence_length: 65_536,
        validation_visits: 1_000_000,
    }
}

#[test]
fn artifact_runs_are_bounded_by_their_limits() {
    let args = ArtifactRunArgs {
        program: "p.dag".to_string(),
        input: "i.dag".to_string(),
        output: "o.dag".to_string(),
        force: false,
        emit: Emit::Result,
        limits: limit_args(),
    };
    assert!(args.check(100, 1).is_ok());
    assert_eq!(args.check(101, 1).unwrap_err(), "input file size limit");
    assert_eq!(args.check(1, 101).unwrap_err(), "input file size limit");
    let unbounded = ArtifactRunArgs { limits: LimitArgs { frames: 0, ..limit_args() }, ..args };
    assert_eq!(unbounded.check(1, 1).unwrap_err(), "limit frames must be in 1..=65536");
    let pack = PackArgs {
        compiler: "c.dag".to_string(),
        manifest: "m.json".to_string(),
        output: "job.dag".to_string(),
        force: true,
        limits: limit_args(),
    };
    assert_eq!(pack.limits.values().artifact_bytes, 100);
}

#[test]
fn proofs_belong_to_their_program() {
    assert!(check_public_program("nox", false, true).is_ok());
    assert_eq!(check_public_program("nox", true, true).unwrap_err(), "execution proof is for another program");
    assert!(check_public_program("triton", false, true).is_err());
    assert!(check_public_program("nox", false, false).is_err());
    assert!(check_private_program("nox", true, true, true, "h", "h").is_ok());
    assert_eq!(
        check_private_program("nox", true, true, true, "h", "g").unwrap_err(),
        "private proof is for another program or compilation identity"
    );
    assert!(check_private_program("nox", false, true, true, "h", "h").is_err());
}

#[test]
fn verdicts_name_what_failed() {
    assert!(joy::commands::check_public_claim(true).is_ok());
    assert_eq!(
        joy::commands::check_public_claim(false).unwrap_err(),
        "execution proof differs from requested input, output or budget"
    );
    assert_eq!(
        joy::commands::check_private_claim(false).unwrap_err(),
        "private proof differs from requested input, output or budget"
    );
    let root = [7u8; 32];
    let mut other = root;
    other[31] = 8;
    assert!(joy::commands::check_state_root(&root, Some(&root)).is_ok());
    assert_eq!(joy::commands::check_state_root(&root, Some(&other)).unwrap_err(), "private proof state root mismatch");
    assert_eq!(joy::commands::check_state_root(&root, None).unwrap_err(), "proof has no state");
    assert_eq!(joy::job::source_left(10, 4), Some(6));
    assert_eq!(joy::job::source_left(3, 4), None);
}
