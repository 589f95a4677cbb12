use joy::artifacts::{
    check_execution_metadata, check_lookup_roots, check_private_metadata, check_private_request,
    check_public_request, check_state_input, check_state_run, check_state_tables, check_trace_rows, check_wire,
    claim_matches, frame, has_look_rows, relation_agrees, state_subject, unframe, EXECUTION_FORMAT,
    EXECUTION_MAGIC, ZK_EXECUTION_FORMAT,
};
use joy::commands::{
    artifact_file_name, check_private_verify_inputs, check_public_verify_inputs, check_target, input_kind,
    make_input, mode_text, proof_mode, require_legacy_mode, InputKind, ProofMode,
};
use joy::commands::{check_profile, resolve_target};
use joy::build_request::build_error_code;
use joy::reports::JoyError;
use joy::file_input::{check_size, header_matches, read_program_text};
use joy::formula::print;
use joy::noun::Noun;
use joy::warrior::{check_bundle, describe, halted_message, hash_blocks, reduction_error, ReductionError, Warrior, DEFAULT_BUDGET};

#[test]
fn warriors_carry_their_budget() {
    assert_eq!(Warrior::new().budget(), DEFAULT_BUDGET);
    assert_eq!(Warrior::with_budget(7).budget(), 7);
    assert_eq!(Warrior::default().budget(), 1_000_000);
    let w = Warrior::new();
    assert!(w.verify_by_rerun(&[8], &[8]));
    assert!(!w.verify_by_rerun(&[8], &[9]));
    assert!(!w.verify_by_rerun(&[8], &[8, 0]));
}

#[test]
fn bundles_must_target_nox_without_digests() {
    assert!(check_bundle("nox", 0).is_ok());
    assert_eq!(
        check_bundle("triton", 0).unwrap_err(),
        "joy runs nox bundles; this bundle targets 'triton' (use trisha for triton)"
    );
    assert_eq!(
        check_bundle("nox", 1).unwrap_err(),
        "nox has no digest input stream (merkle_step is a Triton concept)"
    );
}

#[test]
fn reduction_failures_are_described() {
    assert_eq!(describe(&ReductionError::AxisError), "axis out of range");
    assert_eq!(reduction_error(&ReductionError::TypeError), "reduction error: type error (atom/pair mismatch)");
    assert_eq!(
        halted_message(12),
        "execution halted (budget remaining: 12) — out of budget, or a call pattern had no witness (secret inputs exhausted)"
    );
}

#[test]
fn hash_blocks_start_runs_of_two_or_more() {
    assert_eq!(hash_blocks(&[1, 15, 15, 15, 2, 15, 3, 15, 15]), vec![1, 7]);
    assert_eq!(hash_blocks(&[15]), Vec::<usize>::new());
    assert_eq!(hash_blocks(&[15, 15]), vec![0]);
    assert!(has_look_rows(&[1, 17]));
    assert!(!has_look_rows(&[1, 16]));
}

#[test]
fn targets_are_nox_or_cyber() {
    assert!(check_target("nox").is_ok());
    assert!(check_target("cyber").is_ok());
    let refused = check_target("triton").unwrap_err();
    assert!(matches!(&refused, JoyError::Execute(m)
        if m == "joy is the nox warrior; target 'triton' is not mine (use trisha for triton)"));
    assert_eq!(
        refused.message(),
        "execution error: joy is the nox warrior; target 'triton' is not mine (use trisha for triton)"
    );
}

#[test]
fn legacy_mode_needs_opt_in_and_no_constraints() {
    assert!(require_legacy_mode(true, false, false, false, false).is_ok());
    assert!(require_legacy_mode(false, false, false, false, false).unwrap_err().starts_with("legacy trace statements do not prove"));
    assert_eq!(
        require_legacy_mode(true, true, false, false, false).unwrap_err(),
        "legacy trace statements cannot verify requested input, output, secret or state constraints"
    );
}

#[test]
fn inputs_and_modes_follow_the_flags() {
    let i = make_input(&Some(vec![3, 5]), &None);
    assert_eq!(i.public, vec![3, 5]);
    assert!(i.secret.is_empty() && i.digests.is_empty());
    assert!(matches!(proof_mode(false, 1, false), ProofMode::Private));
    assert!(matches!(proof_mode(false, 0, true), ProofMode::PublicState));
    assert_eq!(mode_text(&proof_mode(true, 0, true)), "private authenticated state execution (Triton ZK)");
    assert_eq!(mode_text(&proof_mode(false, 0, false)), "public execution");
    assert_eq!(artifact_file_name(Some("main")), "main.zheng");
    assert_eq!(artifact_file_name(None), "program.zheng");
    assert!(matches!(input_kind(Some("nox"), "a.nox"), Ok(InputKind::Formula)));
    assert!(matches!(input_kind(Some("json"), "a.json"), Ok(InputKind::Bundle)));
    assert!(matches!(input_kind(Some("txt"), "a.txt").err().unwrap(), JoyError::Io(m)
        if m == "unsupported input 'a.txt' (expected .json bundle, .tri source, or .nox formula)"));
    assert!(check_public_verify_inputs(false, &Some(vec![])).is_ok());
    assert_eq!(
        check_public_verify_inputs(false, &Some(vec![1])).unwrap_err(),
        "public execution verification takes no state or secret inputs"
    );
    assert!(check_private_verify_inputs(&Some(vec![1])).is_err());
}

#[test]
fn artifacts_frame_and_unframe() {
    let framed = frame(EXECUTION_MAGIC, b"xyz", 100, "too big").unwrap();
    assert_eq!(&framed[..8], b"JOYEXEC1");
    assert_eq!(unframe(&framed, EXECUTION_MAGIC, 100, "too big", "not mine").unwrap(), b"xyz");
    assert_eq!(frame(EXECUTION_MAGIC, b"xyz", 10, "too big").unwrap_err(), "too big");
    assert_eq!(unframe(&framed, EXECUTION_MAGIC, 10, "too big", "not mine").unwrap_err(), "too big");
    assert_eq!(unframe(b"JOYZK003xyz", EXECUTION_MAGIC, 100, "too big", "not mine").unwrap_err(), "not mine");
    assert!(header_matches(b"JOYEXEC1rest", b"JOYEXEC1"));
    assert!(!header_matches(b"JOYEX", b"JOYEXEC1"));
}

#[test]
fn claims_filter_exactly() {
    assert!(claim_matches(Some(&[24]), Some(&[3, 5]), 100, &[24], &[3, 5], 100));
    assert!(claim_matches(None, None, 100, &[24], &[3, 5], 99));
    assert!(!claim_matches(Some(&[25]), None, 100, &[24], &[3, 5], 99));
    assert!(!claim_matches(None, Some(&[4, 5]), 100, &[24], &[3, 5], 99));
    assert!(!claim_matches(None, None, 98, &[24], &[3, 5], 99));
    assert!(relation_agrees(&[1], 5, &[1], 5));
    assert!(!relation_agrees(&[1], 5, &[1], 6));
}

#[test]
fn proof_requests_are_checked() {
    assert!(check_public_request("nox", false, 0, 0).is_ok());
    assert_eq!(check_public_request("nox", true, 0, 0).unwrap_err(), "public execution proofs require stateless nox inputs");
    assert_eq!(
        check_public_request("nox", false, 0, 1).unwrap_err(),
        "public execution proofs are not zero knowledge; secret inputs are refused"
    );
    assert!(check_private_request("nox", false, 0).is_ok());
    assert!(check_private_request("cyber", false, 0).is_err());
    assert_eq!(check_state_input("nox", 0, 0, &[0xffff_ffff_0000_0001]).unwrap_err(), "noncanonical public input");
    assert!(check_state_input("nox", 0, 0, &[0xffff_ffff_0000_0000]).is_ok());
    assert_eq!(check_state_run("nox", 0, &[1], &[0xffff_ffff_0000_0001]).unwrap_err(), "invalid state execution inputs");
}

#[test]
fn metadata_and_wire_checks() {
    assert!(check_execution_metadata(EXECUTION_FORMAT, 4096).is_ok());
    assert_eq!(check_execution_metadata(EXECUTION_FORMAT, 4097).unwrap_err(), "invalid execution artifact metadata");
    assert!(check_private_metadata(ZK_EXECUTION_FORMAT, 1, 1, 1, false, false).is_ok());
    assert_eq!(check_private_metadata(ZK_EXECUTION_FORMAT, 1, 0, 1, false, false).unwrap_err(), "invalid private execution metadata");
    assert_eq!(check_private_metadata(ZK_EXECUTION_FORMAT, 1, 1, 1, false, true).unwrap_err(), "state ABI requires a certificate");
    assert_eq!(check_wire(1, "a", "a", "invalid").unwrap_err(), "invalid");
    assert!(check_wire(0, "a", "a", "invalid").is_ok());
    assert!(check_trace_rows(2).is_ok());
    assert_eq!(check_trace_rows(1).unwrap_err(), "trace has 1 row(s): zheng folds row transitions and needs at least 2");
}

#[test]
fn state_subjects_and_roots() {
    let s = state_subject([1, 2, 3, 4], Noun::Atom(0), true);
    assert_eq!(print(&s), "[[1 [2 [3 4]]] 0]");
    assert_eq!(state_subject([1, 2, 3, 4], Noun::Atom(0), false), Noun::Atom(0));
    assert!(check_lookup_roots(&[(17, [1, 2, 3, 4]), (5, [0, 0, 0, 0])], [1, 2, 3, 4]).is_ok());
    assert_eq!(
        check_lookup_roots(&[(17, [1, 2, 3, 5])], [1, 2, 3, 4]).unwrap_err(),
        "native lookup used another state root"
    );
    assert!(check_state_tables(&[200; 10]).is_ok());
    assert!(check_state_tables(&[205; 10]).is_err());
    assert!(check_state_tables(&[1; 9]).is_err());
}

#[test]
fn files_are_bounded_and_programs_are_text() {
    assert!(check_size(10, 10).is_ok());
    assert_eq!(check_size(11, 10).unwrap_err(), "artifact file size limit");
    assert_eq!(read_program_text(b"[1 2]".to_vec()).unwrap(), "[1 2]");
    assert_eq!(read_program_text(vec![0xff]).unwrap_err(), "program file is not UTF-8");
}

#[test]
fn build_requests_targets_and_profiles() {
    assert_eq!(resolve_target(Some("cyber"), Some("triton")), "cyber");
    assert_eq!(resolve_target(None, Some("triton")), "triton");
    assert_eq!(resolve_target(None, None), "nox");
    assert!(check_profile("release", false).is_ok());
    assert!(check_profile("production", true).is_ok());
    assert!(matches!(check_profile("production", false).unwrap_err(), JoyError::Compile(m)
        if m == "unknown compilation profile 'production'"));
    assert_eq!(build_error_code(&JoyError::Compile(String::new())), "compile_failed");
    assert_eq!(build_error_code(&JoyError::Io(String::new())), "artifact_write_failed");
    assert_eq!(build_error_code(&JoyError::Parse(String::new())), "build_failed");
}

#[test]
fn framed_artifacts_read_back_and_keep_trailing_bytes_behind_the_payload() {
    let framed = frame(EXECUTION_MAGIC, b"payload", 100, "too big").unwrap();
    let mut extended = framed.clone();
    extended.push(0);
    assert_eq!(unframe(&extended, EXECUTION_MAGIC, 100, "too big", "not mine").unwrap(), b"payload\0");
    assert_eq!(check_wire(1, EXECUTION_FORMAT, EXECUTION_FORMAT, "invalid").unwrap_err(), "invalid");
    assert!(check_wire(0, EXECUTION_FORMAT, EXECUTION_FORMAT, "invalid").is_ok());
    assert_eq!(check_wire(0, "other", EXECUTION_FORMAT, "invalid").unwrap_err(), "invalid");
    let mut zk = framed.clone();
    zk[..8].copy_from_slice(b"JOYZK001");
    assert_eq!(unframe(&zk, EXECUTION_MAGIC, 100, "too big", "not mine").unwrap_err(), "not mine");
}
