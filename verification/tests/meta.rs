use joy::digest::{digest_bytes, digest_of, hash_data, particle};
use joy::limits::RunLimits;
use joy::noun::Noun;
use joy::proof_artifact::{check_proof_format, program_hash, program_hash_limbs, trim_text, ArtifactMeta, PROOF_FORMAT};
use joy::reports::{compile_failure, publication, Emit, JoyError, LimitArgs, RunReport, RunResult};
use joy::job_result::Diagnostic;
use joy::run::{admit_program, check_run, deadline_after, execution_bounds, large_arena};
use joy::schema::write_record;

#[test]
fn trimming_drops_unicode_white_space_at_both_ends() {
    assert_eq!(trim_text("  [1 2]\n\t"), "[1 2]");
    assert_eq!(trim_text("\u{3000}x y\u{a0}"), "x y");
    assert_eq!(trim_text(" \n "), "");
    assert_eq!(trim_text("x"), "x");
}

#[test]
fn program_hash_ignores_surrounding_white_space() {
    let a = program_hash("[1 2]");
    assert_eq!(a, program_hash("  [1 2]\n"));
    assert_ne!(a, program_hash("[1 3]"));
    assert_ne!(&a[..5], b"[1 2]");
    let limbs = program_hash_limbs(&a);
    assert_eq!(limbs.len(), 4);
    assert_eq!(limbs[0], u64::from_le_bytes(a[0..8].try_into().unwrap()));
    assert_eq!(limbs[3], u64::from_le_bytes(a[24..32].try_into().unwrap()));
}

#[test]
fn assembly_travels_deflated_and_reads_back() {
    let mut meta = ArtifactMeta {
        program: "p".to_string(),
        output: vec![1],
        cycle_count: 3,
        assembly: Some("old".to_string()),
        assembly_deflate: None,
    };
    assert_eq!(meta.assembly_text().unwrap(), Some("old".to_string()));
    let text = "[5 [[1 3] [1 5]]] ".repeat(40);
    meta.set_assembly(&text);
    assert!(meta.assembly.is_none());
    assert!(meta.assembly_deflate.as_ref().unwrap().len() < text.len());
    assert_eq!(meta.assembly_text().unwrap(), Some(text));
    let none = ArtifactMeta { program: String::new(), output: vec![], cycle_count: 0, assembly: None, assembly_deflate: None };
    assert_eq!(none.assembly_text().unwrap(), None);
    let corrupt = ArtifactMeta {
        program: String::new(),
        output: vec![],
        cycle_count: 0,
        assembly: None,
        assembly_deflate: Some(vec![0xff, 0xff, 0xff]),
    };
    assert!(corrupt.assembly_text().unwrap_err().starts_with("corrupt assembly_deflate: "));
}

#[test]
fn proof_formats_are_checked() {
    assert!(check_proof_format(PROOF_FORMAT).is_ok());
    assert_eq!(
        check_proof_format("zheng-nox-v0").unwrap_err(),
        "unknown proof format 'zheng-nox-v0' (this joy verifies 'zheng-hypernova-v1')"
    );
}

#[test]
fn digests_are_hashes_not_values() {
    let a = digest_of(&Noun::Atom(1));
    let b = digest_of(&Noun::Atom(2));
    assert_ne!(a, b);
    assert_ne!(a, [1, 0, 0, 0]);
    assert_eq!(a, digest_of(&Noun::Atom(1)));
    let p = digest_of(&Noun::Pair(Box::new(Noun::Atom(1)), Box::new(Noun::Atom(2))));
    assert_ne!(p, a);
    assert_eq!(digest_of(&Noun::Atom(0xffff_ffff_0000_0001)), digest_of(&Noun::Atom(0)));
    let bytes = digest_bytes(a);
    assert_eq!(bytes.len(), 32);
    assert_eq!(&bytes[0..8], &a[0].to_le_bytes());
    let text = particle(&Noun::Atom(1));
    assert_eq!(text.len(), 64);
    assert_eq!(&text[0..2], format!("{:02x}", bytes[0]));
    assert_eq!(
        hash_data([1, 2, 3, 4]),
        Noun::Pair(
            Box::new(Noun::Pair(Box::new(Noun::Atom(1)), Box::new(Noun::Atom(2)))),
            Box::new(Noun::Pair(Box::new(Noun::Atom(3)), Box::new(Noun::Atom(4)))),
        )
    );
}

#[test]
fn runs_are_admitted_by_limits_and_size() {
    let limits = RunLimits::default();
    assert!(check_run(limits, 10, 10).is_ok());
    assert_eq!(check_run(limits, 16_777_217, 10).unwrap_err(), "input file size limit");
    let mut bad = limits;
    bad.frames = 0;
    assert_eq!(check_run(bad, 1, 1).unwrap_err(), "limit frames must be in 1..=65536");
    assert!(!large_arena(limits));
    let mut big = limits;
    big.arena_nodes = 196_609;
    assert!(large_arena(big));
    assert_eq!(deadline_after(30_000, limits).unwrap_err(), "execution deadline exceeded");
    assert!(deadline_after(29_999, limits).is_ok());
    assert_eq!(execution_bounds(None, limits), (1_000_000, 16_384));
}

#[test]
fn programs_are_admitted_with_their_visit_cost() {
    let p = write_record(0x41525431, vec![Noun::Atom(0), Noun::Atom(0), Noun::Atom(0), Noun::Atom(9)]).unwrap();
    let (formula, profile, visits) = admit_program(&p, RunLimits::default(), None).unwrap();
    assert_eq!(*formula, Noun::Atom(9));
    assert_eq!(profile, 0);
    assert_eq!(visits, 3 + 8 + 1 + 3);
    assert_eq!(
        admit_program(&Noun::Atom(0), RunLimits::default(), None).err().unwrap(),
        "ART1 admission: expected pair"
    );
}

fn report(compiler_job: Option<joy::job_result::CompilerReport>) -> RunReport {
    RunReport {
        program_particle: "p".to_string(),
        input_particle: "i".to_string(),
        output_particle: "o".to_string(),
        charged_reductions: 0,
        allocated_nodes: 0,
        peak_frames: 0,
        arena_reserved_bytes: 0,
        frame_buffer_bytes: 0,
        worker_stack_bytes: 0,
        elapsed_micros: 0,
        trace_mode: "none".to_string(),
        compiler_job,
    }
}

#[test]
fn publication_picks_output_or_program() {
    let result = RunResult { output: vec![1, 2], compiled: None, report: report(None) };
    let (bytes, particle) = publication(&Emit::Result, &result).unwrap();
    assert_eq!(bytes, &vec![1, 2]);
    assert_eq!(particle, "o");
    assert_eq!(publication(&Emit::Program, &result).err().unwrap(), "--emit program requires compiler profile(1,1)");
    let diags = vec![
        Diagnostic { module_index: 0, start_byte: 1, end_byte: 2, code: 6, message: "x".to_string() },
        Diagnostic { module_index: 1, start_byte: 0, end_byte: 0, code: 8, message: "limit".to_string() },
    ];
    assert_eq!(compile_failure(&diags), "guest compilation failed: code6 module0 [1..2): x; code8 module1 [0..0): limit");
}

#[test]
fn errors_display_with_their_kind() {
    assert_eq!(JoyError::Io("gone".to_string()).message(), "I/O error: gone");
    assert_eq!(JoyError::Parse("bad".to_string()).message(), "parse error: bad");
    let args = LimitArgs {
        budget: 1,
        arena_nodes: 2,
        frames: 3,
        artifact_bytes: 4,
        artifact_nodes: 5,
        artifact_depth: 6,
        time_ms: 7,
        source_bytes: 8,
        modules: 9,
        diagnostics: 10,
        sequence_length: 11,
        validation_visits: 12,
    };
    let l = args.values();
    assert_eq!((l.budget, l.time_ms, l.compiler.validation_visits), (1, 7, 12));
}

fn pair(h: Noun, t: Noun) -> Noun {
    Noun::Pair(Box::new(h), Box::new(t))
}

#[test]
fn exact_art1_fields_and_terminator_are_enforced() {
    const ART1: u64 = 0x41525431;
    let zero = || Noun::Atom(0);
    let one = || Noun::Atom(1);
    for case in 0..8 {
        let formula = pair(Noun::Atom(1), Noun::Atom(14));
        let mut fields = vec![zero(), zero(), zero(), formula];
        match case {
            0 => fields[0] = one(),
            1 => fields[1] = one(),
            2 => fields[2] = one(),
            3 => {
                fields.pop();
            }
            4 => fields.push(zero()),
            5 => fields[0] = pair(zero(), zero()),
            _ => (),
        }
        let mut tail = if case == 6 { one() } else { zero() };
        for field in fields.into_iter().rev() {
            tail = pair(field, tail);
        }
        let tag = if case == 7 { ART1 + 1 } else { ART1 };
        let p = pair(Noun::Atom(tag), tail);
        assert!(admit_program(&p, RunLimits::default(), None).err().unwrap().contains("ART1"));
    }
}

#[test]
fn a_zero_time_limit_has_always_passed() {
    let limits = RunLimits { time_ms: 0, ..RunLimits::default() };
    assert_eq!(joy::run::deadline(&std::time::Instant::now(), limits).unwrap_err(), "execution deadline exceeded");
    assert!(joy::run::deadline(&std::time::Instant::now(), RunLimits::default()).is_ok());
}

fn metadata() -> ArtifactMeta {
    ArtifactMeta { program: String::new(), output: vec![], cycle_count: 0, assembly: None, assembly_deflate: None }
}

#[test]
fn compressed_legacy_assembly_cannot_expand_past_the_formula_limit() {
    let mut meta = metadata();
    let boundary = " ".repeat(256 * 1024);
    meta.set_assembly(&boundary);
    assert_eq!(meta.assembly_text().unwrap().unwrap(), boundary);
    meta.set_assembly(&(boundary.clone() + " "));
    assert!(meta.assembly_deflate.as_ref().unwrap().len() < 1024);
    assert!(meta.assembly_text().unwrap_err().contains("oversized"));
    meta.assembly_deflate = None;
    meta.assembly = Some(boundary + " ");
    assert!(meta.assembly_text().unwrap_err().contains("size limit"));
    meta.set_assembly("[1 7]");
    assert_eq!(meta.assembly_text().unwrap().as_deref(), Some("[1 7]"));
}

#[test]
fn plain_assemblies_up_to_the_formula_limit_are_kept() {
    let mut meta = metadata();
    meta.assembly = Some("é".repeat(128 * 1024));
    assert_eq!(meta.assembly_text().unwrap().unwrap().len(), 256 * 1024);
    meta.assembly = Some("é".repeat(128 * 1024) + "x");
    assert_eq!(meta.assembly_text().unwrap_err(), "assembly exceeds the 262144-byte formula size limit");
}

#[test]
fn program_admission_stops_at_its_deadline() {
    let p = write_record(0x41525431, vec![Noun::Atom(0), Noun::Atom(0), Noun::Atom(0), Noun::Atom(9)]).unwrap();
    let late = joy::reader::Clock { start: std::time::Instant::now(), time_ms: 0 };
    assert_eq!(
        admit_program(&p, RunLimits::default(), Some(late)).err().unwrap(),
        "ART1 admission: execution deadline exceeded during schema admission"
    );
    let ample = joy::reader::Clock { start: std::time::Instant::now(), time_ms: 60_000 };
    assert_eq!(admit_program(&p, RunLimits::default(), Some(ample)).unwrap().1, 0);
}
