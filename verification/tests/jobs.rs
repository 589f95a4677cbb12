use joy::digest::{digest_of, particle};
use joy::job::{admit_body, admit_head, encode_job, program, Job};
use joy::job_result::validate;
use joy::limits::{JobLimits, RunLimits};
use joy::manifest::{normalize, Manifest, ModuleFile, Options};
use joy::noun::Noun;
use joy::reader::{expired_after, Reader};
use joy::ordering::sort_by_key;
use joy::schema::{write_bytes, write_record, write_seq};

fn atom(v: u64) -> Noun {
    Noun::Atom(v)
}

fn pair(a: Noun, b: Noun) -> Noun {
    Noun::Pair(Box::new(a), Box::new(b))
}

fn art1(formula: Noun, profile: u64) -> Noun {
    write_record(0x41525431, vec![atom(0), atom(profile), atom(profile), formula]).unwrap()
}

fn module(path: &str) -> ModuleFile {
    ModuleFile {
        logical_path: path.to_string(),
        file: format!("{path}.tri"),
        origin_name: "demo".to_string(),
        origin_version: "1.0".to_string(),
    }
}

fn limits() -> JobLimits {
    JobLimits {
        source_bytes: 1000,
        modules: 16,
        diagnostics: 16,
        sequence_length: 64,
        validation_visits: 100_000,
        artifact_bytes: 4096,
        artifact_nodes: 4096,
        artifact_depth: 64,
        reductions: 1000,
        arena_nodes: 4096,
        evaluator_frames: 64,
    }
}

fn manifest() -> Manifest {
    Manifest {
        version: 1,
        entry_module: "main".to_string(),
        entry_function: "run".to_string(),
        modules: vec![module("main"), module("lib.util")],
        options: Options {
            target: 0,
            input_profile: 1,
            output_profile: 1,
            optimization: 0,
            cfg_flags: vec!["release".to_string(), "debug".to_string()],
        },
        limits: limits(),
    }
}

fn admitted_job() -> (Noun, Noun, Job) {
    let compiler = art1(atom(42), 1);
    let mut m = manifest();
    normalize(&mut m, RunLimits::default()).unwrap();
    let sources: Vec<Vec<u8>> = m.modules.iter().map(|x| format!("source of {}", x.logical_path).into_bytes()).collect();
    let job = encode_job(digest_of(&compiler), &m, &sources).unwrap();
    let head = admit_head(&job, &compiler, RunLimits::default(), 0, None).unwrap();
    let admitted = admit_body(&job, head).unwrap();
    (compiler, job, admitted)
}

#[test]
fn programs_give_formula_and_profile() {
    let p = art1(pair(atom(1), atom(7)), 1);
    let mut r = Reader { remaining: 100, sequence_limit: 10, clock: None };
    let (formula, profile) = program(&mut r, &p).unwrap();
    assert_eq!(*formula, pair(atom(1), atom(7)));
    assert_eq!(profile, 1);
    let bad = write_record(0x41525431, vec![atom(0), atom(0), atom(1), atom(0)]).unwrap();
    let mut r = Reader { remaining: 100, sequence_limit: 10, clock: None };
    assert_eq!(program(&mut r, &bad).unwrap_err(), "ART1 requires machine0 and matching supported profiles");
}

#[test]
fn packed_jobs_admit_with_the_manifest_contents() {
    let (_, job, admitted) = admitted_job();
    assert_eq!(admitted.entry_module, "main");
    assert_eq!(admitted.entry_function, "run");
    let paths: Vec<&str> = admitted.modules.iter().map(|m| m.logical_path.as_str()).collect();
    assert_eq!(paths, vec!["lib.util", "main"]);
    assert_eq!(admitted.entry_index, 1);
    assert_eq!(admitted.modules[1].source_bytes, "source of main".len() as u32);
    assert_eq!(admitted.modules[0].origin_name, "demo");
    assert_eq!(admitted.options.cfg_flags, vec!["debug".to_string(), "release".to_string()]);
    assert_eq!(admitted.options.input_profile, 1);
    assert_eq!(admitted.limits.values(), limits().values());
    assert_eq!(admitted.identity, digest_of(&job));
    assert!(admitted.input_visits > 0);
    assert_eq!(admitted.modules[1].source_particle, particle(&write_bytes(b"source of main").unwrap()));
}

#[test]
fn job_for_another_compiler_is_refused() {
    let (_, job, _) = admitted_job();
    let other = art1(atom(43), 1);
    let err = admit_head(&job, &other, RunLimits::default(), 0, None).err().unwrap();
    assert_eq!(err, "compiler identity mismatch");
}

#[test]
fn spent_program_visits_must_fit_the_host_allowance() {
    let (compiler, job, _) = admitted_job();
    let err = admit_head(&job, &compiler, RunLimits::default(), 1_000_001, None).err().unwrap();
    assert_eq!(err, "program validation visits");
}

#[test]
fn job_limits_above_the_host_are_refused() {
    let compiler = art1(atom(42), 1);
    let mut m = manifest();
    m.limits.reductions = 100_000_000_000;
    let sources = vec![b"a".to_vec(), b"b".to_vec()];
    let job = encode_job(digest_of(&compiler), &m, &sources).unwrap();
    let err = admit_head(&job, &compiler, RunLimits::default(), 0, None).err().unwrap();
    assert_eq!(err, "unsupported job limit at LIM1 field 8");
}

#[test]
fn unsorted_flags_are_refused_at_admission() {
    let compiler = art1(atom(42), 1);
    let m = manifest();
    let sources = vec![b"a".to_vec(), b"b".to_vec()];
    let job = encode_job(digest_of(&compiler), &m, &sources).unwrap();
    let head = admit_head(&job, &compiler, RunLimits::default(), 0, None).unwrap();
    assert_eq!(admit_body(&job, head).err().unwrap(), "cfg order/name");
}

#[test]
fn unsorted_modules_are_refused_at_admission() {
    let compiler = art1(atom(42), 1);
    let m = manifest();
    let sources = vec![b"a".to_vec(), b"b".to_vec()];
    let mut m2 = m;
    m2.modules = vec![module("zeta"), module("main")];
    m2.options.cfg_flags = vec!["debug".to_string(), "release".to_string()];
    let job = encode_job(digest_of(&compiler), &m2, &sources).unwrap();
    let head = admit_head(&job, &compiler, RunLimits::default(), 0, None).unwrap();
    assert_eq!(admit_body(&job, head).err().unwrap(), "module order/name");
}

#[test]
fn success_results_give_the_generated_program() {
    let (_, job, admitted) = admitted_job();
    let identity = admitted.identity;
    let generated = art1(atom(14), 1);
    let result = write_record(
        0x52455331,
        vec![
            pair(pair(atom(identity[0]), atom(identity[1])), pair(atom(identity[2]), atom(identity[3]))),
            atom(0),
            art1(atom(14), 1),
        ],
    )
    .unwrap();
    let _ = job;
    let (report, compiled) = validate(&result, admitted, None).unwrap();
    assert_eq!(report.status, "success");
    assert!(report.diagnostics.is_empty());
    assert_eq!(*compiled.unwrap(), generated);
    assert_eq!(report.compiled_particle, Some(particle(&generated)));
}

fn diagnostic(code: u64, module: u64, start: u64, end: u64, message: &str) -> Noun {
    write_record(
        0x44494131,
        vec![atom(code), atom(module), atom(start), atom(end), write_bytes(message.as_bytes()).unwrap()],
    )
    .unwrap()
}

fn result_with(identity: [u64; 4], status: u64, body: Noun) -> Noun {
    write_record(
        0x52455331,
        vec![pair(pair(atom(identity[0]), atom(identity[1])), pair(atom(identity[2]), atom(identity[3]))), atom(status), body],
    )
    .unwrap()
}

#[test]
fn compile_errors_give_ordered_diagnostics() {
    let (_, _, admitted) = admitted_job();
    let id = admitted.identity;
    let diags = write_seq(vec![diagnostic(2, 0, 0, 3, "ошибка"), diagnostic(1, 1, 2, 4, "bad")]).unwrap();
    let result = result_with(id, 1, diags);
    let (report, compiled) = validate(&result, admitted, None).unwrap();
    assert_eq!(report.status, "compile_error");
    assert!(compiled.is_none());
    assert_eq!(report.diagnostics.len(), 2);
    assert_eq!(report.diagnostics[0].message, "ошибка");
    assert_eq!(report.compiled_particle, None);
}

#[test]
fn diagnostics_out_of_order_are_refused() {
    let (_, _, admitted) = admitted_job();
    let id = admitted.identity;
    let diags = write_seq(vec![diagnostic(1, 1, 2, 4, "b"), diagnostic(2, 0, 0, 3, "a")]).unwrap();
    assert_eq!(validate(&result_with(id, 1, diags), admitted, None).err().unwrap(), "diagnostic order");
}

#[test]
fn diagnostic_spans_codes_and_markers_are_checked() {
    let cases = [
        (diagnostic(9, 0, 0, 0, "x"), "diagnostic span/code"),
        (diagnostic(1, 5, 0, 0, "x"), "diagnostic module"),
        (diagnostic(1, 0, 3, 2, "x"), "diagnostic span/code"),
        (diagnostic(1, 0, 0, 1000, "x"), "diagnostic span/code"),
        (diagnostic(8, 0, 0, 0, "x"), "diagnostic limit marker"),
    ];
    for (d, message) in cases {
        let (_, _, admitted) = admitted_job();
        let id = admitted.identity;
        let diags = write_seq(vec![d]).unwrap();
        assert_eq!(validate(&result_with(id, 1, diags), admitted, None).err().unwrap(), message);
    }
}

#[test]
fn result_identity_status_and_emptiness_are_checked() {
    let (_, _, admitted) = admitted_job();
    let mut id = admitted.identity;
    id[3] = id[3].wrapping_add(1) % 0xffff_ffff_0000_0001;
    assert_eq!(validate(&result_with(id, 0, atom(0)), admitted, None).err().unwrap(), "job identity mismatch");
    let (_, _, admitted) = admitted_job();
    let id = admitted.identity;
    assert_eq!(validate(&result_with(id, 2, atom(0)), admitted, None).err().unwrap(), "result status");
    let (_, _, admitted) = admitted_job();
    let id = admitted.identity;
    let empty = write_seq(vec![]).unwrap();
    assert_eq!(validate(&result_with(id, 1, empty), admitted, None).err().unwrap(), "empty compile-error result");
    let (_, _, admitted) = admitted_job();
    let id = admitted.identity;
    assert_eq!(
        validate(&result_with(id, 0, art1(atom(1), 0)), admitted, None).err().unwrap(),
        "generated artifact profile mismatch"
    );
}

fn packed(m: &Manifest, source_of: impl Fn(&str) -> Vec<u8>) -> Noun {
    let compiler = art1(atom(42), 1);
    let mut m = Manifest {
        version: m.version,
        entry_module: m.entry_module.clone(),
        entry_function: m.entry_function.clone(),
        modules: m.modules.clone(),
        options: m.options.clone(),
        limits: m.limits,
    };
    normalize(&mut m, RunLimits::default()).unwrap();
    let sources: Vec<Vec<u8>> = m.modules.iter().map(|x| source_of(&x.logical_path)).collect();
    encode_job(digest_of(&compiler), &m, &sources).unwrap()
}

#[test]
fn packing_ignores_module_order_flag_order_and_host_paths() {
    let source = |path: &str| format!("source of {path}").into_bytes();
    let a = manifest();
    let mut b = manifest();
    b.modules.reverse();
    b.modules[0].file = "elsewhere/copy.tri".to_string();
    b.options.cfg_flags.reverse();
    assert_eq!(packed(&a, source), packed(&b, source));
    let mut c = manifest();
    c.modules[0].origin_version = "2.0".to_string();
    assert_ne!(packed(&a, source), packed(&c, source));
    assert_ne!(packed(&a, source), packed(&a, |p: &str| format!("source of {p}!").into_bytes()));
}

#[test]
fn sorting_keeps_equal_keys_in_their_order() {
    let mut v = vec![module("b"), module("a"), module("b"), module("a")];
    v[0].file = "first".to_string();
    v[2].file = "second".to_string();
    v[1].file = "one".to_string();
    v[3].file = "two".to_string();
    sort_by_key(&mut v);
    let files: Vec<&str> = v.iter().map(|m| m.file.as_str()).collect();
    assert_eq!(files, vec!["one", "two", "first", "second"]);
}

#[test]
fn clocks_expire_at_their_allowance() {
    assert!(expired_after(5, 5));
    assert!(expired_after(6, 5));
    assert!(!expired_after(4, 5));
    assert!(expired_after(0, 0));
}
