use joy::digest::{digest_of, hash_data};
use joy::job::{admit_body, admit_head, encode_job, Job};
use joy::job_result::validate;
use joy::limits::{JobLimits, RunLimits};
use joy::manifest::{Manifest, ModuleFile, Options};
use joy::noun::Noun;
use joy::schema::{copy_noun, write_bytes, write_record, write_seq, BYT1, DIA1, JOB1, RES1, SEQ1};

const MODULUS: u64 = 0xffff_ffff_0000_0001;

fn atom(v: u64) -> Noun {
    Noun::Atom(v)
}

fn pair(a: Noun, b: Noun) -> Noun {
    Noun::Pair(Box::new(a), Box::new(b))
}

fn program(formula: Noun, profile: u64) -> Noun {
    write_record(0x41525431, vec![atom(0), atom(profile), atom(profile), formula]).unwrap()
}

fn compiler() -> Noun {
    program(pair(atom(1), atom(14)), 1)
}

fn caps() -> [u64; 11] {
    [1000, 16, 16, 64, 100_000, 4096, 4096, 64, 1000, 4096, 64]
}

fn job_limits(v: [u64; 11]) -> JobLimits {
    JobLimits {
        source_bytes: v[0] as u32,
        modules: v[1] as u32,
        diagnostics: v[2] as u32,
        sequence_length: v[3] as u32,
        validation_visits: v[4] as u32,
        artifact_bytes: v[5] as u32,
        artifact_nodes: v[6] as u32,
        artifact_depth: v[7] as u32,
        reductions: v[8],
        arena_nodes: v[9] as u32,
        evaluator_frames: v[10] as u32,
    }
}

struct Module {
    path: String,
    origin: String,
    version: String,
    source: Vec<u8>,
}

struct Config {
    input: u64,
    output: u64,
    optimization: u64,
    cfg: Vec<String>,
}

fn configuration() -> (Vec<Module>, Config) {
    (
        vec![Module {
            path: "demo".into(),
            origin: "fixture".into(),
            version: "1".into(),
            source: b"raw\0\r\n\xff".to_vec(),
        }],
        Config { input: 0, output: 0, optimization: 0, cfg: vec!["release".into()] },
    )
}

fn job(compiler: &Noun, modules: &[Module], entry: &str, function: &str, o: &Config, limits: [u64; 11]) -> Noun {
    let manifest = Manifest {
        version: 1,
        entry_module: entry.into(),
        entry_function: function.into(),
        modules: modules
            .iter()
            .map(|m| ModuleFile {
                logical_path: m.path.clone(),
                file: String::new(),
                origin_name: m.origin.clone(),
                origin_version: m.version.clone(),
            })
            .collect(),
        options: Options {
            target: 0,
            input_profile: o.input,
            output_profile: o.output,
            optimization: o.optimization,
            cfg_flags: o.cfg.clone(),
        },
        limits: job_limits(limits),
    };
    let sources: Vec<Vec<u8>> = modules.iter().map(|m| m.source.clone()).collect();
    encode_job(digest_of(compiler), &manifest, &sources).unwrap()
}

fn make_job(compiler: &Noun, limits: [u64; 11]) -> Noun {
    let (modules, options) = configuration();
    job(compiler, &modules, "demo", "main", &options, limits)
}

fn admit_job(job: &Noun, compiler: &Noun) -> Result<Job, String> {
    let head = admit_head(job, compiler, RunLimits::default(), 0, None)?;
    admit_body(job, head)
}

fn fields(root: &Noun, count: usize) -> Vec<Noun> {
    let mut out = Vec::new();
    let mut rest = match root {
        Noun::Pair(_, t) => &**t,
        Noun::Atom(_) => panic!("record"),
    };
    for _ in 0..count {
        match rest {
            Noun::Pair(h, t) => {
                out.push(copy_noun(h));
                rest = &**t;
            }
            Noun::Atom(_) => panic!("record"),
        }
    }
    out
}

fn replace(root: &Noun, tag: u64, count: usize, index: usize, value: Noun) -> Noun {
    let mut f = fields(root, count);
    f[index] = value;
    write_record(tag, f).unwrap()
}

fn bump(d: [u64; 4], limb: usize) -> [u64; 4] {
    let mut d = d;
    d[limb] = (d[limb] + 1) % MODULUS;
    d
}

fn result(identity: [u64; 4], status: u64, body: Noun) -> Noun {
    write_record(RES1, vec![hash_data(identity), atom(status), body]).unwrap()
}

#[test]
fn all_four_compiler_and_result_identity_limbs_are_bound() {
    let good = compiler();
    for limb in 0..4 {
        let job = make_job(&good, caps());
        let bad = hash_data(bump(digest_of(&good), limb));
        let job = replace(&job, JOB1, 6, 0, bad);
        assert!(admit_job(&job, &good).err().unwrap().contains("compiler identity mismatch"));
        let job = make_job(&good, caps());
        let admitted = admit_job(&job, &good).unwrap();
        let wrong = result(bump(admitted.identity, limb), 0, program(pair(atom(1), atom(14)), 0));
        assert!(validate(&wrong, admitted, None).err().unwrap().contains("job identity mismatch"));
    }
}

#[test]
fn packages_options_and_entry_are_structurally_validated_without_source_parsing() {
    let c = compiler();
    let (modules, options) = configuration();
    let copy = |m: &Module| Module {
        path: m.path.clone(),
        origin: m.origin.clone(),
        version: m.version.clone(),
        source: m.source.clone(),
    };
    let copy_options =
        |o: &Config| Config { input: o.input, output: o.output, optimization: o.optimization, cfg: o.cfg.clone() };
    let mut cases: Vec<(Vec<Module>, Config, &str, &str)> = Vec::new();
    for path in ["../demo", "a..b", "1demo", "absent"] {
        let mut m: Vec<Module> = modules.iter().map(copy).collect();
        m[0].path = path.into();
        cases.push((m, copy_options(&options), "demo", "main"));
    }
    for origin in ["", "bad\n", "é"] {
        let mut m: Vec<Module> = modules.iter().map(copy).collect();
        m[0].origin = origin.into();
        cases.push((m, copy_options(&options), "demo", "main"));
    }
    let mut duplicate: Vec<Module> = modules.iter().map(copy).collect();
    duplicate.push(copy(&modules[0]));
    cases.push((duplicate, copy_options(&options), "demo", "main"));
    let mut unsorted: Vec<Module> = modules.iter().map(copy).collect();
    let mut m = copy(&modules[0]);
    m.path = "aaa".into();
    unsorted.push(m);
    cases.push((unsorted, copy_options(&options), "demo", "main"));
    for cfg in [vec!["z", "a"], vec!["a", "a"], vec!["a.b"]] {
        let mut o = copy_options(&options);
        o.cfg = cfg.into_iter().map(String::from).collect();
        cases.push((modules.iter().map(copy).collect(), o, "demo", "main"));
    }
    for (input, output, opt) in [(1, 0, 0), (0, 1, 0), (2, 2, 0), (0, 0, 1)] {
        let mut o = copy_options(&options);
        o.input = input;
        o.output = output;
        o.optimization = opt;
        cases.push((modules.iter().map(copy).collect(), o, "demo", "main"));
    }
    cases.push((modules.iter().map(copy).collect(), copy_options(&options), "demo", "a.b"));
    cases.push((modules.iter().map(copy).collect(), copy_options(&options), "a.demo", "main"));
    for (modules, options, entry, function) in cases {
        let j = job(&c, &modules, entry, function, &options, caps());
        assert!(admit_job(&j, &c).is_err(), "{entry} {function}");
    }
    assert!(admit_job(&make_job(&c, caps()), &c).is_ok());
}

#[test]
fn malformed_records_collections_and_byte_padding_are_rejected() {
    let c = compiler();
    let job = make_job(&c, caps());
    let values = fields(&job, 6);
    for tag in [JOB1 + 1, JOB1] {
        for count in [5, 7] {
            let mut v: Vec<Noun> = values.iter().map(copy_noun).collect();
            v.push(copy_noun(&values[0]));
            v.truncate(count);
            let bad = write_record(tag, v).unwrap();
            assert!(admit_job(&bad, &c).is_err());
        }
    }
    for name in [b"\xff".as_slice(), b"demo\0", b""] {
        let bad = replace(&job, JOB1, 6, 2, write_bytes(name).unwrap());
        assert!(admit_job(&bad, &c).is_err());
    }
    for (length, tree) in [(0, atom(1)), (1, atom(256)), (5, atom(1))] {
        let bad = pair(atom(BYT1), pair(atom(length), tree));
        let bad = replace(&job, JOB1, 6, 2, bad);
        assert!(admit_job(&bad, &c).is_err());
    }
    let options = fields(&values[4], 5);
    let bad = pair(atom(SEQ1), pair(pair(atom(0), atom(0)), atom(0)));
    let mut o: Vec<Noun> = options.iter().take(4).map(copy_noun).collect();
    o.push(bad);
    let options = write_record(0x4f505431, o).unwrap();
    let bad = replace(&job, JOB1, 6, 4, options);
    assert!(admit_job(&bad, &c).is_err());
}

fn diagnostic(code: u64, module: u64, start: u64, end: u64, message: &[u8]) -> Noun {
    write_record(DIA1, vec![atom(code), atom(module), atom(start), atom(end), write_bytes(message).unwrap()]).unwrap()
}

#[test]
fn diagnostic_codes_spans_order_utf8_and_overflow_marker_are_enforced() {
    for case in 0..12 {
        let a = || diagnostic(1, 0, 0, 0, b"a");
        let b = || diagnostic(1, 0, 0, 0, b"b");
        let overflow = || diagnostic(8, 0, 0, 0, b"limit");
        let nodes = match case {
            0 => vec![],
            1 => vec![b(), a()],
            2 => vec![diagnostic(0, 0, 0, 0, b"bad")],
            3 => vec![diagnostic(9, 0, 0, 0, b"bad")],
            4 => vec![diagnostic(1, 1, 0, 0, b"bad")],
            5 => vec![diagnostic(1, 0, 3, 2, b"bad")],
            6 => vec![diagnostic(1, 0, 0, 8, b"bad")],
            7 => vec![diagnostic(1, 0, 0, 0, b"\xff")],
            8 => vec![diagnostic(8, 0, 1, 1, b"bad")],
            9 => vec![overflow(), overflow()],
            10 => vec![diagnostic(1u64 << 32, 0, 0, 0, b"bad")],
            _ => vec![a(), overflow()],
        };
        let c = compiler();
        let job = make_job(&c, caps());
        let admitted = admit_job(&job, &c).unwrap();
        let res = result(admitted.identity, 1, write_seq(nodes).unwrap());
        let outcome = validate(&res, admitted, None);
        if case == 11 {
            assert!(outcome.is_ok());
        } else {
            assert!(outcome.is_err(), "case {case}");
        }
    }
}

#[test]
fn every_job_limit_is_positive_and_cannot_raise_independent_host_caps() {
    let host = RunLimits::default();
    let h = host.compiler;
    let host_caps = [
        h.source_bytes as u64,
        h.modules as u64,
        h.diagnostics as u64,
        h.sequence_length as u64,
        h.validation_visits as u64,
        host.artifact_bytes as u64,
        host.artifact_nodes as u64,
        host.artifact_depth as u64,
        host.budget,
        host.arena_nodes as u64,
        host.frames as u64,
    ];
    let c = compiler();
    for i in 0..11 {
        for value in [0, host_caps[i] + 1] {
            let mut limits = caps();
            limits[i] = value;
            let j = make_job(&c, limits);
            assert!(admit_job(&j, &c).err().unwrap().contains("unsupported job limit"), "field {i}");
        }
    }
    // Limits below what this job needs, where admission decides: the source
    // bytes and the visit allowance.
    for (i, value) in [(0, 6), (4, 1)] {
        let mut limits = caps();
        limits[i] = value;
        let j = make_job(&c, limits);
        assert!(admit_job(&j, &c).is_err(), "field {i}");
    }
}
