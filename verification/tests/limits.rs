use joy::limits::{CompilerCaps, JobLimits, RunLimits};
use joy::manifest::{normalize, Manifest, ModuleFile, Options};
use joy::names::{identifier, is_module_path, label};

#[test]
fn default_limits_are_valid() {
    assert!(RunLimits::default().validate().is_ok());
    assert!(CompilerCaps::default().validate().is_ok());
}

#[test]
fn each_host_limit_names_its_range() {
    let mut l = RunLimits::default();
    l.budget = 0;
    assert_eq!(l.validate().unwrap_err(), "limit budget must be in 1..=100000000");
    let mut l = RunLimits::default();
    l.arena_nodes = 786_433;
    assert_eq!(l.validate().unwrap_err(), "limit arena_nodes must be in 1..=786432");
    let mut l = RunLimits::default();
    l.time_ms = 60_001;
    assert_eq!(l.validate().unwrap_err(), "limit time_ms must be in 1..=60000");
    let mut l = RunLimits::default();
    l.arena_nodes = 786_432;
    assert!(l.validate().is_ok());
    let mut l = RunLimits::default();
    l.compiler.sequence_length = 0;
    assert!(l.validate().unwrap_err().starts_with("limit sequence_length must be in 1..="));
}

fn request() -> [u64; 11] {
    [100, 10, 10, 100, 1000, 1000, 1000, 64, 1000, 1000, 64]
}

#[test]
fn job_limits_are_admitted_field_by_field() {
    let j = JobLimits::admit_limits(request(), RunLimits::default()).unwrap();
    assert_eq!(j.values(), request());
    let mut r = request();
    r[3] = 0;
    assert_eq!(JobLimits::admit_limits(r, RunLimits::default()).unwrap_err(), "unsupported job limit at LIM1 field 3");
    let mut r = request();
    r[8] = 100_000_001;
    assert_eq!(JobLimits::admit_limits(r, RunLimits::default()).unwrap_err(), "unsupported job limit at LIM1 field 8");
    let mut r = request();
    r[0] = 4_194_305;
    assert_eq!(JobLimits::admit_limits(r, RunLimits::default()).unwrap_err(), "unsupported job limit at LIM1 field 0");
}

#[test]
fn names_paths_and_labels() {
    assert!(identifier("_main1"));
    assert!(!identifier("1demo"));
    assert!(!identifier(""));
    assert!(is_module_path("a.b.c"));
    assert!(!is_module_path("a..b"));
    assert!(!is_module_path("../demo"));
    assert!(label("1.0 beta"));
    assert!(!label("bad\n"));
    assert!(!label(""));
    assert!(!identifier(&"a".repeat(256)));
}

fn module(path: &str) -> ModuleFile {
    ModuleFile {
        logical_path: path.to_string(),
        file: String::new(),
        origin_name: "dep".to_string(),
        origin_version: "1".to_string(),
    }
}

fn manifest() -> Manifest {
    Manifest {
        version: 1,
        entry_module: "main".to_string(),
        entry_function: "run".to_string(),
        modules: vec![module("main"), module("a.util")],
        options: Options {
            target: 0,
            input_profile: 0,
            output_profile: 0,
            optimization: 0,
            cfg_flags: vec!["release".to_string(), "debug".to_string()],
        },
        limits: JobLimits::admit_limits(request(), RunLimits::default()).unwrap(),
    }
}

#[test]
fn manifests_normalize_to_canonical_order() {
    let mut m = manifest();
    normalize(&mut m, RunLimits::default()).unwrap();
    assert_eq!(m.modules[0].logical_path, "a.util");
    assert_eq!(m.modules[1].logical_path, "main");
    assert_eq!(m.options.cfg_flags, vec!["debug".to_string(), "release".to_string()]);
}

#[test]
fn manifest_faults_are_named() {
    let mut m = manifest();
    m.version = 2;
    assert_eq!(normalize(&mut m, RunLimits::default()).unwrap_err(), "unsupported package manifest version");
    let mut m = manifest();
    m.modules.push(module("main"));
    assert_eq!(normalize(&mut m, RunLimits::default()).unwrap_err(), "package module name/duplicate");
    let mut m = manifest();
    m.entry_module = "absent".to_string();
    assert_eq!(normalize(&mut m, RunLimits::default()).unwrap_err(), "package entry module absent");
    let mut m = manifest();
    m.entry_module = "1x".to_string();
    assert_eq!(normalize(&mut m, RunLimits::default()).unwrap_err(), "package entry identifier");
    let mut m = manifest();
    m.options.optimization = 1;
    assert_eq!(normalize(&mut m, RunLimits::default()).unwrap_err(), "unsupported package option");
    let mut m = manifest();
    m.options.cfg_flags.push("debug".to_string());
    assert_eq!(normalize(&mut m, RunLimits::default()).unwrap_err(), "cfg name/duplicate");
    let mut m = manifest();
    m.modules[0].origin_name = "a\tb".to_string();
    assert_eq!(normalize(&mut m, RunLimits::default()).unwrap_err(), "package origin label");
    let mut m = manifest();
    m.limits.modules = 1;
    assert_eq!(normalize(&mut m, RunLimits::default()).unwrap_err(), "package module count limit");
}

#[test]
fn the_first_failing_module_names_its_first_failing_rule() {
    // One module breaks both rules: the name rule is reported.
    let mut m = manifest();
    m.modules[1].logical_path = "1bad".to_string();
    m.modules[1].origin_name = "a\tb".to_string();
    assert_eq!(normalize(&mut m, RunLimits::default()).unwrap_err(), "package module name/duplicate");
    // The label fault of an earlier module (in sorted order) comes before a later name fault.
    let mut m = manifest();
    m.modules[1].origin_name = "a\tb".to_string(); // "a.util", first once sorted
    m.modules[0].logical_path = "z..".to_string();
    assert_eq!(normalize(&mut m, RunLimits::default()).unwrap_err(), "package origin label");
}
