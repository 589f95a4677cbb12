//! What runs and packs report, and which bytes an artifact run publishes.
use vstd::prelude::*;
use crate::limits::{RunLimits, CompilerCaps, JobLimits, limit_message};
use crate::run::check_run;
use crate::job::ModuleReport;
use crate::job_result::{CompilerReport, Diagnostic};
use crate::manifest::Options;
use crate::text::{text, push_decimal, spec_decimal};

verus! {

/// What an artifact run reports.
pub struct RunReport {
    pub program_particle: String,
    pub input_particle: String,
    pub output_particle: String,
    pub charged_reductions: u64,
    pub allocated_nodes: u32,
    pub peak_frames: u32,
    pub arena_reserved_bytes: usize,
    pub frame_buffer_bytes: usize,
    pub worker_stack_bytes: usize,
    pub elapsed_micros: u128,
    pub trace_mode: String,
    pub compiler_job: Option<CompilerReport>,
}

/// An artifact run: the encoded output, the encoded generated program of a
/// successful compiler job, and the report.
pub struct RunResult {
    pub output: Vec<u8>,
    pub compiled: Option<Vec<u8>>,
    pub report: RunReport,
}

/// What packing a compiler job reports.
pub struct PackReport {
    pub compiler_particle: String,
    pub job_particle: String,
    pub package_particle: String,
    pub modules: Vec<ModuleReport>,
    pub entry_module: String,
    pub entry_function: String,
    pub options: Options,
    pub limits: JobLimits,
    pub validation_visits: u32,
}

/// A packed compiler job: its encoded bytes and its report.
pub struct PackedJob {
    pub bytes: Vec<u8>,
    pub report: PackReport,
}

/// What an artifact run publishes.
pub enum Emit {
    Result,
    Program,
}

/// One diagnostic as the failure of a program publication lists it.
pub open spec fn diagnostic_line(d: Diagnostic) -> Seq<char> {
    "code"@ + spec_decimal(d.code as nat) + " module"@ + spec_decimal(d.module_index as nat) + " ["@
        + spec_decimal(d.start_byte as nat) + ".."@ + spec_decimal(d.end_byte as nat) + "): "@ + d.message@
}

/// The diagnostics joined with `"; "`.
pub open spec fn diagnostic_lines(ds: Seq<Diagnostic>) -> Seq<char>
    decreases ds.len(),
{
    if ds.len() == 0 {
        Seq::empty()
    } else if ds.len() == 1 {
        diagnostic_line(ds[0])
    } else {
        diagnostic_lines(ds.drop_last()) + "; "@ + diagnostic_line(ds.last())
    }
}

fn push_diagnostic(s: &mut String, d: &Diagnostic)
    ensures
        final(s)@ == old(s)@ + diagnostic_line(*d),
{
    s.append("code");
    push_decimal(s, d.code as u64);
    s.append(" module");
    push_decimal(s, d.module_index as u64);
    s.append(" [");
    push_decimal(s, d.start_byte as u64);
    s.append("..");
    push_decimal(s, d.end_byte as u64);
    s.append("): ");
    s.append(d.message.as_str());
}

/// The message of a compiler job that produced no program.
pub fn compile_failure(diagnostics: &Vec<Diagnostic>) -> (r: String)
    ensures
        r@ == "guest compilation failed: "@ + diagnostic_lines(diagnostics@),
{
    let mut s = text("guest compilation failed: ");
    let ghost start = s@;
    let mut i: usize = 0;
    while i < diagnostics.len()
        invariant
            i <= diagnostics@.len(),
            s@ == start + diagnostic_lines(diagnostics@.take(i as int)),
        decreases diagnostics@.len() - i,
    {
        if i > 0 {
            s.append("; ");
        }
        push_diagnostic(&mut s, &diagnostics[i]);
        proof {
            let t = diagnostics@.take(i as int + 1);
            assert(t.drop_last() =~= diagnostics@.take(i as int));
            assert(t.last() == diagnostics@[i as int]);
            if i == 0 {
                assert(diagnostics@.take(0) =~= Seq::<Diagnostic>::empty());
            }
        }
        i = i + 1;
    }
    assert(diagnostics@.take(diagnostics@.len() as int) =~= diagnostics@);
    s
}

/// The bytes and particle an artifact run publishes: the output noun, or the
/// program a compiler job generated.
pub fn publication<'a>(emit: &Emit, result: &'a RunResult) -> (r: Result<(&'a Vec<u8>, &'a String), String>)
    ensures
        emit is Result ==> (r matches Ok((b, p)) && *b == result.output && *p == result.report.output_particle),
        emit is Program && result.report.compiler_job is None ==> (r matches Err(e)
            && e@ == "--emit program requires compiler profile(1,1)"@),
        emit is Program && result.report.compiler_job is Some && result.compiled is None ==> (r matches Err(e)
            && e@ == "guest compilation failed: "@ + diagnostic_lines(result.report.compiler_job->Some_0.diagnostics@)),
        emit is Program && result.report.compiler_job is Some && result.compiled is Some
            && result.report.compiler_job->Some_0.compiled_particle is None ==> (r matches Err(e)
            && e@ == "missing compiled particle"@),
        emit is Program && result.report.compiler_job is Some && result.compiled is Some
            && result.report.compiler_job->Some_0.compiled_particle is Some ==> (r matches Ok((b, p))
            && *b == result.compiled->Some_0 && *p == result.report.compiler_job->Some_0.compiled_particle->Some_0),
{
    match emit {
        Emit::Result => Ok((&result.output, &result.report.output_particle)),
        Emit::Program => {
            let job = match &result.report.compiler_job {
                Some(j) => j,
                None => {
                    return Err(text("--emit program requires compiler profile(1,1)"));
                },
            };
            let bytes = match &result.compiled {
                Some(b) => b,
                None => {
                    return Err(compile_failure(&job.diagnostics));
                },
            };
            match &job.compiled_particle {
                Some(p) => Ok((bytes, p)),
                None => Err(text("missing compiled particle")),
            }
        },
    }
}

/// Errors of the command line.
pub enum JoyError {
    Compile(String),
    Parse(String),
    Execute(String),
    Io(String),
}

pub open spec fn spec_joy_error(e: JoyError) -> Seq<char> {
    match e {
        JoyError::Compile(m) => "compile error: "@ + m@,
        JoyError::Parse(m) => "parse error: "@ + m@,
        JoyError::Execute(m) => "execution error: "@ + m@,
        JoyError::Io(m) => "I/O error: "@ + m@,
    }
}

impl JoyError {
    /// How the error is displayed.
    pub fn message(&self) -> (r: String)
        ensures
            r@ == spec_joy_error(*self),
    {
        let (mut s, m) = match self {
            JoyError::Compile(m) => (text("compile error: "), m),
            JoyError::Parse(m) => (text("parse error: "), m),
            JoyError::Execute(m) => (text("execution error: "), m),
            JoyError::Io(m) => (text("I/O error: "), m),
        };
        s.append(m.as_str());
        s
    }
}

/// The limits a command line gives an artifact run.
pub struct LimitArgs {
    pub budget: u64,
    pub arena_nodes: u32,
    pub frames: u32,
    pub artifact_bytes: usize,
    pub artifact_nodes: u32,
    pub artifact_depth: u32,
    pub time_ms: u64,
    pub source_bytes: u32,
    pub modules: u32,
    pub diagnostics: u32,
    pub sequence_length: u32,
    pub validation_visits: u32,
}

impl LimitArgs {
    /// The run limits the arguments name, field for field.
    pub open spec fn as_limits(&self) -> RunLimits {
        RunLimits {
            budget: self.budget,
            arena_nodes: self.arena_nodes,
            frames: self.frames,
            artifact_bytes: self.artifact_bytes,
            artifact_nodes: self.artifact_nodes,
            artifact_depth: self.artifact_depth,
            time_ms: self.time_ms,
            compiler: CompilerCaps {
                source_bytes: self.source_bytes,
                modules: self.modules,
                diagnostics: self.diagnostics,
                sequence_length: self.sequence_length,
                validation_visits: self.validation_visits,
            },
        }
    }

    /// The run limits the arguments name.
    pub fn values(&self) -> (r: RunLimits)
        ensures
            r == self.as_limits(),
            r.budget == self.budget,
            r.arena_nodes == self.arena_nodes,
            r.frames == self.frames,
            r.artifact_bytes == self.artifact_bytes,
            r.artifact_nodes == self.artifact_nodes,
            r.artifact_depth == self.artifact_depth,
            r.time_ms == self.time_ms,
            r.compiler.source_bytes == self.source_bytes,
            r.compiler.modules == self.modules,
            r.compiler.diagnostics == self.diagnostics,
            r.compiler.sequence_length == self.sequence_length,
            r.compiler.validation_visits == self.validation_visits,
    {
        RunLimits {
            budget: self.budget,
            arena_nodes: self.arena_nodes,
            frames: self.frames,
            artifact_bytes: self.artifact_bytes,
            artifact_nodes: self.artifact_nodes,
            artifact_depth: self.artifact_depth,
            time_ms: self.time_ms,
            compiler: CompilerCaps {
                source_bytes: self.source_bytes,
                modules: self.modules,
                diagnostics: self.diagnostics,
                sequence_length: self.sequence_length,
                validation_visits: self.validation_visits,
            },
        }
    }
}


/// A `joy run-artifact` request; paths are kept as text.
pub struct RunArgs {
    pub program: String,
    pub input: String,
    pub output: String,
    pub force: bool,
    pub emit: Emit,
    pub limits: LimitArgs,
}

impl RunArgs {
    /// Admits the run of a program and an input of the given sizes.
    pub fn check(&self, program_len: usize, input_len: usize) -> (r: Result<(), String>)
        ensures
            match self.limits.as_limits().first_violation() {
                Some((name, max)) => r matches Err(e) && e@ == limit_message(name, max),
                None => if program_len > self.limits.artifact_bytes || input_len > self.limits.artifact_bytes {
                    r matches Err(e) && e@ == "input file size limit"@
                } else {
                    r is Ok
                },
            },
    {
        check_run(self.limits.values(), program_len, input_len)
    }
}

/// A `joy pack` request; paths are kept as text.
pub struct PackArgs {
    pub compiler: String,
    pub manifest: String,
    pub output: String,
    pub force: bool,
    pub limits: LimitArgs,
}

} // verus!
