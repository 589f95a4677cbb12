//! Decisions of an artifact run: what it admits before executing, which
//! limits the execution gets, and when its time is up.
use vstd::prelude::*;
use std::time::{Duration, Instant};
use crate::limits::{RunLimits, JobLimits, DEFAULT_ARENA_NODES, limit_message};
use crate::noun::Noun;
use crate::reader::{Reader, Clock, on_time, late_msg};
use crate::job::{sp_program, program};
use crate::text::text;

verus! {

/// Admits a run: valid limits, and program and input within the artifact size.
pub fn check_run(limits: RunLimits, program_len: usize, input_len: usize) -> (r: Result<(), String>)
    ensures
        match limits.first_violation() {
            Some((name, max)) => r matches Err(e) && e@ == limit_message(name, max),
            None => if program_len > limits.artifact_bytes || input_len > limits.artifact_bytes {
                r matches Err(e) && e@ == "input file size limit"@
            } else {
                r is Ok
            },
        },
{
    limits.validate()?;
    if program_len > limits.artifact_bytes || input_len > limits.artifact_bytes {
        return Err(text("input file size limit"));
    }
    Ok(())
}

/// Whether the run needs the large arena: more nodes allowed than the default.
pub fn large_arena(limits: RunLimits) -> (r: bool)
    ensures
        r == (limits.arena_nodes > DEFAULT_ARENA_NODES),
{
    limits.arena_nodes > DEFAULT_ARENA_NODES
}

/// The reduction budget and evaluator frames of an execution: the admitted
/// job's when there is one, else the host's.
pub fn execution_bounds(job: Option<&JobLimits>, limits: RunLimits) -> (r: (u64, u32))
    ensures
        match job {
            Some(j) => r == (j.reductions, j.evaluator_frames),
            None => r == (limits.budget, limits.frames),
        },
{
    match job {
        Some(j) => (j.reductions, j.evaluator_frames),
        None => (limits.budget, limits.frames),
    }
}

/// The message of a failed ART1 admission.
pub open spec fn art1_msg(e: Seq<char>) -> Seq<char> {
    "ART1 admission: "@ + e
}

/// The outcome is the deadline refusal of an ART1 admission.
pub open spec fn late_art1<T>(r: Result<T, String>) -> bool {
    r matches Err(m) && m@ == art1_msg(late_msg())
}

/// Admits the ART1 program of a run: its formula, its profile, and the
/// validation visits it spent of the host's allowance.
pub fn admit_program<'a>(root: &'a Noun, limits: RunLimits, clock: Option<Clock>) -> (r: Result<(&'a Noun, u64, u32), String>)
    ensures
        (clock is None || !late_art1(r)) ==> match sp_program(*root, limits.compiler.validation_visits).0 {
            Ok((formula, profile)) => r is Ok && *r->Ok_0.0 == formula && r->Ok_0.1 == profile
                && r->Ok_0.2 == limits.compiler.validation_visits - sp_program(*root, limits.compiler.validation_visits).1,
            Err(e) => r matches Err(m) && m@ == art1_msg(e),
        },
{
    let mut reader = Reader { remaining: limits.compiler.validation_visits, sequence_limit: limits.compiler.sequence_length, clock };
    match program(&mut reader, root) {
        Ok((formula, profile)) => Ok((formula, profile, limits.compiler.validation_visits - reader.remaining)),
        Err(e) => {
            let mut m = text("ART1 admission: ");
            m.append(e.as_str());
            Err(m)
        },
    }
}

/// Admits the compiler of a job package: an ART1 program with profile 1.
/// Gives the validation visits it spent of the host's allowance.
pub fn admit_pack_compiler(root: &Noun, host: RunLimits, clock: Option<Clock>) -> (r: Result<u32, String>)
    ensures
        on_time(clock, r) ==> match sp_program(*root, host.compiler.validation_visits).0 {
            Ok((_, profile)) => if profile != 1 {
                r matches Err(m) && m@ == "pack-job requires compiler profile(1,1)"@
            } else {
                r == Ok::<u32, String>((host.compiler.validation_visits - sp_program(*root, host.compiler.validation_visits).1) as u32)
            },
            Err(e) => r matches Err(m) && m@ == e,
        },
{
    let mut reader = Reader { remaining: host.compiler.validation_visits, sequence_limit: host.compiler.sequence_length, clock };
    let (_, profile) = program(&mut reader, root)?;
    if profile != 1 {
        return Err(text("pack-job requires compiler profile(1,1)"));
    }
    Ok(host.compiler.validation_visits - reader.remaining)
}

/// A run's time is up once `elapsed_ms` reaches its time limit.
pub fn deadline_after(elapsed_ms: u128, limits: RunLimits) -> (r: Result<(), String>)
    ensures
        elapsed_ms >= limits.time_ms ==> (r matches Err(e) && e@ == "execution deadline exceeded"@),
        elapsed_ms < limits.time_ms ==> r is Ok,
{
    if elapsed_ms >= limits.time_ms as u128 {
        return Err(text("execution deadline exceeded"));
    }
    Ok(())
}

#[verifier::external_type_specification]
#[verifier::external_body]
pub struct ExInstant(Instant);

/// `Instant::elapsed`: the time since `start`. It reads the clock: nothing
/// is stated of its value.
#[verifier::external_body]
pub(crate) fn elapsed_since(start: &Instant) -> (d: Duration) {
    start.elapsed()
}

/// `Duration::as_millis`: the whole milliseconds of a duration. Nothing is
/// stated of a duration's value, so nothing is stated of this one either.
#[verifier::external_body]
pub(crate) fn whole_millis(d: &Duration) -> (ms: u128) {
    d.as_millis()
}

/// Whether a run started at `start` is past its time limit. The elapsed time
/// is read from the clock, so the outcome depends on it; elapsed time is never
/// negative, so a zero time limit has always passed.
pub fn deadline(start: &Instant, limits: RunLimits) -> (r: Result<(), String>)
    ensures
        r is Ok || (r matches Err(e) && e@ == "execution deadline exceeded"@),
        r is Ok ==> limits.time_ms > 0,
{
    let elapsed = whole_millis(&elapsed_since(start));
    deadline_after(elapsed, limits)
}

} // verus!
