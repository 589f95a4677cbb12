//! Host execution ceilings and the exact LIM1 job-limit request.
use vstd::prelude::*;
use crate::text::{spec_decimal, text, push_decimal};

verus! {

/// Largest arena allowance of the large worker arena (three quarters of 2^20 nodes).
pub const MAX_ARENA_NODES: u32 = 786432;

/// Default arena allowance (three quarters of 2^18 nodes).
pub const DEFAULT_ARENA_NODES: u32 = 196608;

/// Whether `value` lies in `1..=max`.
pub open spec fn in_limit(value: int, max: int) -> bool {
    1 <= value && value <= max
}

/// The message of a refused host limit: `limit {name} must be in 1..={max}`.
pub open spec fn limit_message(name: Seq<char>, max: nat) -> Seq<char> {
    "limit "@ + name + " must be in 1..="@ + spec_decimal(max)
}

/// The message of a refused job limit: `unsupported job limit at LIM1 field {i}`.
pub open spec fn job_limit_message(i: nat) -> Seq<char> {
    "unsupported job limit at LIM1 field "@ + spec_decimal(i)
}

/// Builds the host-limit refusal message.
pub fn limit_error(name: &str, max: u64) -> (r: String)
    ensures
        r@ == limit_message(name@, max as nat),
{
    let mut s = text("limit ");
    s.append(name);
    s.append(" must be in 1..=");
    push_decimal(&mut s, max);
    s
}

/// Independent host admission ceilings for the compiler schema.
#[derive(Debug, Clone, Copy)]
pub struct CompilerCaps {
    pub source_bytes: u32,
    pub modules: u32,
    pub diagnostics: u32,
    pub sequence_length: u32,
    pub validation_visits: u32,
}

impl CompilerCaps {
    /// The first cap outside its hard range, with its name and maximum.
    pub open spec fn first_violation(self) -> Option<(Seq<char>, nat)> {
        if !in_limit(self.source_bytes as int, 16777216) {
            Some(("source_bytes"@, 16777216nat))
        } else if !in_limit(self.modules as int, 65536) {
            Some(("modules"@, 65536nat))
        } else if !in_limit(self.diagnostics as int, 65536) {
            Some(("diagnostics"@, 65536nat))
        } else if !in_limit(self.sequence_length as int, 1048576) {
            Some(("sequence_length"@, 1048576nat))
        } else if !in_limit(self.validation_visits as int, 16777216) {
            Some(("validation_visits"@, 16777216nat))
        } else {
            None
        }
    }

    /// Accepts the caps when each lies in its hard range; otherwise names the first that does not.
    pub fn validate(self) -> (r: Result<(), String>)
        ensures
            match self.first_violation() {
                None => r is Ok,
                Some((name, max)) => r matches Err(e) && e@ == limit_message(name, max),
            },
    {
        if self.source_bytes == 0 || self.source_bytes > 16777216 {
            return Err(limit_error("source_bytes", 16777216));
        }
        if self.modules == 0 || self.modules > 65536 {
            return Err(limit_error("modules", 65536));
        }
        if self.diagnostics == 0 || self.diagnostics > 65536 {
            return Err(limit_error("diagnostics", 65536));
        }
        if self.sequence_length == 0 || self.sequence_length > 1048576 {
            return Err(limit_error("sequence_length", 1048576));
        }
        if self.validation_visits == 0 || self.validation_visits > 16777216 {
            return Err(limit_error("validation_visits", 16777216));
        }
        Ok(())
    }
}

impl Default for CompilerCaps {
    fn default() -> (r: Self)
        ensures
            r.source_bytes == 4194304,
            r.modules == 4096,
            r.diagnostics == 1024,
            r.sequence_length == 65536,
            r.validation_visits == 1000000,
    {
        CompilerCaps {
            source_bytes: 4194304,
            modules: 4096,
            diagnostics: 1024,
            sequence_length: 65536,
            validation_visits: 1000000,
        }
    }
}

/// Host execution limits for one artifact run.
#[derive(Debug, Clone, Copy)]
pub struct RunLimits {
    pub budget: u64,
    pub arena_nodes: u32,
    pub frames: u32,
    pub artifact_bytes: usize,
    pub artifact_nodes: u32,
    pub artifact_depth: u32,
    pub time_ms: u64,
    pub compiler: CompilerCaps,
}

impl RunLimits {
    /// The first limit outside its hard range, with its name and maximum.
    pub open spec fn first_violation(self) -> Option<(Seq<char>, nat)> {
        if !in_limit(self.budget as int, 100000000) {
            Some(("budget"@, 100000000nat))
        } else if !in_limit(self.arena_nodes as int, MAX_ARENA_NODES as int) {
            Some(("arena_nodes"@, MAX_ARENA_NODES as nat))
        } else if !in_limit(self.frames as int, 65536) {
            Some(("frames"@, 65536nat))
        } else if !in_limit(self.artifact_bytes as int, 16777216) {
            Some(("artifact_bytes"@, 16777216nat))
        } else if !in_limit(self.artifact_nodes as int, 196608) {
            Some(("artifact_nodes"@, 196608nat))
        } else if !in_limit(self.artifact_depth as int, 4096) {
            Some(("artifact_depth"@, 4096nat))
        } else if !in_limit(self.time_ms as int, 60000) {
            Some(("time_ms"@, 60000nat))
        } else {
            self.compiler.first_violation()
        }
    }

    /// Whether every limit, host and compiler, lies in its hard range.
    pub open spec fn valid(self) -> bool {
        self.first_violation() is None
    }

    /// Accepts the limits when each lies in its hard range; otherwise names the first that does not.
    pub fn validate(self) -> (r: Result<(), String>)
        ensures
            match self.first_violation() {
                None => r is Ok,
                Some((name, max)) => r matches Err(e) && e@ == limit_message(name, max),
            },
    {
        if self.budget == 0 || self.budget > 100000000 {
            return Err(limit_error("budget", 100000000));
        }
        if self.arena_nodes == 0 || self.arena_nodes > MAX_ARENA_NODES {
            return Err(limit_error("arena_nodes", 786432));
        }
        if self.frames == 0 || self.frames > 65536 {
            return Err(limit_error("frames", 65536));
        }
        if self.artifact_bytes == 0 || self.artifact_bytes > 16777216 {
            return Err(limit_error("artifact_bytes", 16777216));
        }
        if self.artifact_nodes == 0 || self.artifact_nodes > 196608 {
            return Err(limit_error("artifact_nodes", 196608));
        }
        if self.artifact_depth == 0 || self.artifact_depth > 4096 {
            return Err(limit_error("artifact_depth", 4096));
        }
        if self.time_ms == 0 || self.time_ms > 60000 {
            return Err(limit_error("time_ms", 60000));
        }
        self.compiler.validate()
    }

    /// The host ceilings in LIM1 field order.
    pub open spec fn caps(self) -> Seq<int> {
        seq![
            self.compiler.source_bytes as int,
            self.compiler.modules as int,
            self.compiler.diagnostics as int,
            self.compiler.sequence_length as int,
            self.compiler.validation_visits as int,
            self.artifact_bytes as int,
            self.artifact_nodes as int,
            self.artifact_depth as int,
            self.budget as int,
            self.arena_nodes as int,
            self.frames as int,
        ]
    }
}

impl Default for RunLimits {
    fn default() -> (r: Self)
        ensures
            r.budget == 1000000,
            r.arena_nodes == DEFAULT_ARENA_NODES,
            r.frames == 16384,
            r.artifact_bytes == 16777216,
            r.artifact_nodes == 196608,
            r.artifact_depth == 4096,
            r.time_ms == 30000,
            r.compiler.source_bytes == 4194304,
            r.compiler.modules == 4096,
            r.compiler.diagnostics == 1024,
            r.compiler.sequence_length == 65536,
            r.compiler.validation_visits == 1000000,
    {
        RunLimits {
            budget: 1000000,
            arena_nodes: DEFAULT_ARENA_NODES,
            frames: 16384,
            artifact_bytes: 16777216,
            artifact_nodes: 196608,
            artifact_depth: 4096,
            time_ms: 30000,
            compiler: CompilerCaps::default(),
        }
    }
}

/// Exact admitted LIM1 request. Integer conversion follows range checking.
#[derive(Debug, Clone, Copy)]
pub struct JobLimits {
    pub source_bytes: u32,
    pub modules: u32,
    pub diagnostics: u32,
    pub sequence_length: u32,
    pub validation_visits: u32,
    pub artifact_bytes: u32,
    pub artifact_nodes: u32,
    pub artifact_depth: u32,
    pub reductions: u64,
    pub arena_nodes: u32,
    pub evaluator_frames: u32,
}

/// Whether a requested LIM1 field is admitted under its host cap.
pub open spec fn field_admitted(i: int, value: int, cap: int) -> bool {
    value != 0 && value <= cap && (i == 8 || value <= u32::MAX)
}

/// Whether every requested LIM1 field is admitted under the host caps.
pub open spec fn all_admitted(values: Seq<u64>, caps: Seq<int>) -> bool {
    forall|i: int| 0 <= i < 11 ==> #[trigger] field_admitted(i, values[i] as int, caps[i])
}

/// Index of the first refused LIM1 field.
pub open spec fn first_refused(values: Seq<u64>, caps: Seq<int>) -> int {
    choose|i: int| 0 <= i < 11 && !field_admitted(i, values[i] as int, caps[i])
        && (forall|k: int| 0 <= k < i ==> field_admitted(k, values[k] as int, caps[k]))
}

/// The first refused field is unique and exists when not every field is admitted.
pub proof fn lemma_first_refused(values: Seq<u64>, caps: Seq<int>, i: int)
    requires
        0 <= i < 11,
        !field_admitted(i, values[i] as int, caps[i]),
        forall|k: int| 0 <= k < i ==> field_admitted(k, values[k] as int, caps[k]),
    ensures
        first_refused(values, caps) == i,
{
    let j = first_refused(values, caps);
    assert(0 <= j < 11 && !field_admitted(j, values[j] as int, caps[j])
        && (forall|k: int| 0 <= k < j ==> field_admitted(k, values[k] as int, caps[k])));
    if j < i {
        assert(field_admitted(j, values[j] as int, caps[j]));
    } else if i < j {
        assert(field_admitted(i, values[i] as int, caps[i]));
    }
}

impl JobLimits {
    /// The limits that the eleven LIM1 fields `v` name.
    pub open spec fn from_values(v: Seq<u64>) -> JobLimits {
        JobLimits {
            source_bytes: v[0] as u32,
            modules: v[1] as u32,
            diagnostics: v[2] as u32,
            sequence_length: v[3] as u32,
            validation_visits: v[4] as u32,
            artifact_bytes: v[5] as u32,
            artifact_nodes: v[6] as u32,
            artifact_depth: v[7] as u32,
            reductions: v[8],
            arena_nodes: v[9] as u32,
            evaluator_frames: v[10] as u32,
        }
    }

    /// Limits are the limits their fields name.
    pub proof fn lemma_from_values(j: JobLimits)
        ensures
            Self::from_values(j.spec_values()) == j,
    {
    }

    /// The eleven LIM1 fields in wire order.
    pub open spec fn spec_values(self) -> Seq<u64> {
        seq![
            self.source_bytes as u64,
            self.modules as u64,
            self.diagnostics as u64,
            self.sequence_length as u64,
            self.validation_visits as u64,
            self.artifact_bytes as u64,
            self.artifact_nodes as u64,
            self.artifact_depth as u64,
            self.reductions,
            self.arena_nodes as u64,
            self.evaluator_frames as u64,
        ]
    }

    /// The eleven LIM1 fields in wire order.
    pub fn values(self) -> (r: [u64; 11])
        ensures
            r@ == self.spec_values(),
    {
        let r = [
            self.source_bytes as u64,
            self.modules as u64,
            self.diagnostics as u64,
            self.sequence_length as u64,
            self.validation_visits as u64,
            self.artifact_bytes as u64,
            self.artifact_nodes as u64,
            self.artifact_depth as u64,
            self.reductions,
            self.arena_nodes as u64,
            self.evaluator_frames as u64,
        ];
        assert(r@ =~= self.spec_values());
        r
    }

    /// Admits a LIM1 request: every field positive and within the matching host cap,
    /// and every field but the reduction count within U32. Otherwise names the
    /// first refused field.
    pub fn admit_limits(values: [u64; 11], host: RunLimits) -> (r: Result<Self, String>)
        ensures
            all_admitted(values@, host.caps()) ==> (r matches Ok(j) && j.spec_values() == values@),
            !all_admitted(values@, host.caps()) ==> (r matches Err(e)
                && e@ == job_limit_message(first_refused(values@, host.caps()) as nat)),
    {
        let c = host.compiler;
        let caps: [u64; 11] = [
            c.source_bytes as u64,
            c.modules as u64,
            c.diagnostics as u64,
            c.sequence_length as u64,
            c.validation_visits as u64,
            host.artifact_bytes as u64,
            host.artifact_nodes as u64,
            host.artifact_depth as u64,
            host.budget,
            host.arena_nodes as u64,
            host.frames as u64,
        ];
        assert(forall|i: int| 0 <= i < 11 ==> caps@[i] as int == #[trigger] host.caps()[i]);
        let mut i: usize = 0;
        while i < 11
            invariant
                i <= 11,
                forall|i: int| 0 <= i < 11 ==> caps@[i] as int == #[trigger] host.caps()[i],
                forall|k: int| 0 <= k < i ==> #[trigger] field_admitted(k, values@[k] as int, host.caps()[k]),
            decreases 11 - i,
        {
            let value = values[i];
            if value == 0 || value > caps[i] || (i != 8 && value > 4294967295u64) {
                let mut e = text("unsupported job limit at LIM1 field ");
                push_decimal(&mut e, i as u64);
                assert(!field_admitted(i as int, values@[i as int] as int, host.caps()[i as int]));
                proof {
                    lemma_first_refused(values@, host.caps(), i as int);
                }
                return Err(e);
            }
            i = i + 1;
        }
        let j = JobLimits {
            source_bytes: values[0] as u32,
            modules: values[1] as u32,
            diagnostics: values[2] as u32,
            sequence_length: values[3] as u32,
            validation_visits: values[4] as u32,
            artifact_bytes: values[5] as u32,
            artifact_nodes: values[6] as u32,
            artifact_depth: values[7] as u32,
            reductions: values[8],
            arena_nodes: values[9] as u32,
            evaluator_frames: values[10] as u32,
        };
        proof {
            assert forall|k: int| 0 <= k < 11 && k != 8 implies values@[k] <= u32::MAX by {
                assert(field_admitted(k, values@[k] as int, host.caps()[k]));
            }
        }
        assert(j.spec_values() =~= values@);
        Ok(j)
    }
}

} // verus!

verus! {

/// The hard ceilings of a valid host, in LIM1 field order.
pub open spec fn hard_caps() -> Seq<int> {
    seq![16777216, 65536, 65536, 1048576, 16777216, 16777216, 196608, 4096, 100000000, 786432, 65536]
}

/// The LIM1 fields determine the job limits: two limits that report the same
/// fields are the same limits, so admission hands back exactly what was requested.
pub proof fn law_job_limits_fields_determine(a: JobLimits, b: JobLimits)
    requires
        a.spec_values() == b.spec_values(),
    ensures
        a == b,
{
    assert(a.spec_values()[0] == b.spec_values()[0]);
    assert(a.spec_values()[1] == b.spec_values()[1]);
    assert(a.spec_values()[2] == b.spec_values()[2]);
    assert(a.spec_values()[3] == b.spec_values()[3]);
    assert(a.spec_values()[4] == b.spec_values()[4]);
    assert(a.spec_values()[5] == b.spec_values()[5]);
    assert(a.spec_values()[6] == b.spec_values()[6]);
    assert(a.spec_values()[7] == b.spec_values()[7]);
    assert(a.spec_values()[8] == b.spec_values()[8]);
    assert(a.spec_values()[9] == b.spec_values()[9]);
    assert(a.spec_values()[10] == b.spec_values()[10]);
}

/// A job request admitted by a valid host can never raise an independent host
/// ceiling: every admitted field is positive, at most the host's cap, and so at
/// most the hard ceiling of that field.
pub proof fn law_admitted_request_within_host(values: Seq<u64>, host: RunLimits)
    requires
        values.len() == 11,
        host.valid(),
        all_admitted(values, host.caps()),
    ensures
        forall|i: int| 0 <= i < 11 ==> 0 < #[trigger] values[i] && values[i] <= host.caps()[i]
            && values[i] <= hard_caps()[i],
{
    assert forall|i: int| 0 <= i < 11 implies 0 < #[trigger] values[i] && values[i] <= host.caps()[i]
        && values[i] <= hard_caps()[i] by {
        assert(field_admitted(i, values[i] as int, host.caps()[i]));
    }
}

} // verus!
