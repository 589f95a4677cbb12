//! The nox warrior's decisions around a reduction: which bundles and inputs
//! it runs, what it says when a reduction stops, and how it reads a trace.
use vstd::prelude::*;
use crate::noun::{Noun, P};
use crate::text::{text, push_decimal, spec_decimal};

verus! {

/// Default reduction budget: bounds trace rows one-to-one.
pub const DEFAULT_BUDGET: u64 = 1_000_000;

/// The nox warrior, with the reduction budget it runs under.
pub struct Warrior {
    budget: u64,
}

impl Warrior {
    /// The reduction budget.
    pub closed spec fn spec_budget(&self) -> u64 {
        self.budget
    }

    /// A warrior with the default budget.
    pub fn new() -> (w: Self)
        ensures
            w.spec_budget() == DEFAULT_BUDGET,
    {
        Warrior { budget: DEFAULT_BUDGET }
    }

    /// A warrior with the given budget.
    pub fn with_budget(budget: u64) -> (w: Self)
        ensures
            w.spec_budget() == budget,
    {
        Warrior { budget }
    }

    /// The reduction budget.
    pub fn budget(&self) -> (b: u64)
        ensures
            b == self.spec_budget(),
    {
        self.budget
    }

    /// Re-execution verification: the executed output is the claimed one.
    pub fn verify_by_rerun(&self, output: &[u64], claim: &[u64]) -> (r: bool)
        ensures
            r == (output@ == claim@),
    {
        if output.len() != claim.len() {
            return false;
        }
        let mut i: usize = 0;
        while i < output.len()
            invariant
                i <= output@.len(),
                output@.len() == claim@.len(),
                forall|k: int| 0 <= k < i ==> output@[k] == claim@[k],
            decreases output@.len() - i,
        {
            if output[i] != claim[i] {
                return false;
            }
            i = i + 1;
        }
        assert(output@ =~= claim@);
        true
    }
}

impl Default for Warrior {
    fn default() -> (w: Self)
        ensures
            w.spec_budget() == DEFAULT_BUDGET,
    {
        Warrior::new()
    }
}

/// The message for a bundle that targets another machine.
pub open spec fn foreign_target_msg(vm: Seq<char>) -> Seq<char> {
    "joy runs nox bundles; this bundle targets '"@ + vm + "' (use trisha for triton)"@
}

/// Admits a bundle for a run: it targets nox and brings no digest input.
pub fn check_bundle(target_vm: &str, digests: usize) -> (r: Result<(), String>)
    ensures
        target_vm@ != "nox"@ ==> (r matches Err(e) && e@ == foreign_target_msg(target_vm@)),
        target_vm@ == "nox"@ && digests > 0 ==> (r matches Err(e)
            && e@ == "nox has no digest input stream (merkle_step is a Triton concept)"@),
        target_vm@ == "nox"@ && digests == 0 ==> r is Ok,
{
    if !is_nox(target_vm) {
        let mut e = text("joy runs nox bundles; this bundle targets '");
        e.append(target_vm);
        e.append("' (use trisha for triton)");
        return Err(e);
    }
    if digests > 0 {
        return Err(text("nox has no digest input stream (merkle_step is a Triton concept)"));
    }
    Ok(())
}

/// Whether the text is `nox`.
pub fn is_nox(s: &str) -> (r: bool)
    ensures
        r == (s@ == "nox"@),
{
    proof {
        reveal_strlit("nox");
    }
    let eq = crate::ordering::str_eq(s, "nox");
    proof {
        vstd::utf8::encode_utf8_decode_utf8(s@);
        vstd::utf8::encode_utf8_decode_utf8("nox"@);
    }
    eq
}

/// How a nox reduction failed.
pub enum ReductionError {
    TypeError,
    AxisError,
    InvZero,
    Unavailable,
    Malformed,
    CallRejected,
}

pub open spec fn spec_describe(kind: ReductionError) -> Seq<char> {
    match kind {
        ReductionError::TypeError => "type error (atom/pair mismatch)"@,
        ReductionError::AxisError => "axis out of range"@,
        ReductionError::InvZero => "inverse of zero"@,
        ReductionError::Unavailable => "arena full or resource unavailable"@,
        ReductionError::Malformed => "malformed formula"@,
        ReductionError::CallRejected => "call witness rejected by check formula"@,
    }
}

/// What a reduction error is reported as.
pub fn describe(kind: &ReductionError) -> (r: String)
    ensures
        r@ == spec_describe(*kind),
{
    match kind {
        ReductionError::TypeError => text("type error (atom/pair mismatch)"),
        ReductionError::AxisError => text("axis out of range"),
        ReductionError::InvZero => text("inverse of zero"),
        ReductionError::Unavailable => text("arena full or resource unavailable"),
        ReductionError::Malformed => text("malformed formula"),
        ReductionError::CallRejected => text("call witness rejected by check formula"),
    }
}

/// The message of a failed reduction.
pub fn reduction_error(kind: &ReductionError) -> (r: String)
    ensures
        r@ == "reduction error: "@ + spec_describe(*kind),
{
    let mut m = text("reduction error: ");
    let d = describe(kind);
    m.append(d.as_str());
    m
}

/// The message of a halted reduction.
pub fn halted_message(remaining: u64) -> (r: String)
    ensures
        r@ == "execution halted (budget remaining: "@ + spec_decimal(remaining as nat)
            + ") — out of budget, or a call pattern had no witness (secret inputs exhausted)"@,
{
    let mut m = text("execution halted (budget remaining: ");
    push_decimal(&mut m, remaining);
    m.append(") — out of budget, or a call pattern had no witness (secret inputs exhausted)");
    m
}

/// Row `i` starts a hash block: a run of at least two tag-15 rows.
pub open spec fn is_block_start(tags: Seq<u64>, i: int) -> bool {
    &&& 0 <= i < tags.len() - 1
    &&& tags[i] == 15
    &&& tags[i + 1] == 15
    &&& (i == 0 || tags[i - 1] != 15)
}

/// The first rows of the hash blocks of a trace, in order: each run of at
/// least two tag-15 rows is one block; a single tag-15 row is none.
pub fn hash_blocks(tags: &[u64]) -> (r: Vec<usize>)
    ensures
        forall|k: int| 0 <= k < r@.len() ==> is_block_start(tags@, #[trigger] r@[k] as int),
        forall|i: int| is_block_start(tags@, i) ==> exists|k: int| 0 <= k < r@.len() && #[trigger] r@[k] == i,
        forall|k: int, l: int| 0 <= k < l < r@.len() ==> r@[k] < r@[l],
{
    let mut out: Vec<usize> = Vec::new();
    let mut i: usize = 0;
    while i < tags.len()
        invariant
            i <= tags@.len(),
            i > 0 && i < tags@.len() ==> tags@[i - 1] != 15 || tags@[i as int] != 15,
            forall|k: int| 0 <= k < out@.len() ==> is_block_start(tags@, #[trigger] out@[k] as int) && out@[k] < i,
            forall|j: int| 0 <= j < i && is_block_start(tags@, j) ==> exists|k: int| 0 <= k < out@.len() && #[trigger] out@[k] == j,
            forall|k: int, l: int| 0 <= k < l < out@.len() ==> out@[k] < out@[l],
        decreases tags@.len() - i,
    {
        if tags[i] != 15 {
            i = i + 1;
            assert forall|j: int| 0 <= j < i && is_block_start(tags@, j) implies exists|k: int| 0 <= k < out@.len() && #[trigger] out@[k] == j by {
                if j == i - 1 {
                    assert(tags@[j] != 15);
                }
            }
            continue;
        }
        let start = i;
        let ghost before = out@;
        assert(start > 0 ==> tags@[start - 1] != 15);
        while i < tags.len() && tags[i] == 15
            invariant
                start <= i <= tags@.len(),
                forall|j: int| start <= j < i ==> tags@[j] == 15,
            decreases tags@.len() - i,
        {
            i = i + 1;
        }
        if i - start >= 2 {
            assert(is_block_start(tags@, start as int));
            out.push(start);
        }
        assert forall|j: int| 0 <= j < i && is_block_start(tags@, j) implies exists|k: int| 0 <= k < out@.len() && #[trigger] out@[k] == j by {
            if j > start as int {
                assert(tags@[j - 1] == 15);
            } else if j == start as int {
                assert(out@[out@.len() - 1] == j);
            } else {
                let k = choose|k: int| 0 <= k < before.len() && #[trigger] before[k] == j;
                assert(out@[k] == before[k]);
            }
        }
    }
    out
}

} // verus!
