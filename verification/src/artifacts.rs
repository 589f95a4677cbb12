//! Execution-proof artifacts: their wire framing, metadata checks, claims,
//! and the requests each kind of proof accepts.
use vstd::prelude::*;
use crate::noun::{Noun, P};
use crate::text::{text, push_decimal, spec_decimal};
use crate::warrior::is_nox;

verus! {

/// Format of public execution proofs.
pub const EXECUTION_FORMAT: &'static str = "zheng-nox-public-execution-v1";
/// Format of private execution proofs.
pub const ZK_EXECUTION_FORMAT: &'static str = "joy-nox-ccs-triton7-zk-v3";
/// Format of public state execution proofs.
pub const STATE_EXECUTION_FORMAT: &'static str = "joy-nox-public-state-execution-v1";

/// Header of a public execution artifact.
pub const EXECUTION_MAGIC: [u8; 8] = [0x4a, 0x4f, 0x59, 0x45, 0x58, 0x45, 0x43, 0x31];
/// Header of a private execution artifact.
pub const ZK_MAGIC: [u8; 8] = [0x4a, 0x4f, 0x59, 0x5a, 0x4b, 0x30, 0x30, 0x33];
/// Header of a public state execution artifact.
pub const STATE_MAGIC: [u8; 8] = [0x4a, 0x4f, 0x59, 0x53, 0x54, 0x30, 0x30, 0x31];

/// Largest public execution artifact.
pub const MAX_EXECUTION_BYTES: usize = 33554432;
/// Largest private or state execution artifact.
pub const MAX_ARTIFACT_BYTES: usize = 67108864;

/// The framed bytes of a payload: its 8-byte header, then the payload,
/// when both fit in `max` bytes.
pub open spec fn spec_frame(magic: Seq<u8>, payload: Seq<u8>, max: nat) -> Option<Seq<u8>> {
    if magic.len() + payload.len() <= max { Some(magic + payload) } else { None }
}

/// The payload of framed bytes: what follows the header `magic`, when the
/// bytes fit in `max` and start with it.
pub open spec fn spec_unframe(bytes: Seq<u8>, magic: Seq<u8>, max: nat) -> Option<Seq<u8>> {
    if bytes.len() <= max && bytes.len() >= 8 && bytes.take(8) == magic { Some(bytes.skip(8)) } else { None }
}

/// Framing round trip: the payload of a framed artifact is the payload that
/// was framed, and whatever is appended to the framed bytes stays behind the
/// payload (the wire check then refuses it as trailing input). Bytes framed
/// under one header are refused under any other.
pub proof fn law_unframe_inverts_frame(magic: Seq<u8>, other: Seq<u8>, payload: Seq<u8>, extra: Seq<u8>, max: nat)
    requires
        magic.len() == 8,
        other.len() == 8,
        other != magic,
        8 + payload.len() + extra.len() <= max,
    ensures
        spec_frame(magic, payload, max) == Some(magic + payload),
        spec_unframe(magic + payload, magic, max) == Some(payload),
        spec_unframe(magic + payload + extra, magic, max) == Some(payload + extra),
        spec_unframe(magic + payload, other, max) is None,
        spec_unframe(other + payload, magic, max) is None,
{
    assert((magic + payload).take(8) =~= magic);
    assert((magic + payload).skip(8) =~= payload);
    assert((magic + payload + extra).take(8) =~= magic);
    assert((magic + payload + extra).skip(8) =~= payload + extra);
    assert((other + payload).take(8) =~= other);
}

/// Prefixes a serialized artifact with its header, within the size limit.
pub fn frame(magic: [u8; 8], payload: &[u8], max: usize, too_large: &str) -> (r: Result<Vec<u8>, String>)
    ensures
        magic@.len() + payload@.len() <= max ==> (r matches Ok(b) && b@ == magic@ + payload@),
        magic@.len() + payload@.len() > max ==> (r matches Err(e) && e@ == too_large@),
        match spec_frame(magic@, payload@, max as nat) {
            Some(b) => r matches Ok(v) && v@ == b,
            None => r is Err,
        },
{
    if payload.len() > max || max - payload.len() < 8 {
        return Err(text(too_large));
    }
    let mut bytes: Vec<u8> = Vec::new();
    let mut i: usize = 0;
    while i < 8
        invariant
            i <= 8,
            bytes@ == magic@.take(i as int),
        decreases 8 - i,
    {
        bytes.push(magic[i]);
        assert(bytes@ =~= magic@.take(i as int + 1));
        i = i + 1;
    }
    let mut j: usize = 0;
    while j < payload.len()
        invariant
            j <= payload@.len(),
            bytes@ == magic@ + payload@.take(j as int),
        decreases payload@.len() - j,
    {
        bytes.push(payload[j]);
        assert(bytes@ =~= magic@ + payload@.take(j as int + 1));
        j = j + 1;
    }
    assert(payload@.take(payload@.len() as int) =~= payload@);
    Ok(bytes)
}

/// The payload after an artifact's header, within the size limit.
pub fn unframe<'a>(bytes: &'a [u8], magic: [u8; 8], max: usize, too_large: &str, not_this: &str) -> (r: Result<&'a [u8], String>)
    ensures
        bytes@.len() > max ==> (r matches Err(e) && e@ == too_large@),
        bytes@.len() <= max && (bytes@.len() < 8 || bytes@.take(8) != magic@) ==> (r matches Err(e) && e@ == not_this@),
        bytes@.len() <= max && bytes@.len() >= 8 && bytes@.take(8) == magic@ ==> (r matches Ok(p) && p@ == bytes@.skip(8)),
        match spec_unframe(bytes@, magic@, max as nat) {
            Some(p) => r matches Ok(v) && v@ == p,
            None => r is Err,
        },
{
    if bytes.len() > max {
        return Err(text(too_large));
    }
    if bytes.len() < 8 {
        return Err(text(not_this));
    }
    let mut i: usize = 0;
    while i < 8
        invariant
            i <= 8,
            bytes@.len() >= 8,
            bytes@.len() <= max,
            forall|k: int| 0 <= k < i ==> bytes@[k] == magic@[k],
        decreases 8 - i,
    {
        if bytes[i] != magic[i] {
            assert(bytes@.take(8)[i as int] != magic@[i as int]);
            return Err(text(not_this));
        }
        i = i + 1;
    }
    assert(bytes@.take(8) =~= magic@);
    let (_, payload) = bytes.split_at(8);
    Ok(payload)
}

/// What a public execution claim is checked against: an optional expected
/// output, optional inputs, and the largest budget accepted.
pub open spec fn spec_claim_matches(
    claim: Option<Seq<u64>>,
    inputs: Option<Seq<u64>>,
    budget: u64,
    output: Seq<u64>,
    input: Seq<u64>,
    proven_budget: u64,
) -> bool {
    (claim matches Some(c) ==> c == output) && (inputs matches Some(i) ==> i == input) && proven_budget <= budget
}

fn same(a: &[u64], b: &[u64]) -> (r: bool)
    ensures
        r == (a@ == b@),
{
    if a.len() != b.len() {
        return false;
    }
    let mut i: usize = 0;
    while i < a.len()
        invariant
            i <= a@.len(),
            a@.len() == b@.len(),
            forall|k: int| 0 <= k < i ==> a@[k] == b@[k],
        decreases a@.len() - i,
    {
        if a[i] != b[i] {
            return false;
        }
        i = i + 1;
    }
    assert(a@ =~= b@);
    true
}

/// Whether a statement proves the claimed output for the given inputs within the budget.
pub fn claim_matches(
    claim: Option<&[u64]>,
    inputs: Option<&[u64]>,
    budget: u64,
    output: &[u64],
    input: &[u64],
    proven_budget: u64,
) -> (r: bool)
    ensures
        r == spec_claim_matches(
            match claim { Some(c) => Some(c@), None => None },
            match inputs { Some(i) => Some(i@), None => None },
            budget,
            output@,
            input@,
            proven_budget,
        ),
{
    let claim_ok = match claim {
        Some(c) => same(c, output),
        None => true,
    };
    let inputs_ok = match inputs {
        Some(i) => same(i, input),
        None => true,
    };
    claim_ok && inputs_ok && proven_budget <= budget
}

/// Whether the native run agrees with the proven relation.
pub fn relation_agrees(native_output: &[u64], native_cycles: u64, output: &[u64], cycles: u64) -> (r: bool)
    ensures
        r == (native_output@ == output@ && native_cycles == cycles),
{
    same(native_output, output) && native_cycles == cycles
}

/// Admits the request for a public execution proof: a stateless nox bundle
/// with no digest and no secret input.
pub fn check_public_request(target_vm: &str, reads_state: bool, digests: usize, secrets: usize) -> (r: Result<(), String>)
    ensures
        (target_vm@ != "nox"@ || reads_state || digests > 0) ==> (r matches Err(e)
            && e@ == "public execution proofs require stateless nox inputs"@),
        !(target_vm@ != "nox"@ || reads_state || digests > 0) && secrets > 0 ==> (r matches Err(e)
            && e@ == "public execution proofs are not zero knowledge; secret inputs are refused"@),
        !(target_vm@ != "nox"@ || reads_state || digests > 0) && secrets == 0 ==> r is Ok,
{
    if !is_nox(target_vm) || reads_state || digests > 0 {
        return Err(text("public execution proofs require stateless nox inputs"));
    }
    if secrets > 0 {
        return Err(text("public execution proofs are not zero knowledge; secret inputs are refused"));
    }
    Ok(())
}

/// Admits the request for a private execution proof: a stateless nox bundle
/// with no digest input.
pub fn check_private_request(target_vm: &str, reads_state: bool, digests: usize) -> (r: Result<(), String>)
    ensures
        (target_vm@ != "nox"@ || reads_state || digests > 0) ==> (r matches Err(e)
            && e@ == "private CCS execution currently requires stateless nox inputs"@),
        !(target_vm@ != "nox"@ || reads_state || digests > 0) ==> r is Ok,
{
    if !is_nox(target_vm) || reads_state || digests > 0 {
        return Err(text("private CCS execution currently requires stateless nox inputs"));
    }
    Ok(())
}

/// Admits the request for a private state execution proof: a nox bundle with
/// no digest input.
pub fn check_private_state_request(target_vm: &str, digests: usize) -> (r: Result<(), String>)
    ensures
        (target_vm@ != "nox"@ || digests > 0) ==> (r matches Err(e)
            && e@ == "private state execution requires nox inputs"@),
        !(target_vm@ != "nox"@ || digests > 0) ==> r is Ok,
{
    if !is_nox(target_vm) || digests > 0 {
        return Err(text("private state execution requires nox inputs"));
    }
    Ok(())
}

/// Every value is a canonical field element.
pub open spec fn all_canonical(values: Seq<u64>) -> bool {
    forall|i: int| 0 <= i < values.len() ==> #[trigger] values[i] < P
}

fn canonical_values(values: &[u64]) -> (r: bool)
    ensures
        r == all_canonical(values@),
{
    let mut i: usize = 0;
    while i < values.len()
        invariant
            i <= values@.len(),
            forall|k: int| 0 <= k < i ==> #[trigger] values@[k] < P,
        decreases values@.len() - i,
    {
        if values[i] >= 0xffff_ffff_0000_0001 {
            return false;
        }
        i = i + 1;
    }
    true
}

/// Admits the inputs of a public state execution proof: nox, no secret or
/// digest input, and canonical public inputs.
pub fn check_state_input(target_vm: &str, secrets: usize, digests: usize, public: &[u64]) -> (r: Result<(), String>)
    ensures
        (target_vm@ != "nox"@ || secrets > 0 || digests > 0) ==> (r matches Err(e)
            && e@ == "public state execution requires nox with no secret/digest input"@),
        !(target_vm@ != "nox"@ || secrets > 0 || digests > 0) && !all_canonical(public@) ==> (r matches Err(e)
            && e@ == "noncanonical public input"@),
        !(target_vm@ != "nox"@ || secrets > 0 || digests > 0) && all_canonical(public@) ==> r is Ok,
{
    if !is_nox(target_vm) || secrets > 0 || digests > 0 {
        return Err(text("public state execution requires nox with no secret/digest input"));
    }
    if !canonical_values(public) {
        return Err(text("noncanonical public input"));
    }
    Ok(())
}

/// Admits the inputs of a native state run: nox, no digest input, and
/// canonical public and secret inputs.
pub fn check_state_run(target_vm: &str, digests: usize, public: &[u64], secret: &[u64]) -> (r: Result<(), String>)
    ensures
        (target_vm@ != "nox"@ || digests > 0 || !all_canonical(public@) || !all_canonical(secret@)) ==> (r matches Err(e)
            && e@ == "invalid state execution inputs"@),
        !(target_vm@ != "nox"@ || digests > 0 || !all_canonical(public@) || !all_canonical(secret@)) ==> r is Ok,
{
    if !is_nox(target_vm) || digests > 0 || !canonical_values(public) || !canonical_values(secret) {
        return Err(text("invalid state execution inputs"));
    }
    Ok(())
}

/// The subject of a state run: `[[r0 [r1 [r2 r3]]] subject]` when the
/// program reads state, else the subject itself.
pub open spec fn spec_state_subject(root: Seq<u64>, subject: Noun, reads_state: bool) -> Noun {
    if reads_state {
        Noun::Pair(
            Box::new(Noun::Pair(
                Box::new(Noun::Atom(root[0])),
                Box::new(Noun::Pair(
                    Box::new(Noun::Atom(root[1])),
                    Box::new(Noun::Pair(Box::new(Noun::Atom(root[2])), Box::new(Noun::Atom(root[3])))),
                )),
            )),
            Box::new(subject),
        )
    } else {
        subject
    }
}

/// The subject of a state run.
pub fn state_subject(root: [u64; 4], subject: Noun, reads_state: bool) -> (r: Noun)
    ensures
        r == spec_state_subject(root@, subject, reads_state),
{
    if !reads_state {
        return subject;
    }
    let tail = Noun::Pair(Box::new(Noun::Atom(root[2])), Box::new(Noun::Atom(root[3])));
    let tail = Noun::Pair(Box::new(Noun::Atom(root[1])), Box::new(tail));
    let tail = Noun::Pair(Box::new(Noun::Atom(root[0])), Box::new(tail));
    Noun::Pair(Box::new(tail), Box::new(subject))
}

/// A trace row as the state check reads it: its tag and the four registers
/// that carry a lookup's state root.
pub type LookRow = (u64, [u64; 4]);

/// Every lookup row of the trace reads the given state root.
pub open spec fn lookups_use_root(rows: Seq<LookRow>, root: Seq<u64>) -> bool {
    forall|i: int| 0 <= i < rows.len() ==> (#[trigger] rows[i]).0 == 17 ==> rows[i].1@ == root
}

/// Checks that every lookup of a native state run read the certified root.
pub fn check_lookup_roots(rows: &[LookRow], root: [u64; 4]) -> (r: Result<(), String>)
    ensures
        lookups_use_root(rows@, root@) ==> r is Ok,
        !lookups_use_root(rows@, root@) ==> (r matches Err(e) && e@ == "native lookup used another state root"@),
{
    let mut i: usize = 0;
    while i < rows.len()
        invariant
            i <= rows@.len(),
            forall|k: int| 0 <= k < i ==> (#[trigger] rows@[k]).0 == 17 ==> rows@[k].1@ == root@,
        decreases rows@.len() - i,
    {
        let (tag, regs) = rows[i];
        if tag == 17 && (regs[0] != root[0] || regs[1] != root[1] || regs[2] != root[2] || regs[3] != root[3]) {
            assert(rows@[i as int].1@ != root@) by {
                if rows@[i as int].1@ == root@ {
                    assert(regs@[0] == root@[0] && regs@[1] == root@[1] && regs@[2] == root@[2] && regs@[3] == root@[3]);
                }
            }
            return Err(text("native lookup used another state root"));
        }
        proof {
            if tag == 17 {
                assert(regs@ =~= root@);
            }
        }
        i = i + 1;
    }
    Ok(())
}

/// Sum of the field counts.
pub open spec fn total(counts: Seq<usize>) -> int
    decreases counts.len(),
{
    if counts.len() == 0 { 0 } else { total(counts.drop_last()) + counts.last() }
}

/// Admits a state certificate for private execution: all ten public
/// namespaces and at most 2048 fields in all.
pub fn check_state_tables(field_counts: &[usize]) -> (r: Result<(), String>)
    ensures
        field_counts@.len() == 10 && total(field_counts@) <= 2048 ==> r is Ok,
        !(field_counts@.len() == 10 && total(field_counts@) <= 2048) ==> (r matches Err(e)
            && e@ == "private state requires all ten public namespaces and at most 2048 fields"@),
{
    if field_counts.len() != 10 {
        return Err(text("private state requires all ten public namespaces and at most 2048 fields"));
    }
    let mut sum: usize = 0;
    let mut i: usize = 0;
    while i < field_counts.len()
        invariant
            i <= field_counts@.len(),
            sum == total(field_counts@.take(i as int)),
            sum <= 2048,
        decreases field_counts@.len() - i,
    {
        assert(field_counts@.take(i as int + 1).drop_last() =~= field_counts@.take(i as int));
        if field_counts[i] > 2048 - sum {
            proof {
                lemma_total_prefix(field_counts@, i as int + 1);
            }
            return Err(text("private state requires all ten public namespaces and at most 2048 fields"));
        }
        sum = sum + field_counts[i];
        i = i + 1;
    }
    assert(field_counts@.take(field_counts@.len() as int) =~= field_counts@);
    Ok(())
}

proof fn lemma_total_prefix(s: Seq<usize>, k: int)
    requires
        0 <= k <= s.len(),
    ensures
        total(s.take(k)) <= total(s),
    decreases s.len() - k,
{
    if k < s.len() {
        lemma_total_prefix(s, k + 1);
        assert(s.take(k + 1).drop_last() =~= s.take(k));
    } else {
        assert(s.take(k) =~= s);
    }
}

/// Whether the trace holds a lookup row (tag 17).
pub fn has_look_rows(tags: &[u64]) -> (r: bool)
    ensures
        r == exists|i: int| 0 <= i < tags@.len() && tags@[i] == 17,
{
    let mut i: usize = 0;
    while i < tags.len()
        invariant
            i <= tags@.len(),
            forall|k: int| 0 <= k < i ==> tags@[k] != 17,
        decreases tags@.len() - i,
    {
        if tags[i] == 17 {
            return true;
        }
        i = i + 1;
    }
    false
}

/// A trace can be folded into a proof only from two rows on.
pub fn check_trace_rows(rows: usize) -> (r: Result<(), String>)
    ensures
        rows >= 2 ==> r is Ok,
        rows < 2 ==> (r matches Err(e) && e@ == "trace has "@ + spec_decimal(rows as nat)
            + " row(s): zheng folds row transitions and needs at least 2"@),
{
    if rows < 2 {
        let mut e = text("trace has ");
        push_decimal(&mut e, rows as u64);
        e.append(" row(s): zheng folds row transitions and needs at least 2");
        return Err(e);
    }
    Ok(())
}

/// The metadata check of a public execution artifact.
pub fn check_execution_metadata(format: &str, program_len: usize) -> (r: Result<(), String>)
    ensures
        format@ == EXECUTION_FORMAT@ && program_len <= 4096 ==> r is Ok,
        !(format@ == EXECUTION_FORMAT@ && program_len <= 4096) ==> (r matches Err(e)
            && e@ == "invalid execution artifact metadata"@),
{
    if !same_text(format, EXECUTION_FORMAT) || program_len > 4096 {
        return Err(text("invalid execution artifact metadata"));
    }
    Ok(())
}

/// The metadata check of a private execution artifact.
pub fn check_private_metadata(
    format: &str,
    program_len: usize,
    source_hash_len: usize,
    proof_len: usize,
    has_state: bool,
    root_in_subject: bool,
) -> (r: Result<(), String>)
    ensures
        !(format@ == ZK_EXECUTION_FORMAT@ && program_len <= 4096 && source_hash_len > 0 && source_hash_len <= 128
            && proof_len <= MAX_ARTIFACT_BYTES) ==> (r matches Err(e) && e@ == "invalid private execution metadata"@),
        (format@ == ZK_EXECUTION_FORMAT@ && program_len <= 4096 && source_hash_len > 0 && source_hash_len <= 128
            && proof_len <= MAX_ARTIFACT_BYTES) && !has_state && root_in_subject ==> (r matches Err(e)
            && e@ == "state ABI requires a certificate"@),
        (format@ == ZK_EXECUTION_FORMAT@ && program_len <= 4096 && source_hash_len > 0 && source_hash_len <= 128
            && proof_len <= MAX_ARTIFACT_BYTES) && !(!has_state && root_in_subject) ==> r is Ok,
{
    if !same_text(format, ZK_EXECUTION_FORMAT) || program_len > 4096 || source_hash_len == 0 || source_hash_len > 128
        || proof_len > MAX_ARTIFACT_BYTES {
        return Err(text("invalid private execution metadata"));
    }
    if !has_state && root_in_subject {
        return Err(text("state ABI requires a certificate"));
    }
    Ok(())
}

/// The identity bounds of a state execution artifact: format, program name
/// and source hash lengths.
pub fn state_identity_bounds(format: &str, program_len: usize, source_hash_len: usize) -> (r: bool)
    ensures
        r == (format@ == STATE_EXECUTION_FORMAT@ && program_len <= 4096 && source_hash_len > 0 && source_hash_len <= 128),
{
    same_text(format, STATE_EXECUTION_FORMAT) && program_len <= 4096 && source_hash_len > 0 && source_hash_len <= 128
}

/// Whether two texts are equal.
pub fn same_text(a: &str, b: &str) -> (r: bool)
    ensures
        r == (a@ == b@),
{
    let eq = crate::ordering::str_eq(a, b);
    proof {
        vstd::utf8::encode_utf8_decode_utf8(a@);
        vstd::utf8::encode_utf8_decode_utf8(b@);
    }
    eq
}

/// The wire check after an artifact's payload was decoded: nothing trails it
/// and it names the expected format.
pub fn check_wire(trailing: usize, format: &str, expected: &str, invalid: &str) -> (r: Result<(), String>)
    ensures
        trailing == 0 && format@ == expected@ ==> r is Ok,
        !(trailing == 0 && format@ == expected@) ==> (r matches Err(e) && e@ == invalid@),
{
    if trailing != 0 || !same_text(format, expected) {
        return Err(text(invalid));
    }
    Ok(())
}

/// The format check of proof data handed to a verifier.
pub fn check_proof_data_format(format: &str, expected: &str, unsupported: &str) -> (r: Result<(), String>)
    ensures
        format@ == expected@ ==> r is Ok,
        format@ != expected@ ==> (r matches Err(e) && e@ == unsupported@),
{
    if !same_text(format, expected) {
        return Err(text(unsupported));
    }
    Ok(())
}

} // verus!
