//! What the execution artifacts hash to bind a proof to its program: each
//! text is framed by its little-endian 64-bit length behind a format tag, and
//! the framed bytes go through hemera in one stream.
use vstd::prelude::*;
use vstd::string::StringSliceAdditionalSpecFns;
use crate::artifacts::STATE_EXECUTION_FORMAT;
use crate::proof_artifact::{hemera_digest, hemera_hash};
use crate::reader::le_bytes;

verus! {

/// The tag a private execution statement is bound under.
pub const PRIVATE_BINDING_TAG: &'static str = "joy-private-execution-statement-v3";

/// A byte string behind its little-endian 64-bit length.
pub open spec fn framed(s: Seq<u8>) -> Seq<u8> {
    le_bytes(s.len() as u64, 8) + s
}

/// One byte for a flag.
pub open spec fn flag_byte(b: bool) -> u8 {
    if b { 1 } else { 0 }
}

/// The bytes a state execution artifact hashes for its program context.
pub open spec fn state_context_bytes(program: Seq<u8>, source_hash: Seq<u8>) -> Seq<u8> {
    STATE_EXECUTION_FORMAT.spec_bytes() + framed(program) + framed(source_hash)
}

/// The bytes a private execution artifact hashes to bind its statement: the
/// tag, the framed transcript, source hash and program, the two flags (root in
/// subject, state present), then the encoded state when there is one.
pub open spec fn private_binding_bytes(
    transcript: Seq<u8>,
    source_hash: Seq<u8>,
    program: Seq<u8>,
    root_in_subject: bool,
    state: Option<Seq<u8>>,
) -> Seq<u8> {
    PRIVATE_BINDING_TAG.spec_bytes() + framed(transcript) + framed(source_hash) + framed(program)
        + seq![flag_byte(root_in_subject), flag_byte(state is Some)]
        + match state {
            Some(s) => s,
            None => Seq::empty(),
        }
}

/// Appends a byte string.
fn push_all(out: &mut Vec<u8>, s: &[u8])
    ensures
        final(out)@ == old(out)@ + s@,
{
    let ghost start = out@;
    let mut i: usize = 0;
    while i < s.len()
        invariant
            i <= s@.len(),
            out@ == start + s@.subrange(0, i as int),
        decreases s@.len() - i,
    {
        out.push(s[i]);
        assert(s@.subrange(0, i as int + 1) =~= s@.subrange(0, i as int).push(s@[i as int]));
        i = i + 1;
    }
    assert(s@.subrange(0, s@.len() as int) =~= s@);
}

/// Appends a byte string behind its little-endian 64-bit length.
fn push_framed(out: &mut Vec<u8>, s: &[u8])
    ensures
        final(out)@ == old(out)@ + framed(s@),
{
    let ghost start = out@;
    let w = s.len() as u64;
    let mut i: u64 = 0;
    while i < 8
        invariant
            i <= 8,
            w == s@.len(),
            out@ == start + le_bytes(w, i as nat),
        decreases 8 - i,
    {
        let b = ((w >> (8 * i)) & 0xff) as u8;
        out.push(b);
        assert(le_bytes(w, (i + 1) as nat) =~= le_bytes(w, i as nat).push(b));
        i = i + 1;
    }
    push_all(out, s);
    assert(start + le_bytes(w, 8) + s@ =~= start + framed(s@));
}

/// The program context a state execution artifact binds: hemera of the
/// format tag and the framed program and source hash.
pub fn state_context(program: &str, source_hash: &str) -> (r: [u8; 32])
    ensures
        r@ == hemera_digest(state_context_bytes(program.spec_bytes(), source_hash.spec_bytes())),
{
    let mut bytes: Vec<u8> = Vec::new();
    push_all(&mut bytes, STATE_EXECUTION_FORMAT.as_bytes());
    push_framed(&mut bytes, program.as_bytes());
    push_framed(&mut bytes, source_hash.as_bytes());
    proof {
        assert(bytes@ =~= state_context_bytes(program.spec_bytes(), source_hash.spec_bytes()));
    }
    hemera_hash(bytes.as_slice())
}

/// The binding of a private execution statement: hemera of its tag, the
/// framed transcript, source hash and program, the flags and the encoded state.
pub fn private_binding(
    transcript: &[u8],
    source_hash: &str,
    program: &str,
    root_in_subject: bool,
    state: Option<&[u8]>,
) -> (r: [u8; 32])
    ensures
        r@ == hemera_digest(private_binding_bytes(
            transcript@,
            source_hash.spec_bytes(),
            program.spec_bytes(),
            root_in_subject,
            match state { Some(s) => Some(s@), None => None },
        )),
{
    let mut bytes: Vec<u8> = Vec::new();
    push_all(&mut bytes, PRIVATE_BINDING_TAG.as_bytes());
    push_framed(&mut bytes, transcript);
    push_framed(&mut bytes, source_hash.as_bytes());
    push_framed(&mut bytes, program.as_bytes());
    bytes.push(if root_in_subject { 1u8 } else { 0u8 });
    bytes.push(if state.is_some() { 1u8 } else { 0u8 });
    let ghost before = bytes@;
    match state {
        Some(s) => push_all(&mut bytes, s),
        None => {},
    }
    proof {
        let sv = match state { Some(s) => Some(s@), None => None };
        assert(bytes@ =~= private_binding_bytes(
            transcript@,
            source_hash.spec_bytes(),
            program.spec_bytes(),
            root_in_subject,
            sv,
        ));
    }
    hemera_hash(bytes.as_slice())
}

} // verus!
