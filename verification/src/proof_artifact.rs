//! The proof artifact's operational metadata: the program hash that binds an
//! assembly to a statement, and the assembly carried plain or deflated.
use vstd::prelude::*;
use vstd::utf8::{encode_utf8, valid_utf8, decode_utf8};
use vstd::string::*;
use crate::text::{text, utf8_string, utf8_error_text};

verus! {

/// Proof system identifier written into every artifact.
pub const PROOF_FORMAT: &'static str = "zheng-hypernova-v1";

/// The Unicode `White_Space` characters.
pub open spec fn is_white_space(c: char) -> bool {
    let u = c as u32;
    (0x09 <= u <= 0x0d) || u == 0x20 || u == 0x85 || u == 0xa0 || u == 0x1680 || (0x2000 <= u <= 0x200a)
        || u == 0x2028 || u == 0x2029 || u == 0x202f || u == 0x205f || u == 0x3000
}

/// Number of leading white-space characters of `s`.
pub open spec fn lead_ws(s: Seq<char>) -> nat
    decreases s.len(),
{
    if s.len() > 0 && is_white_space(s[0]) { 1 + lead_ws(s.drop_first()) } else { 0 }
}

/// Number of trailing white-space characters of `s`.
pub open spec fn trail_ws(s: Seq<char>) -> nat
    decreases s.len(),
{
    if s.len() > 0 && is_white_space(s.last()) { 1 + trail_ws(s.drop_last()) } else { 0 }
}

/// `s` without leading and trailing white space (`str::trim`).
pub open spec fn spec_trim(s: Seq<char>) -> Seq<char> {
    let a = lead_ws(s);
    if a == s.len() {
        Seq::empty()
    } else {
        s.subrange(a as int, s.len() - trail_ws(s))
    }
}

proof fn lemma_lead_ws(s: Seq<char>, i: nat)
    requires
        i <= s.len(),
        forall|k: int| 0 <= k < i ==> is_white_space(#[trigger] s[k]),
    ensures
        lead_ws(s) >= i,
        lead_ws(s) <= s.len(),
        i < s.len() && !is_white_space(s[i as int]) ==> lead_ws(s) == i,
    decreases i,
{
    lemma_lead_bound(s);
    if i > 0 {
        let t = s.drop_first();
        assert forall|k: int| 0 <= k < i - 1 implies is_white_space(#[trigger] t[k]) by {
            assert(t[k] == s[k + 1]);
        }
        lemma_lead_ws(t, (i - 1) as nat);
        if i < s.len() && !is_white_space(s[i as int]) {
            assert(t[i - 1] == s[i as int]);
        }
    }
}

proof fn lemma_lead_bound(s: Seq<char>)
    ensures
        lead_ws(s) <= s.len(),
        lead_ws(s) < s.len() ==> !is_white_space(s[lead_ws(s) as int]),
        forall|k: int| 0 <= k < lead_ws(s) ==> is_white_space(#[trigger] s[k]),
    decreases s.len(),
{
    if s.len() > 0 && is_white_space(s[0]) {
        let t = s.drop_first();
        lemma_lead_bound(t);
        assert forall|k: int| 0 <= k < lead_ws(s) implies is_white_space(#[trigger] s[k]) by {
            if k > 0 {
                assert(s[k] == t[k - 1]);
            }
        }
        if lead_ws(s) < s.len() {
            assert(s[lead_ws(s) as int] == t[lead_ws(t) as int]);
        }
    }
}

proof fn lemma_trail_bound(s: Seq<char>)
    ensures
        trail_ws(s) <= s.len(),
        trail_ws(s) < s.len() ==> !is_white_space(s[s.len() - 1 - trail_ws(s)]),
        forall|k: int| s.len() - trail_ws(s) <= k < s.len() ==> is_white_space(#[trigger] s[k]),
    decreases s.len(),
{
    if s.len() > 0 && is_white_space(s.last()) {
        let t = s.drop_last();
        lemma_trail_bound(t);
        assert forall|k: int| s.len() - trail_ws(s) <= k < s.len() implies is_white_space(#[trigger] s[k]) by {
            if k < s.len() - 1 {
                assert(s[k] == t[k]);
            }
        }
        if trail_ws(s) < s.len() {
            assert(s[s.len() - 1 - trail_ws(s)] == t[t.len() - 1 - trail_ws(t)]);
        }
    }
}

proof fn lemma_trail_ws(s: Seq<char>, j: nat)
    requires
        j <= s.len(),
        forall|k: int| s.len() - j <= k < s.len() ==> is_white_space(#[trigger] s[k]),
        j < s.len() ==> !is_white_space(s[s.len() - 1 - j]),
    ensures
        trail_ws(s) == j,
    decreases j,
{
    lemma_trail_bound(s);
    if j > 0 {
        let t = s.drop_last();
        assert forall|k: int| t.len() - (j - 1) <= k < t.len() implies is_white_space(#[trigger] t[k]) by {
            assert(t[k] == s[k]);
        }
        if j - 1 < t.len() {
            assert(t[t.len() - 1 - (j - 1)] == s[s.len() - 1 - j]);
        }
        assert(is_white_space(s[s.len() - 1]));
        lemma_trail_ws(t, (j - 1) as nat);
    }
}

/// Whether `c` is a Unicode `White_Space` character.
fn white_space(c: char) -> (r: bool)
    ensures
        r == is_white_space(c),
{
    let u = c as u32;
    (0x09 <= u && u <= 0x0d) || u == 0x20 || u == 0x85 || u == 0xa0 || u == 0x1680 || (0x2000 <= u && u <= 0x200a)
        || u == 0x2028 || u == 0x2029 || u == 0x202f || u == 0x205f || u == 0x3000
}

/// `s` without leading and trailing white space, as `str::trim` gives it.
pub fn trim_text(s: &str) -> (r: &str)
    ensures
        r@ == spec_trim(s@),
{
    let n = s.unicode_len();
    let mut a: usize = 0;
    while a < n && white_space(s.get_char(a))
        invariant
            n == s@.len(),
            a <= n,
            forall|k: int| 0 <= k < a ==> is_white_space(#[trigger] s@[k]),
        decreases n - a,
    {
        a = a + 1;
    }
    proof {
        lemma_lead_ws(s@, a as nat);
    }
    if a == n {
        return s.substring_char(0, 0);
    }
    let mut j: usize = 0;
    while j < n - a && white_space(s.get_char(n - 1 - j))
        invariant
            n == s@.len(),
            a < n,
            j <= n - a,
            forall|k: int| n - j <= k < n ==> is_white_space(#[trigger] s@[k]),
        decreases n - a - j,
    {
        j = j + 1;
    }
    proof {
        lemma_lead_bound(s@);
        if j == n - a {
            assert(!is_white_space(s@[a as int]));
            assert(false);
        }
        lemma_trail_ws(s@, j as nat);
    }
    s.substring_char(a, n - j)
}

/// The 32 bytes of `hemera::hash(input)`.
pub uninterp spec fn hemera_digest(input: Seq<u8>) -> Seq<u8>;

/// `hemera::hash`: the 32-byte hemera digest of the input.
#[verifier::external_body]
pub(crate) fn hemera_hash(input: &[u8]) -> (r: [u8; 32])
    ensures
        r@ == hemera_digest(input@),
{
    *cyber_hemera::hash(input).as_bytes()
}

/// The program hash of a bundle's formula text: hemera of the trimmed assembly.
pub open spec fn spec_program_hash(assembly: Seq<char>) -> Seq<u8> {
    hemera_digest(encode_utf8(spec_trim(assembly)))
}

/// The program hash a statement binds: hemera of the trimmed bracket-notation
/// assembly, so surrounding white space does not rename a program.
pub fn program_hash(assembly: &str) -> (r: [u8; 32])
    ensures
        r@ == spec_program_hash(assembly@),
{
    let t = trim_text(assembly);
    hemera_hash(t.as_bytes())
}

/// The program hash as four little-endian 64-bit limbs.
pub open spec fn hash_limbs(h: Seq<u8>) -> Seq<u64> {
    Seq::new(4, |i: int| le_u64(h.subrange(8 * i, 8 * i + 8)))
}

/// Little-endian value of eight bytes.
pub open spec fn le_u64(b: Seq<u8>) -> u64 {
    (b[0] as u64) | ((b[1] as u64) << 8u64) | ((b[2] as u64) << 16u64) | ((b[3] as u64) << 24u64) | ((b[4] as u64)
        << 32u64) | ((b[5] as u64) << 40u64) | ((b[6] as u64) << 48u64) | ((b[7] as u64) << 56u64)
}

/// The limbs of a program hash, as a claim carries them.
pub fn program_hash_limbs(h: &[u8; 32]) -> (r: Vec<u64>)
    ensures
        r@ == hash_limbs(h@),
{
    let mut out: Vec<u64> = Vec::new();
    let mut i: usize = 0;
    while i < 4
        invariant
            i <= 4,
            out@ == hash_limbs(h@).take(i as int),
        decreases 4 - i,
    {
        let k = 8 * i;
        let v = (h[k] as u64) | ((h[k + 1] as u64) << 8u64) | ((h[k + 2] as u64) << 16u64) | ((h[k + 3] as u64)
            << 24u64) | ((h[k + 4] as u64) << 32u64) | ((h[k + 5] as u64) << 40u64) | ((h[k + 6] as u64) << 48u64)
            | ((h[k + 7] as u64) << 56u64);
        proof {
            let b = h@.subrange(8 * i as int, 8 * i as int + 8);
            assert(b[0] == h@[k as int] && b[1] == h@[k + 1] && b[2] == h@[k + 2] && b[3] == h@[k + 3]);
            assert(b[4] == h@[k + 4] && b[5] == h@[k + 5] && b[6] == h@[k + 6] && b[7] == h@[k + 7]);
            assert(v == le_u64(b));
        }
        out.push(v);
        assert(out@ =~= hash_limbs(h@).take(i as int + 1));
        i = i + 1;
    }
    assert(out@ =~= hash_limbs(h@));
    out
}

/// The bytes `miniz_oxide::deflate::compress_to_vec(input, level)` gives.
pub uninterp spec fn deflated(input: Seq<u8>, level: u8) -> Seq<u8>;

/// `miniz_oxide::deflate::compress_to_vec`: raw DEFLATE at `level`.
#[verifier::external_body]
fn deflate(input: &[u8], level: u8) -> (r: Vec<u8>)
    ensures
        r@ == deflated(input@, level),
{
    miniz_oxide::deflate::compress_to_vec(input, level)
}

/// What `miniz_oxide::inflate::decompress_to_vec_with_limit(input, max)`
/// gives: the inflated bytes, `None` for an output that does not fit in `max`
/// bytes, or the debug text of any other error.
pub uninterp spec fn inflated_within(input: Seq<u8>, max: usize) -> Result<Seq<u8>, Option<Seq<char>>>;

/// `miniz_oxide::inflate::decompress_to_vec_with_limit`: the inflated bytes,
/// at most `max` of them; `Err(None)` when the output does not fit in `max`
/// bytes (status `HasMoreOutput`); else the debug text of the error. The crate
/// documents that the output grows to at most `max` bytes and that data that
/// does not fit fails with `HasMoreOutput`, and its round trip: what
/// `compress_to_vec` produced at a level the crate accepts (0 to 10) inflates
/// back to the bytes it was given. So such a stream never fails otherwise, and
/// it fails for lack of room only when it holds at least `max` bytes. Nothing
/// is stated of which other inputs inflate, or to what.
#[verifier::external_body]
fn inflate_within(input: &[u8], max: usize) -> (r: Result<Vec<u8>, Option<String>>)
    ensures
        match r {
            Ok(v) => inflated_within(input@, max) == Ok::<Seq<u8>, Option<Seq<char>>>(v@)
                && v@.len() <= max
                && forall|x: Seq<u8>, level: u8| level <= 10 && input@ == #[trigger] deflated(x, level) ==> v@ == x,
            Err(None) => inflated_within(input@, max) == Err::<Seq<u8>, Option<Seq<char>>>(None)
                && forall|x: Seq<u8>, level: u8| level <= 10 && input@ == #[trigger] deflated(x, level) ==> x.len() >= max,
            Err(Some(e)) => inflated_within(input@, max) == Err::<Seq<u8>, Option<Seq<char>>>(Some(e@))
                && forall|x: Seq<u8>, level: u8| level <= 10 ==> input@ != #[trigger] deflated(x, level),
        },
{
    match miniz_oxide::inflate::decompress_to_vec_with_limit(input, max) {
        Ok(v) => Ok(v),
        Err(e) => match e.status {
            miniz_oxide::inflate::TINFLStatus::HasMoreOutput => Err(None),
            _ => Err(Some(format!("{:?}", e))),
        },
    }
}

/// Operational metadata carried beside a proof.
pub struct ArtifactMeta {
    pub program: String,
    pub output: Vec<u64>,
    pub cycle_count: u64,
    pub assembly: Option<String>,
    pub assembly_deflate: Option<Vec<u8>>,
}

/// The largest assembly a proof artifact carries, in bytes: the formula limit.
pub const MAX_ASSEMBLY_TEXT: usize = 262144;

pub open spec fn msg_oversized() -> Seq<char> {
    "oversized assembly_deflate: it inflates past the 262144-byte formula limit"@
}

pub open spec fn msg_plain_too_large() -> Seq<char> {
    "assembly exceeds the 262144-byte formula size limit"@
}

/// What `assembly_text` gives for the metadata's two assembly fields: the
/// deflated form is inflated with room for one byte past the formula limit,
/// and neither form may exceed that limit.
pub open spec fn spec_assembly_text(plain: Option<Seq<char>>, deflate: Option<Seq<u8>>) -> Result<Option<Seq<char>>, Seq<char>> {
    match deflate {
        Some(z) => match inflated_within(z, (MAX_ASSEMBLY_TEXT + 1) as usize) {
            Err(None) => Err(msg_oversized()),
            Err(Some(e)) => Err("corrupt assembly_deflate: "@ + e),
            Ok(bytes) => if bytes.len() > MAX_ASSEMBLY_TEXT {
                Err(msg_oversized())
            } else if valid_utf8(bytes) {
                Ok(Some(decode_utf8(bytes)))
            } else {
                Err("assembly is not UTF-8: "@ + utf8_error_text(bytes))
            },
        },
        None => match plain {
            Some(t) => if encode_utf8(t).len() > MAX_ASSEMBLY_TEXT {
                Err(msg_plain_too_large())
            } else {
                Ok(Some(t))
            },
            None => Ok(None),
        },
    }
}

impl ArtifactMeta {
    pub open spec fn plain(&self) -> Option<Seq<char>> {
        match self.assembly {
            Some(s) => Some(s@),
            None => None,
        }
    }

    pub open spec fn packed(&self) -> Option<Seq<u8>> {
        match self.assembly_deflate {
            Some(z) => Some(z@),
            None => None,
        }
    }

    /// The formula this proof was generated from, whichever form it travels
    /// in; the deflated form takes precedence.
    pub fn assembly_text(&self) -> (r: Result<Option<String>, String>)
        ensures
            match spec_assembly_text(self.plain(), self.packed()) {
                Ok(Some(t)) => r matches Ok(Some(s)) && s@ == t,
                Ok(None) => r matches Ok(None),
                Err(e) => r matches Err(m) && m@ == e,
            },
            forall|a: Seq<char>, level: u8| level <= 10 && self.packed() == Some(#[trigger] deflated(encode_utf8(a), level))
                ==> (encode_utf8(a).len() <= MAX_ASSEMBLY_TEXT ==> (r matches Ok(Some(s)) && s@ == a))
                && (encode_utf8(a).len() > MAX_ASSEMBLY_TEXT ==> (r matches Err(m) && m@ == msg_oversized())),
    {
        broadcast use vstd::utf8::encode_utf8_valid_utf8, vstd::utf8::encode_utf8_decode_utf8;
        match &self.assembly_deflate {
            Some(z) => {
                let bytes = match inflate_within(z.as_slice(), MAX_ASSEMBLY_TEXT + 1) {
                    Ok(b) => b,
                    Err(None) => {
                        return Err(text("oversized assembly_deflate: it inflates past the 262144-byte formula limit"));
                    },
                    Err(Some(e)) => {
                        let mut m = text("corrupt assembly_deflate: ");
                        m.append(e.as_str());
                        return Err(m);
                    },
                };
                if bytes.len() > MAX_ASSEMBLY_TEXT {
                    return Err(text("oversized assembly_deflate: it inflates past the 262144-byte formula limit"));
                }
                match utf8_string(bytes) {
                    Ok(s) => Ok(Some(s)),
                    Err(e) => {
                        let mut m = text("assembly is not UTF-8: ");
                        m.append(e.as_str());
                        Err(m)
                    },
                }
            },
            None => match &self.assembly {
                Some(s) => {
                    if s.as_str().as_bytes().len() > MAX_ASSEMBLY_TEXT {
                        return Err(text("assembly exceeds the 262144-byte formula size limit"));
                    }
                    Ok(Some(s.clone()))
                },
                None => Ok(None),
            },
        }
    }

    /// Stores the assembly deflated at level 9, dropping any plain copy.
    pub fn set_assembly(&mut self, assembly: &str)
        ensures
            final(self).assembly is None,
            final(self).packed() == Some(deflated(encode_utf8(assembly@), 9)),
            final(self).program == old(self).program,
            final(self).output == old(self).output,
            final(self).cycle_count == old(self).cycle_count,
    {
        self.assembly = None;
        self.assembly_deflate = Some(deflate(assembly.as_bytes(), 9));
    }
}

/// The load check of a proof artifact's format.
pub fn check_proof_format(format: &str) -> (r: Result<(), String>)
    ensures
        format@ == PROOF_FORMAT@ ==> r is Ok,
        format@ != PROOF_FORMAT@ ==> (r matches Err(e) && e@ == "unknown proof format '"@ + format@
            + "' (this joy verifies '"@ + PROOF_FORMAT@ + "')"@),
{
    if crate::ordering::str_eq(format, PROOF_FORMAT) {
        proof {
            vstd::utf8::encode_utf8_decode_utf8(format@);
            vstd::utf8::encode_utf8_decode_utf8(PROOF_FORMAT@);
        }
        return Ok(());
    }
    let mut m = text("unknown proof format '");
    m.append(format);
    m.append("' (this joy verifies '");
    m.append(PROOF_FORMAT);
    m.append("')");
    Err(m)
}

} // verus!

verus! {

/// Trimming twice trims nothing more.
proof fn lemma_trim_idempotent(s: Seq<char>)
    ensures
        spec_trim(spec_trim(s)) == spec_trim(s),
{
    lemma_lead_bound(s);
    lemma_trail_bound(s);
    let a = lead_ws(s);
    let t = spec_trim(s);
    if a == s.len() {
        assert(t.len() == 0);
    } else {
        let e = s.len() - trail_ws(s);
        if e <= a {
            assert(is_white_space(s[a as int]));
            assert(false);
        }
        assert(t == s.subrange(a as int, e));
        lemma_lead_bound(t);
        lemma_trail_bound(t);
        assert(t[0] == s[a as int]);
        assert(!is_white_space(t[0]));
        assert(t.last() == s[e - 1]);
        if trail_ws(s) > 0 || e == s.len() {
            assert(!is_white_space(s[e - 1]));
        }
        assert(lead_ws(t) == 0);
        assert(trail_ws(t) == 0);
        assert(t.subrange(0, t.len() as int) =~= t);
    }
}

/// White space around a formula does not change the program it names:
/// the program hash of a text is that of its trimmed text.
pub proof fn law_program_hash_ignores_white_space(assembly: Seq<char>)
    ensures
        spec_program_hash(spec_trim(assembly)) == spec_program_hash(assembly),
{
    lemma_trim_idempotent(assembly);
}

} // verus!
