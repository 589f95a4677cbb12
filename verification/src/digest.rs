//! Content identity of nouns: the nox tree hash of a noun, its 32-byte
//! particle, and the hash-data noun `[[h0 h1] [h2 h3]]` that carries a digest.
use vstd::prelude::*;
use crate::noun::{Noun, P};
use crate::text::{hex, spec_hex};
use nebu::Goldilocks;

verus! {

/// The limbs of `nox::data::hash_atom(Goldilocks::new(value))`.
pub uninterp spec fn atom_digest(value: u64) -> Seq<u64>;

/// The limbs of `nox::data::hash_pair(left, right)` for limb sequences `left`, `right`.
pub uninterp spec fn pair_digest(left: Seq<u64>, right: Seq<u64>) -> Seq<u64>;

/// Four limbs, each a canonical field value.
pub open spec fn canonical_limbs(d: Seq<u64>) -> bool {
    d.len() == 4 && forall|i: int| 0 <= i < 4 ==> #[trigger] d[i] < P
}

/// `nox::data::hash_atom`: the tree hash of an atom. Its limbs are stored
/// canonical (`extract_digest` canonicalizes each one); nothing else of the
/// hemera sponge is stated.
#[verifier::external_body]
fn hash_atom(value: u64) -> (d: [u64; 4])
    ensures
        d@ == atom_digest(value),
        canonical_limbs(d@),
{
    let h = nox::data::hash_atom(Goldilocks::new(value));
    [h[0].as_u64(), h[1].as_u64(), h[2].as_u64(), h[3].as_u64()]
}

/// `nox::data::hash_pair`: the tree hash of a pair from the hashes of its
/// head and tail, with canonical limbs.
#[verifier::external_body]
fn hash_pair(left: [u64; 4], right: [u64; 4]) -> (d: [u64; 4])
    ensures
        d@ == pair_digest(left@, right@),
        canonical_limbs(d@),
{
    let l = [Goldilocks::new(left[0]), Goldilocks::new(left[1]), Goldilocks::new(left[2]), Goldilocks::new(left[3])];
    let r = [Goldilocks::new(right[0]), Goldilocks::new(right[1]), Goldilocks::new(right[2]), Goldilocks::new(right[3])];
    let h = nox::data::hash_pair(&l, &r);
    [h[0].as_u64(), h[1].as_u64(), h[2].as_u64(), h[3].as_u64()]
}

/// The nox identity of a noun: atoms hashed as leaves, pairs as nodes.
pub open spec fn noun_digest(n: Noun) -> Seq<u64>
    decreases n,
{
    match n {
        Noun::Atom(v) => atom_digest(v),
        Noun::Pair(h, t) => pair_digest(noun_digest(*h), noun_digest(*t)),
    }
}

/// The digest of the canonical empty tree of height `h`: the hash of atom 0,
/// paired with itself `h` times.
pub open spec fn empty_digest(h: nat) -> Seq<u64>
    decreases h,
{
    if h == 0 {
        atom_digest(0)
    } else {
        pair_digest(empty_digest((h - 1) as nat), empty_digest((h - 1) as nat))
    }
}

/// The digest of the canonical empty tree of height `h`.
pub fn empty_digest_of(h: u32) -> (d: [u64; 4])
    ensures
        d@ == empty_digest(h as nat),
{
    let mut d = hash_atom(0);
    let mut i: u32 = 0;
    while i < h
        invariant
            i <= h,
            d@ == empty_digest(i as nat),
        decreases h - i,
    {
        d = hash_pair(d, d);
        i = i + 1;
    }
    d
}

/// Whether two digests are the same.
pub fn same_digest(a: &[u64; 4], b: &[u64; 4]) -> (r: bool)
    ensures
        r == (a@ == b@),
{
    let r = a[0] == b[0] && a[1] == b[1] && a[2] == b[2] && a[3] == b[3];
    proof {
        if r {
            assert(a@ =~= b@);
        }
    }
    r
}

/// The digest of a noun.
pub fn digest_of(n: &Noun) -> (d: [u64; 4])
    ensures
        d@ == noun_digest(*n),
        canonical_limbs(d@),
    decreases n,
{
    match n {
        Noun::Atom(v) => hash_atom(*v),
        Noun::Pair(h, t) => {
            let a = digest_of(h);
            let b = digest_of(t);
            hash_pair(a, b)
        },
    }
}

/// The eight little-endian bytes of a limb.
pub open spec fn limb_bytes(v: u64) -> Seq<u8> {
    Seq::new(8, |i: int| ((v >> (8 * i) as u64) & 0xff) as u8)
}

/// The 32-byte particle of a digest: its limbs, little-endian, in order.
pub open spec fn particle_bytes(d: Seq<u64>) -> Seq<u8> {
    limb_bytes(d[0]) + limb_bytes(d[1]) + limb_bytes(d[2]) + limb_bytes(d[3])
}

/// The particle of a canonical digest (`nox::data::digest_bytes`).
pub fn digest_bytes(d: [u64; 4]) -> (r: Vec<u8>)
    ensures
        r@ == particle_bytes(d@),
{
    let mut out: Vec<u8> = Vec::new();
    let mut k: usize = 0;
    while k < 4
        invariant
            k <= 4,
            out@ == if k == 0 {
                Seq::<u8>::empty()
            } else if k == 1 {
                limb_bytes(d@[0])
            } else if k == 2 {
                limb_bytes(d@[0]) + limb_bytes(d@[1])
            } else if k == 3 {
                limb_bytes(d@[0]) + limb_bytes(d@[1]) + limb_bytes(d@[2])
            } else {
                particle_bytes(d@)
            },
        decreases 4 - k,
    {
        let v = d[k];
        let ghost start = out@;
        let mut i: u64 = 0;
        while i < 8
            invariant
                i <= 8,
                out@ == start + Seq::new(i as nat, |j: int| ((v >> (8 * j) as u64) & 0xff) as u8),
            decreases 8 - i,
        {
            let b = ((v >> (8 * i)) & 0xff) as u8;
            out.push(b);
            assert(Seq::new((i + 1) as nat, |j: int| ((v >> (8 * j) as u64) & 0xff) as u8) =~= Seq::new(
                i as nat,
                |j: int| ((v >> (8 * j) as u64) & 0xff) as u8,
            ).push(b));
            i = i + 1;
        }
        assert(out@ =~= start + limb_bytes(v));
        k = k + 1;
    }
    out
}

/// The particle of a noun as lower-case hex.
pub open spec fn spec_particle(n: Noun) -> Seq<char> {
    spec_hex(particle_bytes(noun_digest(n)))
}

/// The particle of a noun: its digest's 32 bytes in lower-case hex.
pub fn particle(n: &Noun) -> (r: String)
    ensures
        r@ == spec_particle(*n),
{
    particle_of_digest(digest_of(n))
}

/// The particle of a digest: its 32 bytes in lower-case hex.
pub fn particle_of_digest(d: [u64; 4]) -> (r: String)
    ensures
        r@ == spec_hex(particle_bytes(d@)),
{
    let b = digest_bytes(d);
    hex(b.as_slice())
}

/// The hash-data noun that carries a digest: `[[h0 h1] [h2 h3]]`.
pub open spec fn spec_hash_data(d: Seq<u64>) -> Noun {
    Noun::Pair(
        Box::new(Noun::Pair(Box::new(Noun::Atom(d[0])), Box::new(Noun::Atom(d[1])))),
        Box::new(Noun::Pair(Box::new(Noun::Atom(d[2])), Box::new(Noun::Atom(d[3])))),
    )
}

/// The hash-data noun for a digest.
pub fn hash_data(d: [u64; 4]) -> (r: Noun)
    ensures
        r == spec_hash_data(d@),
{
    Noun::Pair(
        Box::new(Noun::Pair(Box::new(Noun::Atom(d[0])), Box::new(Noun::Atom(d[1])))),
        Box::new(Noun::Pair(Box::new(Noun::Atom(d[2])), Box::new(Noun::Atom(d[3])))),
    )
}

} // verus!

verus! {

/// A particle is 32 bytes: the four digest limbs in index order, each in
/// little-endian byte order (byte `8k + j` is byte `j` of limb `k`).
pub proof fn law_particle_is_limbs_little_endian(d: Seq<u64>)
    requires
        d.len() == 4,
    ensures
        particle_bytes(d).len() == 32,
        forall|k: int, j: int| 0 <= k < 4 && 0 <= j < 8
            ==> #[trigger] particle_bytes(d)[8 * k + j] == ((d[k] >> (8 * j) as u64) & 0xff) as u8,
{
    let p = particle_bytes(d);
    assert forall|k: int, j: int| 0 <= k < 4 && 0 <= j < 8
        implies #[trigger] p[8 * k + j] == ((d[k] >> (8 * j) as u64) & 0xff) as u8 by {
        if k == 0 {
            assert(p[8 * k + j] == limb_bytes(d[0])[j]);
        } else if k == 1 {
            assert(p[8 * k + j] == limb_bytes(d[1])[j]);
        } else if k == 2 {
            assert(p[8 * k + j] == limb_bytes(d[2])[j]);
        } else {
            assert(p[8 * k + j] == limb_bytes(d[3])[j]);
        }
    }
}

} // verus!
