//! Nouns: the universal nox value, an atom or a pair of nouns, and the
//! canonical Goldilocks value of an atom.
use vstd::prelude::*;

verus! {

/// The Goldilocks prime 2^64 - 2^32 + 1.
pub const P: u64 = 0xffff_ffff_0000_0001;

/// A nox value: a field atom or a pair.
#[derive(Debug, PartialEq, Eq)]
pub enum Noun {
    Atom(u64),
    Pair(Box<Noun>, Box<Noun>),
}

/// Canonical field value of a 64-bit word: reduced once below `P`.
pub open spec fn canonical(v: u64) -> u64 {
    if v >= P { (v - P) as u64 } else { v }
}

/// `Goldilocks::new(v).as_u64()`: the canonical field value of `v`, in `[0, P)`.
#[verifier::external_body]
pub(crate) fn field_value(v: u64) -> (r: u64)
    ensures
        r == canonical(v),
{
    nebu::Goldilocks::new(v).as_u64()
}

/// Every atom of the noun is a canonical field value.
pub open spec fn is_canonical(n: Noun) -> bool
    decreases n,
{
    match n {
        Noun::Atom(v) => v < P,
        Noun::Pair(h, t) => is_canonical(*h) && is_canonical(*t),
    }
}

/// Number of atoms and pairs in the noun.
pub open spec fn size(n: Noun) -> nat
    decreases n,
{
    match n {
        Noun::Atom(_) => 1,
        Noun::Pair(h, t) => 1 + size(*h) + size(*t),
    }
}

/// Pair nesting depth of the noun (atoms have depth 0).
pub open spec fn depth(n: Noun) -> nat
    decreases n,
{
    match n {
        Noun::Atom(_) => 0,
        Noun::Pair(h, t) => 1 + if depth(*h) >= depth(*t) { depth(*h) } else { depth(*t) },
    }
}

/// Fold a non-empty sequence to the right: `[a b c]` is `[a [b c]]`.
pub open spec fn fold_right(s: Seq<Noun>) -> Noun
    decreases s.len(),
{
    if s.len() <= 1 {
        s[0]
    } else {
        Noun::Pair(Box::new(s[0]), Box::new(fold_right(s.drop_first())))
    }
}

/// Folds the elements of a cell to the right.
pub fn fold_cell(elems: Vec<Noun>) -> (r: Noun)
    requires
        elems@.len() >= 1,
    ensures
        r == fold_right(elems@),
{
    let ghost orig = elems@;
    let mut elems = elems;
    let mut acc = elems.pop().unwrap();
    proof {
        assert(orig.subrange(orig.len() - 1, orig.len() as int) =~= seq![acc]);
    }
    while elems.len() > 0
        invariant
            elems@ == orig.subrange(0, elems@.len() as int),
            elems@.len() < orig.len(),
            acc == fold_right(orig.subrange(elems@.len() as int, orig.len() as int)),
        decreases elems@.len(),
    {
        let e = elems.pop().unwrap();
        let ghost k = elems@.len() as int;
        proof {
            let tail = orig.subrange(k, orig.len() as int);
            assert(tail.drop_first() =~= orig.subrange(k + 1, orig.len() as int));
            assert(tail[0] == e);
        }
        acc = Noun::Pair(Box::new(e), Box::new(acc));
    }
    proof {
        assert(orig.subrange(0, orig.len() as int) =~= orig);
    }
    acc
}

} // verus!
