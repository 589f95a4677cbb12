//! Byte-lexicographic order of strings (the order of `str`'s `Ord`) and a
//! stable insertion sort by such a key.
use vstd::prelude::*;
use vstd::string::StringSliceAdditionalSpecFns;
use vstd::seq_lib::{to_multiset_insert, to_multiset_remove};
use vstd::multiset::Multiset;

verus! {

/// `a` and `b` agree on their first `k` bytes.
pub open spec fn agree(a: Seq<u8>, b: Seq<u8>, k: int) -> bool {
    forall|j: int| 0 <= j < k ==> #[trigger] a[j] == b[j]
}

/// Strict byte-lexicographic order: at the first difference `a` is smaller,
/// or `a` is a proper prefix of `b`.
pub open spec fn lex_lt(a: Seq<u8>, b: Seq<u8>) -> bool {
    exists|k: int|
        #![trigger agree(a, b, k)]
        0 <= k <= a.len() && k <= b.len() && agree(a, b, k) && (
            (k == a.len() && k < b.len()) || (k < a.len() && k < b.len() && a[k] < b[k]))
}

/// Non-strict byte-lexicographic order.
pub open spec fn lex_le(a: Seq<u8>, b: Seq<u8>) -> bool {
    !lex_lt(b, a)
}

/// Length of the common prefix of `a` and `b`.
pub open spec fn common_prefix(a: Seq<u8>, b: Seq<u8>) -> int
    decreases a.len(),
{
    if a.len() == 0 || b.len() == 0 || a[0] != b[0] {
        0
    } else {
        1 + common_prefix(a.drop_first(), b.drop_first())
    }
}

pub proof fn lemma_common_prefix(a: Seq<u8>, b: Seq<u8>)
    ensures
        0 <= common_prefix(a, b) <= a.len(),
        common_prefix(a, b) <= b.len(),
        agree(a, b, common_prefix(a, b)),
        common_prefix(a, b) < a.len() && common_prefix(a, b) < b.len()
            ==> a[common_prefix(a, b)] != b[common_prefix(a, b)],
    decreases a.len(),
{
    if a.len() == 0 || b.len() == 0 || a[0] != b[0] {
    } else {
        lemma_common_prefix(a.drop_first(), b.drop_first());
        let c = common_prefix(a.drop_first(), b.drop_first());
        assert forall|j: int| 0 <= j < c + 1 implies #[trigger] a[j] == b[j] by {
            if j > 0 {
                assert(a[j] == a.drop_first()[j - 1]);
                assert(b[j] == b.drop_first()[j - 1]);
            }
        }
    }
}

/// The first difference decides the order.
pub proof fn lemma_lex_lt_at(a: Seq<u8>, b: Seq<u8>)
    ensures
        ({
            let c = common_prefix(a, b);
            lex_lt(a, b) <==> ((c == a.len() && c < b.len()) || (c < a.len() && c < b.len() && a[c] < b[c]))
        }),
{
    lemma_common_prefix(a, b);
    let c = common_prefix(a, b);
    if lex_lt(a, b) {
        let k = choose|k: int|
            #![trigger agree(a, b, k)]
            0 <= k <= a.len() && k <= b.len() && agree(a, b, k) && (
                (k == a.len() && k < b.len()) || (k < a.len() && k < b.len() && a[k] < b[k]));
        if k < c {
            assert(a[k] == b[k]);
        } else if k > c {
            assert(a[c] == b[c]);
        }
    } else {
        assert(agree(a, b, c));
    }
}

/// Trichotomy of the byte order.
pub proof fn lemma_lex_total(a: Seq<u8>, b: Seq<u8>)
    ensures
        lex_lt(a, b) || lex_lt(b, a) || a == b,
        !(lex_lt(a, b) && lex_lt(b, a)),
        !lex_lt(a, a),
{
    lemma_lex_lt_at(a, b);
    lemma_lex_lt_at(b, a);
    lemma_lex_lt_at(a, a);
    lemma_common_prefix(a, b);
    lemma_common_prefix(b, a);
    lemma_common_prefix(a, a);
    lemma_common_prefix_sym(a, b);
    let c = common_prefix(a, b);
    if !lex_lt(a, b) && !lex_lt(b, a) {
        assert(c == a.len() && c == b.len());
        assert(a =~= b);
    }
    if common_prefix(a, a) < a.len() {
        assert(a[common_prefix(a, a)] == a[common_prefix(a, a)]);
    }
}

pub proof fn lemma_common_prefix_sym(a: Seq<u8>, b: Seq<u8>)
    ensures
        common_prefix(a, b) == common_prefix(b, a),
    decreases a.len(),
{
    if a.len() == 0 || b.len() == 0 || a[0] != b[0] {
    } else {
        lemma_common_prefix_sym(a.drop_first(), b.drop_first());
    }
}

/// Transitivity of the strict byte order.
pub proof fn lemma_lex_trans(a: Seq<u8>, b: Seq<u8>, c: Seq<u8>)
    requires
        lex_lt(a, b),
        lex_lt(b, c),
    ensures
        lex_lt(a, c),
{
    lemma_lex_lt_at(a, b);
    lemma_lex_lt_at(b, c);
    lemma_lex_lt_at(a, c);
    lemma_common_prefix(a, b);
    lemma_common_prefix(b, c);
    lemma_common_prefix(a, c);
    let x = common_prefix(a, b);
    let y = common_prefix(b, c);
    let m = if x < y { x } else { y };
    assert(agree(a, c, m));
    let z = common_prefix(a, c);
    if z < m {
        assert(a[z] == c[z]);
    }
}

/// Non-strict transitivity.
pub proof fn lemma_lex_le_trans(a: Seq<u8>, b: Seq<u8>, c: Seq<u8>)
    requires
        lex_le(a, b),
        lex_le(b, c),
    ensures
        lex_le(a, c),
{
    lemma_lex_total(a, b);
    lemma_lex_total(b, c);
    lemma_lex_total(a, c);
    if lex_lt(c, a) {
        if a == b {
        } else if b == c {
        } else {
            lemma_lex_trans(a, b, c);
        }
    }
}

/// Compares two strings by their UTF-8 bytes: whether `a` sorts strictly before `b`.
pub fn str_lt(a: &str, b: &str) -> (r: bool)
    ensures
        r == lex_lt(a.spec_bytes(), b.spec_bytes()),
{
    let x = a.as_bytes();
    let y = b.as_bytes();
    let mut i: usize = 0;
    while i < x.len() && i < y.len() && x[i] == y[i]
        invariant
            i <= x@.len(),
            i <= y@.len(),
            agree(x@, y@, i as int),
        decreases x@.len() - i,
    {
        i = i + 1;
    }
    proof {
        lemma_common_prefix(x@, y@);
        lemma_lex_lt_at(x@, y@);
        let c = common_prefix(x@, y@);
        if (i as int) < c {
            assert(x@[i as int] == y@[i as int]);
        } else if (i as int) > c {
            assert(x@[c] == y@[c]);
        }
    }
    if i == x.len() {
        i < y.len()
    } else if i == y.len() {
        false
    } else {
        x[i] < y[i]
    }
}

/// Whether two strings hold the same bytes.
pub fn str_eq(a: &str, b: &str) -> (r: bool)
    ensures
        r == (a.spec_bytes() == b.spec_bytes()),
{
    let lt = str_lt(a, b);
    let gt = str_lt(b, a);
    proof {
        lemma_lex_total(a.spec_bytes(), b.spec_bytes());
    }
    !lt && !gt
}

/// A value sorted by a string key.
pub trait SortKey {
    /// UTF-8 bytes of the key.
    spec fn key_bytes(&self) -> Seq<u8>;

    /// The key.
    fn key(&self) -> (r: &str)
        ensures
            r.spec_bytes() == self.key_bytes();
}

/// `s` is non-decreasing by key.
pub open spec fn sorted_by_key<T: SortKey>(s: Seq<T>) -> bool {
    forall|i: int, j: int| 0 <= i < j < s.len() ==> lex_le(#[trigger] s[i].key_bytes(), #[trigger] s[j].key_bytes())
}

impl SortKey for String {
    open spec fn key_bytes(&self) -> Seq<u8> {
        vstd::utf8::encode_utf8(self@)
    }

    fn key(&self) -> (r: &str) {
        self.as_str()
    }
}

/// The elements of `s` whose key is `k`, in their order in `s`.
pub open spec fn with_key<T: SortKey>(s: Seq<T>, k: Seq<u8>) -> Seq<T>
    decreases s.len(),
{
    if s.len() == 0 {
        Seq::empty()
    } else if s[0].key_bytes() == k {
        seq![s[0]] + with_key(s.drop_first(), k)
    } else {
        with_key(s.drop_first(), k)
    }
}

proof fn lemma_with_key_append<T: SortKey>(a: Seq<T>, b: Seq<T>, k: Seq<u8>)
    ensures
        with_key(a + b, k) == with_key(a, k) + with_key(b, k),
    decreases a.len(),
{
    if a.len() == 0 {
        assert(a + b =~= b);
        assert(with_key(a, k) + with_key(b, k) =~= with_key(b, k));
    } else {
        assert((a + b).drop_first() =~= a.drop_first() + b);
        lemma_with_key_append(a.drop_first(), b, k);
        assert((a + b)[0] == a[0]);
        if a[0].key_bytes() == k {
            assert(seq![a[0]] + (with_key(a.drop_first(), k) + with_key(b, k))
                =~= (seq![a[0]] + with_key(a.drop_first(), k)) + with_key(b, k));
        }
    }
}

proof fn lemma_with_key_none<T: SortKey>(s: Seq<T>, k: Seq<u8>)
    requires
        forall|i: int| 0 <= i < s.len() ==> #[trigger] s[i].key_bytes() != k,
    ensures
        with_key(s, k) == Seq::<T>::empty(),
    decreases s.len(),
{
    if s.len() > 0 {
        assert(s[0].key_bytes() != k);
        assert forall|i: int| 0 <= i < s.drop_first().len() implies #[trigger] s.drop_first()[i].key_bytes() != k by {
            assert(s.drop_first()[i] == s[i + 1]);
        }
        lemma_with_key_none(s.drop_first(), k);
    }
}

/// One insertion step keeps, for every key, the order of the elements with
/// that key: `x`, taken from the front of the input, goes after every sorted
/// element of its key.
proof fn lemma_insert_keeps_order<T: SortKey>(before: Seq<T>, pos: int, x: T, rest: Seq<T>, k: Seq<u8>)
    requires
        0 <= pos <= before.len(),
        forall|i: int| pos <= i < before.len() ==> lex_lt(x.key_bytes(), #[trigger] before[i].key_bytes()),
    ensures
        with_key(before.insert(pos, x), k) + with_key(rest, k) == with_key(before, k) + with_key(seq![x] + rest, k),
{
    let head = before.take(pos);
    let tail = before.skip(pos);
    assert(before =~= head + tail);
    assert(before.insert(pos, x) =~= head + (seq![x] + tail));
    lemma_with_key_append(head, seq![x] + tail, k);
    lemma_with_key_append(seq![x], tail, k);
    lemma_with_key_append(head, tail, k);
    lemma_with_key_append(seq![x], rest, k);
    assert(seq![x].drop_first() =~= Seq::<T>::empty());
    if x.key_bytes() == k {
        assert forall|i: int| 0 <= i < tail.len() implies #[trigger] tail[i].key_bytes() != k by {
            assert(tail[i] == before[pos + i]);
            lemma_lex_lt_irreflexive(x.key_bytes(), tail[i].key_bytes());
        }
        lemma_with_key_none(tail, k);
        assert(with_key(tail, k) + with_key(seq![x] + rest, k) =~= with_key(seq![x] + rest, k));
        assert(with_key(head, k) + (with_key(seq![x], k) + Seq::<T>::empty()) + with_key(rest, k)
            =~= with_key(head, k) + Seq::<T>::empty() + (with_key(seq![x], k) + with_key(rest, k)));
    } else {
        assert(seq![x][0] == x);
        assert(with_key(Seq::<T>::empty(), k) =~= Seq::<T>::empty());
        assert(with_key(seq![x], k) == with_key(seq![x].drop_first(), k));
        assert(with_key(seq![x], k) =~= Seq::<T>::empty());
        assert(with_key(head, k) + (Seq::<T>::empty() + with_key(tail, k)) + with_key(rest, k)
            =~= with_key(head, k) + with_key(tail, k) + (Seq::<T>::empty() + with_key(rest, k)));
    }
}

/// A key is not strictly below itself.
proof fn lemma_lex_lt_irreflexive(a: Seq<u8>, b: Seq<u8>)
    requires
        lex_lt(a, b),
    ensures
        a != b,
{
    lemma_lex_total(a, a);
}

/// Sorts by key, keeping equal keys in their input order (`sort_by` on the key).
pub fn sort_by_key<T: SortKey>(v: &mut Vec<T>)
    ensures
        final(v)@.to_multiset() == old(v)@.to_multiset(),
        final(v)@.len() == old(v)@.len(),
        sorted_by_key(final(v)@),
        forall|k: Seq<u8>| #[trigger] with_key(final(v)@, k) == with_key(old(v)@, k),
{
    broadcast use {to_multiset_insert, to_multiset_remove, vstd::seq_lib::group_to_multiset_ensures, vstd::multiset::group_multiset_axioms};
    let ghost given = v@;
    let mut input: Vec<T> = Vec::new();
    std::mem::swap(&mut input, v);
    let mut sorted: Vec<T> = Vec::new();
    proof {
        assert forall|k: Seq<u8>| #[trigger] with_key(given, k) == with_key(sorted@, k) + with_key(input@, k) by {
            assert(with_key(sorted@, k) =~= Seq::<T>::empty());
            assert(input@ =~= given);
            assert(Seq::<T>::empty() + with_key(input@, k) =~= with_key(input@, k));
        }
        assert(sorted@.to_multiset() =~= Multiset::empty());
        assert(sorted@.to_multiset().add(input@.to_multiset()) =~= given.to_multiset());
    }
    while input.len() > 0
        invariant
            sorted@.to_multiset().add(input@.to_multiset()) == given.to_multiset(),
            sorted@.len() + input@.len() == given.len(),
            sorted_by_key(sorted@),
            forall|k: Seq<u8>| #[trigger] with_key(given, k) == with_key(sorted@, k) + with_key(input@, k),
        decreases input@.len(),
    {
        let ghost in_before = input@;
        let x = input.remove(0);
        let ghost before = sorted@;
        proof {
            assert(in_before[0] == x);
            assert(in_before.contains(x));
            vstd::seq_lib::to_multiset_contains(in_before, x);
            assert(input@ =~= in_before.remove(0));
            to_multiset_remove(in_before, 0);
            assert(input@.to_multiset() == in_before.to_multiset().remove(x));
        }
        let mut pos: usize = 0;
        while pos < sorted.len() && !str_lt(x.key(), sorted[pos].key())
            invariant
                pos <= sorted@.len(),
                sorted@ == before,
                forall|i: int| 0 <= i < pos ==> lex_le(#[trigger] sorted@[i].key_bytes(), x.key_bytes()),
            decreases sorted@.len() - pos,
        {
            proof {
                lemma_lex_total(sorted@[pos as int].key_bytes(), x.key_bytes());
            }
            pos = pos + 1;
        }
        proof {
            if pos < sorted@.len() {
                assert(lex_lt(x.key_bytes(), sorted@[pos as int].key_bytes()));
            }
        }
        proof {
            assert forall|i: int| pos <= i < before.len() implies lex_lt(x.key_bytes(), #[trigger] before[i].key_bytes()) by {
                if i > pos {
                    assert(lex_le(before[pos as int].key_bytes(), before[i].key_bytes()));
                    lemma_lex_total(x.key_bytes(), before[i].key_bytes());
                    if !lex_lt(x.key_bytes(), before[i].key_bytes()) {
                        lemma_lex_le_trans(before[pos as int].key_bytes(), before[i].key_bytes(), x.key_bytes());
                    }
                }
            }
            assert(in_before =~= seq![x] + input@);
            assert forall|k: Seq<u8>| #[trigger] with_key(given, k) == with_key(before.insert(pos as int, x), k) + with_key(input@, k) by {
                lemma_insert_keeps_order(before, pos as int, x, input@, k);
            }
        }
        sorted.insert(pos, x);
        proof {
            assert(sorted@ == before.insert(pos as int, x));
            to_multiset_insert(before, pos as int, x);
            assert(sorted@.to_multiset() == before.to_multiset().insert(x));
            assert(sorted@.to_multiset().add(input@.to_multiset()) =~= before.to_multiset().add(in_before.to_multiset()));
            let s = sorted@;
            assert forall|i: int, j: int| 0 <= i < j < s.len() implies lex_le(#[trigger] s[i].key_bytes(), #[trigger] s[j].key_bytes()) by {
                if j < pos {
                    assert(s[i] == before[i] && s[j] == before[j]);
                } else if j == pos {
                    assert(s[i] == before[i]);
                } else if i > pos {
                    assert(s[i] == before[i - 1] && s[j] == before[j - 1]);
                } else if i == pos {
                    assert(s[j] == before[j - 1]);
                    assert(lex_lt(x.key_bytes(), before[pos as int].key_bytes()));
                    lemma_lex_total(x.key_bytes(), before[pos as int].key_bytes());
                    if j - 1 > pos {
                        assert(lex_le(before[pos as int].key_bytes(), before[j - 1].key_bytes()));
                    }
                    lemma_lex_le_trans(x.key_bytes(), before[pos as int].key_bytes(), before[j - 1].key_bytes());
                } else {
                    assert(s[i] == before[i] && s[j] == before[j - 1]);
                    assert(lex_le(before[i].key_bytes(), x.key_bytes()));
                    lemma_lex_total(x.key_bytes(), before[pos as int].key_bytes());
                    if j - 1 > pos {
                        assert(lex_le(before[pos as int].key_bytes(), before[j - 1].key_bytes()));
                    }
                    lemma_lex_le_trans(x.key_bytes(), before[pos as int].key_bytes(), before[j - 1].key_bytes());
                    lemma_lex_le_trans(before[i].key_bytes(), x.key_bytes(), before[j - 1].key_bytes());
                }
            }
        }
    }
    proof {
        assert(input@.to_multiset() =~= Multiset::empty());
        assert(sorted@.to_multiset() =~= given.to_multiset());
        assert forall|k: Seq<u8>| #[trigger] with_key(sorted@, k) == with_key(given, k) by {
            assert(with_key(input@, k) =~= Seq::<T>::empty());
            assert(with_key(sorted@, k) + Seq::<T>::empty() =~= with_key(sorted@, k));
        }
    }
    *v = sorted;
}

} // verus!
