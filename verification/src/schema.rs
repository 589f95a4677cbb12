//! The compiler-job schema over nouns: tagged records, length-prefixed
//! collections stored as complete binary trees with canonical empty padding,
//! and byte strings packed four bytes per little-endian U32 word.
use vstd::prelude::*;
use crate::noun::{Noun, P, canonical};
use crate::text::{text, fails_with};

verus! {

/// Collection tag of a sequence.
pub const SEQ1: u64 = 0x53455131;
/// Collection tag of a byte string.
pub const BYT1: u64 = 0x42595431;
/// Record tag of a program.
pub const ART1: u64 = 0x41525431;
/// Record tag of a compiler job.
pub const JOB1: u64 = 0x4a4f4231;
/// Record tag of job limits.
pub const LIM1: u64 = 0x4c494d31;
/// Record tag of compile options.
pub const OPT1: u64 = 0x4f505431;
/// Record tag of a package.
pub const PKG1: u64 = 0x504b4731;
/// Record tag of a module.
pub const MOD1: u64 = 0x4d4f4431;
/// Record tag of a compiler result.
pub const RES1: u64 = 0x52455331;
/// Record tag of a diagnostic.
pub const DIA1: u64 = 0x44494131;

/// 2^h.
pub open spec fn two_pow(h: nat) -> nat
    decreases h,
{
    if h == 0 { 1 } else { 2 * two_pow((h - 1) as nat) }
}

/// Height of the complete binary tree that holds `count` leaves: the least `h` with `count <= 2^h`.
pub open spec fn tree_height(count: nat) -> nat
    decreases count,
{
    if count <= 1 { 0 } else { 1 + tree_height(((count + 1) / 2) as nat) }
}

/// The canonical empty tree of height `h`: the atom 0 paired with itself `h` times.
pub open spec fn empty_tree(h: nat) -> Noun
    decreases h,
{
    if h == 0 {
        Noun::Atom(0)
    } else {
        Noun::Pair(Box::new(empty_tree((h - 1) as nat)), Box::new(empty_tree((h - 1) as nat)))
    }
}

/// A complete binary tree of height `h` holding `values` in its leftmost leaves,
/// every unoccupied subtree an empty tree.
pub open spec fn spec_tree(values: Seq<Noun>, h: nat) -> Noun
    decreases h,
{
    if values.len() == 0 {
        empty_tree(h)
    } else if h == 0 {
        values[0]
    } else {
        let half = two_pow((h - 1) as nat);
        let split = if values.len() < half { values.len() } else { half };
        Noun::Pair(
            Box::new(spec_tree(values.take(split as int), (h - 1) as nat)),
            Box::new(spec_tree(values.skip(split as int), (h - 1) as nat)),
        )
    }
}

/// A record: `[tag [f0 [f1 [... [fn 0]]]]]`.
pub open spec fn spec_record_body(fields: Seq<Noun>) -> Noun
    decreases fields.len(),
{
    if fields.len() == 0 {
        Noun::Atom(0)
    } else {
        Noun::Pair(Box::new(fields[0]), Box::new(spec_record_body(fields.drop_first())))
    }
}

pub open spec fn spec_record(tag: u64, fields: Seq<Noun>) -> Noun {
    Noun::Pair(Box::new(Noun::Atom(tag)), Box::new(spec_record_body(fields)))
}

/// A collection: `[tag [length tree]]`.
pub open spec fn spec_wrap(tag: u64, length: u64, values: Seq<Noun>) -> Noun {
    Noun::Pair(
        Box::new(Noun::Atom(tag)),
        Box::new(Noun::Pair(Box::new(Noun::Atom(length)), Box::new(spec_tree(values, tree_height(values.len()))))),
    )
}

/// Little-endian U32 value of up to four bytes.
pub open spec fn le_word(chunk: Seq<u8>) -> nat
    decreases chunk.len(),
{
    if chunk.len() == 0 { 0 } else { chunk[0] as nat + 256 * le_word(chunk.drop_first()) }
}

/// The words of a byte string: each 4-byte chunk as a little-endian U32, the last chunk zero-padded.
pub open spec fn spec_words(bytes: Seq<u8>) -> Seq<Noun>
    decreases bytes.len(),
{
    if bytes.len() == 0 {
        Seq::empty()
    } else {
        let n = if bytes.len() < 4 { bytes.len() } else { 4 };
        seq![Noun::Atom(le_word(bytes.take(n as int)) as u64)] + spec_words(bytes.skip(n as int))
    }
}

/// Number of words for `length` bytes.
pub open spec fn word_count(length: nat) -> nat {
    length / 4 + if length % 4 != 0 { 1nat } else { 0nat }
}

pub proof fn lemma_two_pow_pos(h: nat)
    ensures
        two_pow(h) >= 1,
    decreases h,
{
    if h > 0 {
        lemma_two_pow_pos((h - 1) as nat);
    }
}

pub proof fn lemma_height_bounds(count: nat)
    ensures
        count <= two_pow(tree_height(count)),
        tree_height(count) > 0 ==> two_pow((tree_height(count) - 1) as nat) < count,
    decreases count,
{
    if count > 1 {
        let c2 = ((count + 1) / 2) as nat;
        lemma_height_bounds(c2);
        lemma_two_pow_pos(tree_height(c2));
        if tree_height(c2) > 0 {
            assert(two_pow(tree_height(count)) == 2 * two_pow(tree_height(c2)));
        }
    }
}

proof fn lemma_height_le(c: nat, k: nat)
    requires
        c <= two_pow(k),
    ensures
        tree_height(c) <= k,
    decreases k,
{
    if c > 1 {
        assert(k > 0);
        let c2 = ((c + 1) / 2) as nat;
        assert(two_pow(k) == 2 * two_pow((k - 1) as nat));
        lemma_height_le(c2, (k - 1) as nat);
    }
}

pub proof fn lemma_two_pow_mono(a: nat, b: nat)
    requires
        a <= b,
    ensures
        two_pow(a) <= two_pow(b),
    decreases b,
{
    if a < b {
        lemma_two_pow_mono(a, (b - 1) as nat);
        lemma_two_pow_pos((b - 1) as nat);
    }
}

proof fn lemma_two_pow_63()
    ensures
        two_pow(63) == 0x8000_0000_0000_0000,
{
    reveal_with_fuel(two_pow, 64);
}

proof fn lemma_two_pow_32()
    ensures
        two_pow(32) == 0x1_0000_0000,
{
    reveal_with_fuel(two_pow, 33);
}

/// Height of the tree for `count` leaves, `count` at most 2^32.
pub fn height_of(count: usize) -> (h: u32)
    requires
        count <= 0x1_0000_0000,
    ensures
        h as nat == tree_height(count as nat),
        h <= 32,
{
    proof {
        lemma_two_pow_32();
        lemma_height_le(count as nat, 32);
    }
    let mut h: u32 = 0;
    let mut c: usize = count;
    while c > 1
        invariant
            h as nat + tree_height(c as nat) == tree_height(count as nat),
            tree_height(count as nat) <= 32,
        decreases c,
    {
        assert(tree_height(c as nat) == 1 + tree_height(((c as nat + 1) / 2) as nat));
        c = c / 2 + c % 2;
        h = h + 1;
    }
    h
}

} // verus!

verus! {

/// A deep copy of a noun.
pub fn copy_noun(n: &Noun) -> (r: Noun)
    ensures
        r == *n,
    decreases n,
{
    match n {
        Noun::Atom(v) => Noun::Atom(*v),
        Noun::Pair(h, t) => Noun::Pair(Box::new(copy_noun(h)), Box::new(copy_noun(t))),
    }
}

/// The canonical empty tree of height `h`.
pub fn make_empty(h: u32) -> (r: Noun)
    ensures
        r == empty_tree(h as nat),
    decreases h,
{
    if h == 0 {
        Noun::Atom(0)
    } else {
        let sub = make_empty(h - 1);
        let sub2 = copy_noun(&sub);
        Noun::Pair(Box::new(sub), Box::new(sub2))
    }
}

/// A package field: refuses words that are not canonical field values.
pub fn write_atom(value: u64) -> (r: Result<Noun, String>)
    ensures
        value < P ==> r == Ok::<Noun, String>(Noun::Atom(value)),
        value >= P ==> fails_with(r, "noncanonical package field"@),
{
    if value >= 0xffff_ffff_0000_0001 {
        return Err(text("noncanonical package field"));
    }
    Ok(Noun::Atom(value))
}

/// A record `[tag [f0 [... [fn 0]]]]`; refuses a noncanonical tag.
pub fn write_record(tag: u64, fields: Vec<Noun>) -> (r: Result<Noun, String>)
    ensures
        tag < P ==> r == Ok::<Noun, String>(spec_record(tag, fields@)),
        tag >= P ==> fails_with(r, "noncanonical package field"@),
{
    let ghost all = fields@;
    let mut fields = fields;
    let mut body = Noun::Atom(0);
    proof {
        assert(all.skip(all.len() as int) =~= Seq::<Noun>::empty());
    }
    while fields.len() > 0
        invariant
            fields@ == all.take(fields@.len() as int),
            fields@.len() <= all.len(),
            body == spec_record_body(all.skip(fields@.len() as int)),
        decreases fields@.len(),
    {
        let f = fields.pop().unwrap();
        let ghost k = fields@.len() as int;
        proof {
            let s = all.skip(k);
            assert(s.drop_first() =~= all.skip(k + 1));
            assert(s[0] == f);
            assert(fields@ =~= all.take(k));
        }
        body = Noun::Pair(Box::new(f), Box::new(body));
    }
    proof {
        assert(all.skip(0) =~= all);
    }
    let tag_node = write_atom(tag)?;
    Ok(Noun::Pair(Box::new(tag_node), Box::new(body)))
}

/// 2^k as a 64-bit word.
pub fn pow2_u64(k: u32) -> (r: u64)
    requires
        k <= 63,
    ensures
        r as nat == two_pow(k as nat),
{
    proof {
        lemma_two_pow_63();
    }
    let mut r: u64 = 1;
    let mut i: u32 = 0;
    while i < k
        invariant
            i <= k,
            k <= 63,
            r as nat == two_pow(i as nat),
            two_pow(63) == 0x8000_0000_0000_0000,
        decreases k - i,
    {
        proof {
            lemma_two_pow_mono((i + 1) as nat, 63);
        }
        assert(two_pow((i + 1) as nat) == 2 * two_pow(i as nat));
        r = r * 2;
        i = i + 1;
    }
    r
}

/// Takes the next `count` values (stored reversed at the end of `rev`) into a tree of height `h`.
fn take_tree(rev: &mut Vec<Noun>, count: usize, h: u32) -> (r: Noun)
    requires
        count <= old(rev)@.len(),
        count as nat <= two_pow(h as nat),
        h <= 32,
    ensures
        final(rev)@ == old(rev)@.take(old(rev)@.len() - count),
        r == spec_tree(old(rev)@.skip(old(rev)@.len() - count).reverse(), h as nat),
    decreases h,
{
    let ghost start = rev@;
    let ghost vals = start.skip(start.len() - count).reverse();
    if count == 0 {
        proof {
            assert(start.take(start.len() - count) =~= start);
        }
        return make_empty(h);
    }
    if h == 0 {
        let v = rev.pop().unwrap();
        proof {
            assert(rev@ =~= start.take(start.len() - 1));
            assert(vals[0] == v);
        }
        return v;
    }
    proof {
        lemma_two_pow_pos((h - 1) as nat);
        assert(two_pow(h as nat) == 2 * two_pow((h - 1) as nat));
    }
    let half = pow2_u64(h - 1);
    let split: usize = if (count as u64) < half { count } else { half as usize };
    let left = take_tree(rev, split, h - 1);
    let ghost mid = rev@;
    let right = take_tree(rev, count - split, h - 1);
    proof {
        let a = start.skip(start.len() - count);
        assert(vals.take(split as int) =~= start.skip(start.len() - split).reverse()) by {
            assert(mid =~= start.take(start.len() - split));
        }
        assert(vals.skip(split as int) =~= mid.skip(mid.len() - (count - split)).reverse());
        assert(rev@ =~= start.take(start.len() - count));
    }
    Noun::Pair(Box::new(left), Box::new(right))
}

/// The complete tree of height `tree_height(values.len())` over `values`.
pub fn write_tree(values: Vec<Noun>) -> (r: Noun)
    requires
        values@.len() <= 0x1_0000_0000,
    ensures
        r == spec_tree(values@, tree_height(values@.len())),
{
    let ghost all = values@;
    let count = values.len();
    let h = height_of(count);
    let mut values = values;
    let mut rev: Vec<Noun> = Vec::new();
    proof {
        assert(all.take(all.len() as int) =~= all);
        assert(all.skip(all.len() as int).reverse() =~= Seq::<Noun>::empty());
    }
    while values.len() > 0
        invariant
            values@ == all.take(values@.len() as int),
            values@.len() <= all.len(),
            rev@ == all.skip(values@.len() as int).reverse(),
        decreases values@.len(),
    {
        let ghost before = values@;
        let v = values.pop().unwrap();
        proof {
            let k = values@.len() as int;
            assert(values@ =~= before.drop_last());
            assert(v == before.last());
            assert(values@ =~= all.take(k));
            assert(v == all[k]);
            assert(all.skip(k) =~= seq![v] + all.skip(k + 1));
            assert(all.skip(k).reverse() =~= all.skip(k + 1).reverse().push(v));
        }
        rev.push(v);
    }
    proof {
        assert(all.skip(0) =~= all);
        assert(rev@.skip(0) =~= rev@);
        assert(rev@.reverse() =~= all);
        lemma_height_bounds(count as nat);
    }
    take_tree(&mut rev, count, h)
}

/// A collection `[tag [length tree]]` over `values`.
fn wrap(tag: u64, length: u32, values: Vec<Noun>) -> (r: Result<Noun, String>)
    requires
        tag < P,
    ensures
        values@.len() <= u32::MAX ==> r == Ok::<Noun, String>(spec_wrap(tag, length as u64, values@)),
        values@.len() > u32::MAX ==> fails_with(r, "package collection length"@),
{
    if values.len() > 0xffff_ffff {
        return Err(text("package collection length"));
    }
    let tree = write_tree(values);
    Ok(Noun::Pair(
        Box::new(Noun::Atom(tag)),
        Box::new(Noun::Pair(Box::new(Noun::Atom(length as u64)), Box::new(tree))),
    ))
}

/// A sequence of values: `[SEQ1 [length tree]]`.
pub fn write_seq(values: Vec<Noun>) -> (r: Result<Noun, String>)
    ensures
        values@.len() <= u32::MAX ==> r == Ok::<Noun, String>(spec_wrap(SEQ1, values@.len() as u64, values@)),
        values@.len() > u32::MAX ==> fails_with(r, "package sequence length"@),
{
    if values.len() > 0xffff_ffff {
        return Err(text("package sequence length"));
    }
    let length = values.len() as u32;
    wrap(SEQ1, length, values)
}

/// 256^n.
pub open spec fn pow256(n: nat) -> nat
    decreases n,
{
    if n == 0 { 1 } else { 256 * pow256((n - 1) as nat) }
}

pub proof fn lemma_pow256_small()
    ensures
        pow256(0) == 1,
        pow256(1) == 0x100,
        pow256(2) == 0x1_0000,
        pow256(3) == 0x100_0000,
        pow256(4) == 0x1_0000_0000,
{
    reveal_with_fuel(pow256, 5);
}

/// Little-endian U32 value of the bytes `value[start..end]`, at most four.
fn word_at(value: &[u8], start: usize, end: usize) -> (w: u64)
    requires
        start <= end <= value@.len(),
        end - start <= 4,
    ensures
        w as nat == le_word(value@.subrange(start as int, end as int)),
        w < pow256((end - start) as nat),
    decreases end - start,
{
    proof {
        lemma_pow256_small();
    }
    if start == end {
        proof {
            assert(value@.subrange(start as int, end as int).len() == 0);
        }
        0
    } else {
        let rest = word_at(value, start + 1, end);
        proof {
            let c = value@.subrange(start as int, end as int);
            assert(c.drop_first() =~= value@.subrange(start + 1, end as int));
        }
        value[start] as u64 + 256 * rest
    }
}

/// A byte string: `[BYT1 [length tree]]`, four bytes per little-endian word.
pub fn write_bytes(value: &[u8]) -> (r: Result<Noun, String>)
    ensures
        value@.len() <= u32::MAX ==> r == Ok::<Noun, String>(spec_wrap(BYT1, value@.len() as u64, spec_words(value@))),
        value@.len() > u32::MAX ==> fails_with(r, "package byte length"@),
{
    if value.len() > 0xffff_ffff {
        return Err(text("package byte length"));
    }
    let length = value.len() as u32;
    let mut words: Vec<Noun> = Vec::new();
    let mut pos: usize = 0;
    proof {
        assert(value@.skip(0) =~= value@);
        assert(Seq::<Noun>::empty() + spec_words(value@) =~= spec_words(value@));
    }
    while pos < value.len()
        invariant
            pos <= value@.len(),
            value@.len() <= u32::MAX,
            spec_words(value@) == words@ + spec_words(value@.skip(pos as int)),
            words@.len() <= pos,
        decreases value@.len() - pos,
    {
        let end = if value.len() - pos < 4 { value.len() } else { pos + 4 };
        let w = word_at(value, pos, end);
        proof {
            lemma_pow256_small();
            let rest = value@.skip(pos as int);
            let n = (end - pos) as int;
            assert(rest.take(n) =~= value@.subrange(pos as int, end as int));
            assert(rest.skip(n) =~= value@.skip(end as int));
        }
        words.push(Noun::Atom(w));
        pos = end;
    }
    proof {
        assert(value@.skip(pos as int).len() == 0);
        assert(words@ + Seq::<Noun>::empty() =~= words@);
    }
    wrap(BYT1, length, words)
}

} // verus!
