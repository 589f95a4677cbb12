//! Bounded traversal of the compiler-job schema. Every visited node is paid
//! for from a visit allowance; collection trees are walked by their declared
//! occupancy, and each unoccupied subtree must hash as the canonical empty padding.
use vstd::prelude::*;
use vstd::utf8::*;
use crate::noun::{Noun, canonical, field_value};
use crate::schema::{two_pow, tree_height, word_count, pow256, height_of, empty_tree, spec_tree, spec_wrap, spec_words, spec_record, spec_record_body, le_word, SEQ1, BYT1};
use crate::text::{text, push_hexnum, spec_hexnum, utf8_string};
use crate::digest::{noun_digest, empty_digest, digest_of, empty_digest_of, same_digest};
use crate::run::{elapsed_since, whole_millis};
use std::time::Instant;

verus! {

/// A bounded reader: what is left of its visit allowance, the longest
/// sequence it admits, and the clock of its deadline, if it has one.
pub struct Reader {
    pub remaining: u32,
    pub sequence_limit: u32,
    pub clock: Option<Clock>,
}

/// The deadline of an admission: when it started and how many milliseconds
/// it may take.
pub struct Clock {
    pub start: Instant,
    pub time_ms: u64,
}

impl Clock {
    /// Whether the time is up: at least `time_ms` whole milliseconds have
    /// passed since `start`. The clock decides; a zero allowance is always up.
    pub fn expired(&self) -> (r: bool)
        ensures
            self.time_ms == 0 ==> r,
    {
        expired_after(whole_millis(&elapsed_since(&self.start)), self.time_ms)
    }
}

/// The time is up once `elapsed_ms` whole milliseconds reach the allowance.
pub fn expired_after(elapsed_ms: u128, time_ms: u64) -> (r: bool)
    ensures
        r == (elapsed_ms >= time_ms as u128),
{
    elapsed_ms >= time_ms as u128
}

/// The refusal of a reader whose deadline has passed.
pub open spec fn late_msg() -> Seq<char> {
    "execution deadline exceeded during schema admission"@
}

/// The outcome is the deadline refusal.
pub open spec fn late<T>(r: Result<T, String>) -> bool {
    r matches Err(e) && e@ == late_msg()
}

/// The outcome is not decided by the clock: the reader has no deadline, or
/// the outcome is not the deadline refusal. Every reading step gives exactly
/// what its spec function gives in that case.
pub open spec fn on_time<T>(clock: Option<Clock>, r: Result<T, String>) -> bool {
    clock is None || !late(r)
}

/// A step of the reader: its outcome and the allowance left after it.
pub type Step<T> = (Result<T, Seq<char>>, u32);

pub open spec fn visits_msg() -> Seq<char> {
    "validation visits exhausted"@
}

/// Pays `visits` from the allowance.
pub open spec fn sp_charge(rem: u32, visits: u32) -> Step<()> {
    if visits > rem {
        (Err(visits_msg()), rem)
    } else {
        (Ok(()), (rem - visits) as u32)
    }
}

/// Reads a field atom (one visit).
pub open spec fn sp_field(n: Noun, rem: u32) -> Step<u64> {
    if rem < 1 {
        (Err(visits_msg()), rem)
    } else {
        match n {
            Noun::Atom(v) => (Ok(canonical(v)), (rem - 1) as u32),
            Noun::Pair(_, _) => (Err("expected Field atom"@), (rem - 1) as u32),
        }
    }
}

/// Reads a field atom that fits in 32 bits.
pub open spec fn sp_word(n: Noun, rem: u32) -> Step<u32> {
    let (r, m) = sp_field(n, rem);
    match r {
        Ok(v) => if v > u32::MAX {
            (Err("expected U32 atom"@), m)
        } else {
            (Ok(v as u32), m)
        },
        Err(e) => (Err(e), m),
    }
}

/// Four canonical limbs held as `[[a b] [c d]]`.
pub open spec fn digest_limbs(n: Noun) -> Option<Seq<u64>> {
    match n {
        Noun::Pair(l, r) => match (*l, *r) {
            (Noun::Pair(a, b), Noun::Pair(c, d)) => match (*a, *b, *c, *d) {
                (Noun::Atom(a), Noun::Atom(b), Noun::Atom(c), Noun::Atom(d)) => Some(
                    seq![canonical(a), canonical(b), canonical(c), canonical(d)],
                ),
                _ => None,
            },
            _ => None,
        },
        Noun::Atom(_) => None,
    }
}

/// Reads a digest (ten visits).
pub open spec fn sp_digest(n: Noun, rem: u32) -> Step<Seq<u64>> {
    if rem < 10 {
        (Err(visits_msg()), rem)
    } else {
        match digest_limbs(n) {
            Some(d) => (Ok(d), (rem - 10) as u32),
            None => (Err("digest shape"@), (rem - 10) as u32),
        }
    }
}

/// Splits a pair (two visits).
pub open spec fn sp_pair(n: Noun, rem: u32) -> Step<(Noun, Noun)> {
    if rem < 2 {
        (Err(visits_msg()), rem)
    } else {
        match n {
            Noun::Pair(h, t) => (Ok((*h, *t)), (rem - 2) as u32),
            Noun::Atom(_) => (Err("expected pair"@), (rem - 2) as u32),
        }
    }
}

/// Reads `count` leading fields of a record body; gives them and the rest.
pub open spec fn sp_fields(body: Noun, count: nat, rem: u32) -> Step<(Seq<Noun>, Noun)>
    decreases count,
{
    if count == 0 {
        (Ok((Seq::empty(), body)), rem)
    } else {
        let (p, m) = sp_pair(body, rem);
        match p {
            Err(e) => (Err(e), m),
            Ok((f, rest)) => {
                let (q, m2) = sp_fields(rest, (count - 1) as nat, m);
                match q {
                    Ok((fs, end)) => (Ok((seq![f] + fs, end)), m2),
                    Err(e) => (Err(e), m2),
                }
            },
        }
    }
}

/// The message for a record whose tag is not `tag`.
pub open spec fn record_tag_msg(tag: u64) -> Seq<char> {
    "record tag: expected 0x"@ + spec_hexnum(tag as nat)
}

/// Reads a record `[tag [f0 [... [f(count-1) 0]]]]` and gives its fields.
pub open spec fn sp_record(n: Noun, tag: u64, count: nat, rem: u32) -> Step<Seq<Noun>> {
    let (p, m) = sp_pair(n, rem);
    match p {
        Err(e) => (Err(e), m),
        Ok((actual, body)) => {
            let (t, m2) = sp_field(actual, m);
            match t {
                Err(e) => (Err(e), m2),
                Ok(v) => if v != tag {
                    (Err(record_tag_msg(tag)), m2)
                } else {
                    let (fs, m3) = sp_fields(body, count, m2);
                    match fs {
                        Err(e) => (Err(e), m3),
                        Ok((fields, end)) => {
                            let (z, m4) = sp_field(end, m3);
                            match z {
                                Err(e) => (Err(e), m4),
                                Ok(zv) => if zv != 0 {
                                    (Err("record terminator"@), m4)
                                } else {
                                    (Ok(fields), m4)
                                },
                            }
                        },
                    }
                },
            }
        },
    }
}

/// Bytes a words-mode walk has produced before its leaf `idx`.
pub open spec fn used_bytes(length: nat, idx: nat) -> nat {
    if 4 * idx < length { 4 * idx } else { length }
}

/// Bytes that leaf `idx` contributes.
pub open spec fn leaf_take(length: nat, idx: nat) -> nat {
    let left = (length - used_bytes(length, idx)) as nat;
    if left < 4 { left } else { 4 }
}

/// The first `take` little-endian bytes of `w`.
pub open spec fn le_bytes(w: u64, take: nat) -> Seq<u8> {
    Seq::new(take, |i: int| ((w >> (8 * i) as u64) & 0xff) as u8)
}

/// The check on byte-word leaf `idx` of a string of `length` bytes.
pub open spec fn sp_word_leaf(n: Noun, length: nat, idx: nat) -> Result<(), Seq<char>> {
    match n {
        Noun::Pair(_, _) => Err("byte word shape"@),
        Noun::Atom(v) => {
            let w = canonical(v);
            let take = leaf_take(length, idx);
            if w > u32::MAX {
                Err("byte word range"@)
            } else if take < 4 && (w >> (8 * take) as u64) != 0 {
                Err("unused high byte padding"@)
            } else {
                Ok(())
            }
        },
    }
}

/// The bytes that word leaves `ls`, the first of them leaf `idx`, stand for.
pub open spec fn sp_unwords(ls: Seq<Noun>, length: nat, idx: nat) -> Seq<u8>
    decreases ls.len(),
{
    if ls.len() == 0 {
        Seq::empty()
    } else {
        let here = match ls[0] {
            Noun::Atom(v) => le_bytes(canonical(v), leaf_take(length, idx)),
            Noun::Pair(_, _) => Seq::empty(),
        };
        here + sp_unwords(ls.drop_first(), length, idx + 1)
    }
}

/// Walks a collection tree of height `h` with `occ` occupied leaves, one visit
/// per node reached; gives the occupied leaves in order. In words mode each
/// leaf is checked as a byte word of a `length`-byte string whose leaves
/// before this subtree number `done`.
pub open spec fn sp_walk(n: Noun, occ: nat, h: nat, rem: u32, words: bool, length: nat, done: nat) -> Step<Seq<Noun>>
    decreases h,
{
    if rem < 1 {
        (Err(visits_msg()), rem)
    } else {
        let m = (rem - 1) as u32;
        if occ == 0 {
            if is_empty_tree(n, h) {
                (Ok(Seq::empty()), m)
            } else {
                (Err("collection padding"@), m)
            }
        } else if h == 0 {
            if words {
                match sp_word_leaf(n, length, done) {
                    Ok(()) => (Ok(seq![n]), m),
                    Err(e) => (Err(e), m),
                }
            } else {
                (Ok(seq![n]), m)
            }
        } else {
            match n {
                Noun::Atom(_) => (Err("collection branch"@), m),
                Noun::Pair(l, r) => {
                    let half = two_pow((h - 1) as nat);
                    let lo = if occ < half { occ } else { half };
                    let hi = if occ > half { (occ - half) as nat } else { 0 };
                    let (a, m2) = sp_walk(*l, lo, (h - 1) as nat, m, words, length, done);
                    match a {
                        Err(e) => (Err(e), m2),
                        Ok(la) => {
                            let (b, m3) = sp_walk(*r, hi, (h - 1) as nat, m2, words, length, done + la.len());
                            match b {
                                Err(e) => (Err(e), m3),
                                Ok(lb) => (Ok(la + lb), m3),
                            }
                        },
                    }
                },
            }
        }
    }
}

/// Padding of height `h`: a subtree whose digest is that of the canonical
/// empty tree of height `h`.
pub open spec fn is_empty_tree(n: Noun, h: nat) -> bool {
    noun_digest(n) == empty_digest(h)
}

/// Reads a collection header `[tag [length root]]` with `length <= limit`.
pub open spec fn sp_wrapper(n: Noun, tag: u64, limit: u32, rem: u32) -> Step<(u32, Noun)> {
    let (p, m) = sp_pair(n, rem);
    match p {
        Err(e) => (Err(e), m),
        Ok((actual, body)) => {
            let (t, m2) = sp_field(actual, m);
            match t {
                Err(e) => (Err(e), m2),
                Ok(v) => if v != tag {
                    (Err("collection tag"@), m2)
                } else {
                    let (q, m3) = sp_pair(body, m2);
                    match q {
                        Err(e) => (Err(e), m3),
                        Ok((len_node, root)) => {
                            let (w, m4) = sp_word(len_node, m3);
                            match w {
                                Err(e) => (Err(e), m4),
                                Ok(length) => if length > limit {
                                    (Err("collection length limit"@), m4)
                                } else {
                                    (Ok((length, root)), m4)
                                },
                            }
                        },
                    }
                },
            }
        },
    }
}

/// Reads a sequence of at most `min(limit, sequence_limit)` values.
pub open spec fn sp_list(n: Noun, limit: u32, sequence_limit: u32, rem: u32) -> Step<Seq<Noun>> {
    let cap = if limit < sequence_limit { limit } else { sequence_limit };
    let (w, m) = sp_wrapper(n, SEQ1, cap, rem);
    match w {
        Err(e) => (Err(e), m),
        Ok((length, root)) => if length > m {
            (Err(visits_msg()), m)
        } else {
            sp_walk(root, length as nat, tree_height(length as nat), m, false, 0, 0)
        },
    }
}

/// Reads a byte string of at most `limit` bytes.
pub open spec fn sp_bytes(n: Noun, limit: u32, rem: u32) -> Step<Seq<u8>> {
    let (w, m) = sp_wrapper(n, BYT1, limit, rem);
    match w {
        Err(e) => (Err(e), m),
        Ok((length, root)) => {
            let words = word_count(length as nat);
            if words > m {
                (Err(visits_msg()), m)
            } else {
                let (r, m2) = sp_walk(root, words, tree_height(words), m, true, length as nat, 0);
                match r {
                    Err(e) => (Err(e), m2),
                    Ok(ls) => (Ok(sp_unwords(ls, length as nat, 0)), m2),
                }
            }
        },
    }
}

/// Reads a UTF-8 string of at most `limit` bytes.
pub open spec fn sp_string(n: Noun, limit: u32, rem: u32) -> Step<Seq<char>> {
    let (b, m) = sp_bytes(n, limit, rem);
    match b {
        Err(e) => (Err(e), m),
        Ok(bytes) => if valid_utf8(bytes) {
            (Ok(decode_utf8(bytes)), m)
        } else {
            (Err("invalid UTF-8 string"@), m)
        },
    }
}

/// The referenced nouns.
pub open spec fn derefs(s: Seq<&Noun>) -> Seq<Noun> {
    s.map_values(|x: &Noun| *x)
}

} // verus!

verus! {

impl Reader {
    /// Pays `visits` from the allowance.
    /// Once the deadline has passed it refuses with [`late_msg`] before paying.
    pub fn charge(&mut self, visits: u32) -> (r: Result<(), String>)
        ensures
            final(self).sequence_limit == old(self).sequence_limit,
            final(self).clock == old(self).clock,
            final(self).remaining <= old(self).remaining,
            late(r) ==> final(self).remaining == old(self).remaining,
            on_time(old(self).clock, r) ==> (r is Ok, final(self).remaining) == (sp_charge(old(self).remaining, visits).0 is Ok,
                sp_charge(old(self).remaining, visits).1),
            on_time(old(self).clock, r) ==> (r is Err ==> r->Err_0@ == visits_msg()),
            old(self).clock matches Some(c) && c.time_ms == 0 ==> late(r),
    {
        if let Some(c) = &self.clock {
            if c.expired() {
                return Err(text("execution deadline exceeded during schema admission"));
            }
        }
        if visits > self.remaining {
            return Err(text("validation visits exhausted"));
        }
        self.remaining = self.remaining - visits;
        Ok(())
    }

    /// Reads a field atom: its canonical value.
    pub fn field(&mut self, n: &Noun) -> (r: Result<u64, String>)
        ensures
            final(self).sequence_limit == old(self).sequence_limit,
            final(self).remaining <= old(self).remaining,
            final(self).clock == old(self).clock,
            on_time(old(self).clock, r) ==> ({
                &&& final(self).remaining == sp_field(*n, old(self).remaining).1
                &&& match sp_field(*n, old(self).remaining).0 {
                    Ok(v) => r == Ok::<u64, String>(v),
                    Err(e) => r is Err && r->Err_0@ == e
                }
            }),
    {
        self.charge(1)?;
        match n {
            Noun::Atom(v) => Ok(field_value(*v)),
            Noun::Pair(_, _) => Err(text("expected Field atom")),
        }
    }

    /// Reads a field atom that fits in 32 bits.
    pub fn word(&mut self, n: &Noun) -> (r: Result<u32, String>)
        ensures
            final(self).sequence_limit == old(self).sequence_limit,
            final(self).remaining <= old(self).remaining,
            final(self).clock == old(self).clock,
            on_time(old(self).clock, r) ==> ({
                &&& final(self).remaining == sp_word(*n, old(self).remaining).1
                &&& match sp_word(*n, old(self).remaining).0 {
                    Ok(v) => r == Ok::<u32, String>(v),
                    Err(e) => r is Err && r->Err_0@ == e
                }
            }),
    {
        let v = self.field(n)?;
        if v > 0xffff_ffff {
            return Err(text("expected U32 atom"));
        }
        Ok(v as u32)
    }

    /// Reads a digest `[[a b] [c d]]`: its four canonical limbs.
    pub fn digest(&mut self, n: &Noun) -> (r: Result<[u64; 4], String>)
        ensures
            final(self).sequence_limit == old(self).sequence_limit,
            final(self).remaining <= old(self).remaining,
            final(self).clock == old(self).clock,
            on_time(old(self).clock, r) ==> ({
                &&& final(self).remaining == sp_digest(*n, old(self).remaining).1
                &&& match sp_digest(*n, old(self).remaining).0 {
                    Ok(d) => r is Ok && r->Ok_0@ == d,
                    Err(e) => r is Err && r->Err_0@ == e
                }
            }),
    {
        self.charge(10)?;
        if let Noun::Pair(l, r) = n {
            if let (Noun::Pair(a, b), Noun::Pair(c, d)) = (&**l, &**r) {
                if let (Noun::Atom(a), Noun::Atom(b), Noun::Atom(c), Noun::Atom(d)) = (
                    &**a,
                    &**b,
                    &**c,
                    &**d,
                ) {
                    let out = [field_value(*a), field_value(*b), field_value(*c), field_value(*d)];
                    assert(out@ =~= seq![canonical(*a), canonical(*b), canonical(*c), canonical(*d)]);
                    return Ok(out);
                }
            }
        }
        Err(text("digest shape"))
    }

    /// Splits a pair into its head and tail.
    pub fn pair<'a>(&mut self, n: &'a Noun) -> (r: Result<(&'a Noun, &'a Noun), String>)
        ensures
            final(self).sequence_limit == old(self).sequence_limit,
            final(self).remaining <= old(self).remaining,
            final(self).clock == old(self).clock,
            on_time(old(self).clock, r) ==> ({
                &&& final(self).remaining == sp_pair(*n, old(self).remaining).1
                &&& match sp_pair(*n, old(self).remaining).0 {
                    Ok((h, t)) => r is Ok && *r->Ok_0.0 == h && *r->Ok_0.1 == t,
                    Err(e) => r is Err && r->Err_0@ == e
                }
            }),
    {
        self.charge(2)?;
        match n {
            Noun::Pair(h, t) => Ok((&**h, &**t)),
            Noun::Atom(_) => Err(text("expected pair")),
        }
    }

    fn fields_into<'a>(&mut self, body: &'a Noun, count: usize, out: &mut Vec<&'a Noun>) -> (r: Result<&'a Noun, String>)
        ensures
            final(self).sequence_limit == old(self).sequence_limit,
            final(self).remaining <= old(self).remaining,
            final(self).clock == old(self).clock,
            on_time(old(self).clock, r) ==> ({
                &&& final(self).remaining == sp_fields(*body, count as nat, old(self).remaining).1
                &&& match sp_fields(*body, count as nat, old(self).remaining).0 {
                    Ok((fs, end)) => r is Ok && *r->Ok_0 == end && derefs(final(out)@) == derefs(old(out)@) + fs,
                    Err(e) => r is Err && r->Err_0@ == e
                }
            }),
        decreases count,
    {
        if count == 0 {
            assert(derefs(out@) =~= derefs(out@) + Seq::<Noun>::empty());
            return Ok(body);
        }
        let (f, rest) = self.pair(body)?;
        let ghost before = derefs(out@);
        out.push(f);
        assert(derefs(out@) =~= before.push(*f));
        let end = self.fields_into(rest, count - 1, out);
        proof {
            if let (Ok((fs, e)), _) = sp_fields(*rest, (count - 1) as nat, sp_pair(*body, old(self).remaining).1) {
                assert(before.push(*f) + fs =~= before + (seq![*f] + fs));
            }
        }
        end
    }

    /// Reads a record `[tag [f0 [... [f(count-1) 0]]]]`: its fields.
    #[verifier::rlimit(40)]
    pub fn record<'a>(&mut self, n: &'a Noun, tag: u64, count: usize) -> (r: Result<Vec<&'a Noun>, String>)
        ensures
            final(self).sequence_limit == old(self).sequence_limit,
            final(self).remaining <= old(self).remaining,
            r is Ok ==> r->Ok_0@.len() == count,
            final(self).clock == old(self).clock,
            on_time(old(self).clock, r) ==> ({
                &&& final(self).remaining == sp_record(*n, tag, count as nat, old(self).remaining).1
                &&& match sp_record(*n, tag, count as nat, old(self).remaining).0 {
                    Ok(fs) => r is Ok && derefs(r->Ok_0@) == fs && fs.len() == count,
                    Err(e) => r is Err && r->Err_0@ == e
                }
            }),
    {
        let (actual, body) = self.pair(n)?;
        let t = self.field(actual)?;
        if t != tag {
            let mut msg = text("record tag: expected 0x");
            push_hexnum(&mut msg, tag);
            return Err(msg);
        }
        let mut fields: Vec<&'a Noun> = Vec::new();
        assert(derefs(fields@) =~= Seq::<Noun>::empty());
        let ghost m2 = self.remaining;
        let end = self.fields_into(body, count, &mut fields)?;
        proof {
            lemma_fields_len(*body, count as nat, m2);
        }
        let z = self.field(end)?;
        if z != 0 {
            return Err(text("record terminator"));
        }
        proof {
            let fs = derefs(fields@);
            assert(Seq::<Noun>::empty() + fs =~= fs);
        }
        Ok(fields)
    }

    /// Reads a collection header `[tag [length root]]` with `length <= limit`.
    fn wrapper<'a>(&mut self, n: &'a Noun, tag: u64, limit: u32) -> (r: Result<(u32, &'a Noun), String>)
        ensures
            final(self).sequence_limit == old(self).sequence_limit,
            final(self).remaining <= old(self).remaining,
            final(self).clock == old(self).clock,
            on_time(old(self).clock, r) ==> ({
                &&& final(self).remaining == sp_wrapper(*n, tag, limit, old(self).remaining).1
                &&& match sp_wrapper(*n, tag, limit, old(self).remaining).0 {
                    Ok((length, root)) => r is Ok && r->Ok_0.0 == length && *r->Ok_0.1 == root,
                    Err(e) => r is Err && r->Err_0@ == e
                }
            }),
    {
        let (actual, body) = self.pair(n)?;
        let t = self.field(actual)?;
        if t != tag {
            return Err(text("collection tag"));
        }
        let (len_node, root) = self.pair(body)?;
        let length = self.word(len_node)?;
        if length > limit {
            return Err(text("collection length limit"));
        }
        Ok((length, root))
    }

    /// Walks a collection tree; see [`sp_walk`].
    #[verifier::rlimit(40)]
    fn walk<'a>(
        &mut self,
        n: &'a Noun,
        occ: u32,
        h: u32,
        words: bool,
        length: u32,
        nodes: &mut Vec<&'a Noun>,
        bytes: &mut Vec<u8>,
    ) -> (r: Result<(), String>)
        requires
            h <= 32,
            words ==> old(bytes)@.len() == used_bytes(length as nat, old(nodes)@.len()),
        ensures
            final(self).sequence_limit == old(self).sequence_limit,
            final(self).remaining <= old(self).remaining,
            final(self).clock == old(self).clock,
            on_time(old(self).clock, r) ==> ({
                &&& final(self).remaining == sp_walk(*n, occ as nat, h as nat, old(self).remaining, words, length as nat, old(nodes)@.len()).1
                &&& match sp_walk(*n, occ as nat, h as nat, old(self).remaining, words, length as nat, old(nodes)@.len()).0 {
                    Ok(ls) => r is Ok && derefs(final(nodes)@) == derefs(old(nodes)@) + ls
                        && (words ==> final(bytes)@ == old(bytes)@ + sp_unwords(ls, length as nat, old(nodes)@.len())
                            && final(bytes)@.len() == used_bytes(length as nat, final(nodes)@.len())),
                    Err(e) => r is Err && r->Err_0@ == e
                }
            }),
        decreases h,
    {
        let ghost done = nodes@.len();
        let ghost rem0 = self.remaining;
        self.charge(1)?;
        if occ == 0 {
            if empty_at(n, h) {
                assert(derefs(nodes@) =~= derefs(nodes@) + Seq::<Noun>::empty());
                assert(bytes@ =~= bytes@ + sp_unwords(Seq::<Noun>::empty(), length as nat, done));
                return Ok(());
            }
            return Err(text("collection padding"));
        }
        if h == 0 {
            let ghost before = derefs(nodes@);
            if words {
                let w = match n {
                    Noun::Atom(v) => field_value(*v),
                    Noun::Pair(_, _) => {
                        return Err(text("byte word shape"));
                    },
                };
                if w > 0xffff_ffff {
                    return Err(text("byte word range"));
                }
                let used = bytes.len();
                let left = length as usize - used;
                let take: usize = if left < 4 { left } else { 4 };
                if take < 4 && (w >> ((8 * take) as u64)) != 0 {
                    return Err(text("unused high byte padding"));
                }
                let ghost start = bytes@;
                let mut i: usize = 0;
                while i < take
                    invariant
                        i <= take,
                        take <= 4,
                        bytes@ == start + le_bytes(w, i as nat),
                    decreases take - i,
                {
                    let b = ((w >> ((8 * i) as u64)) & 0xff) as u8;
                    bytes.push(b);
                    assert(le_bytes(w, (i + 1) as nat) =~= le_bytes(w, i as nat).push(b));
                    i = i + 1;
                }
                proof {
                    let ls = seq![*n];
                    assert(ls.drop_first() =~= Seq::<Noun>::empty());
                    assert(sp_unwords(ls, length as nat, done) =~= le_bytes(w, take as nat) + sp_unwords(
                        Seq::<Noun>::empty(),
                        length as nat,
                        done + 1,
                    ));
                    assert(sp_unwords(ls, length as nat, done) =~= le_bytes(w, take as nat));
                }
            }
            nodes.push(n);
            assert(derefs(nodes@) =~= before + seq![*n]);
            return Ok(());
        }
        let (l, r) = match n {
            Noun::Pair(l, r) => (&**l, &**r),
            Noun::Atom(_) => {
                return Err(text("collection branch"));
            },
        };
        proof {
            lemma_pow_small(h);
        }
        let half = crate::schema::pow2_u64(h - 1);
        let lo: u32 = if (occ as u64) < half { occ } else { half as u32 };
        let hi: u32 = if (occ as u64) > half { occ - half as u32 } else { 0 };
        let ghost before = derefs(nodes@);
        let ghost bytes0 = bytes@;
        self.walk(l, lo, h - 1, words, length, nodes, bytes)?;
        let ghost mid = derefs(nodes@);
        let ghost bytes1 = bytes@;
        let ghost la = mid.subrange(before.len() as int, mid.len() as int);
        proof {
            assert(mid =~= before + la);
        }
        let res = self.walk(r, hi, h - 1, words, length, nodes, bytes);
        proof {
          if on_time(self.clock, res) {
            let first = sp_walk(*l, lo as nat, (h - 1) as nat, (rem0 - 1) as u32, words, length as nat, done);
            if let (Ok(la2), m2) = first {
                assert(la2 =~= la);
                let second = sp_walk(*r, hi as nat, (h - 1) as nat, m2, words, length as nat, done + la.len());
                if let (Ok(lb), _) = second {
                    assert(derefs(nodes@) =~= before + (la + lb));
                    if words {
                        lemma_unwords_append(la, lb, length as nat, done);
                        assert(bytes@ =~= bytes0 + sp_unwords(la + lb, length as nat, done));
                    }
                }
            }
          }
        }
        res
    }
}

impl Reader {
    /// Reads a sequence of at most `min(limit, sequence_limit)` values.
    pub fn list<'a>(&mut self, n: &'a Noun, limit: u32) -> (r: Result<Vec<&'a Noun>, String>)
        ensures
            final(self).sequence_limit == old(self).sequence_limit,
            final(self).remaining <= old(self).remaining,
            r is Ok ==> r->Ok_0@.len() <= limit && r->Ok_0@.len() <= old(self).sequence_limit,
            final(self).clock == old(self).clock,
            on_time(old(self).clock, r) ==> ({
                &&& final(self).remaining == sp_list(*n, limit, old(self).sequence_limit, old(self).remaining).1
                &&& match sp_list(*n, limit, old(self).sequence_limit, old(self).remaining).0 {
                    Ok(vs) => r is Ok && derefs(r->Ok_0@) == vs,
                    Err(e) => r is Err && r->Err_0@ == e
                }
            }),
    {
        let cap = if limit < self.sequence_limit { limit } else { self.sequence_limit };
        let (length, root) = self.wrapper(n, SEQ1, cap)?;
        if length > self.remaining {
            return Err(text("validation visits exhausted"));
        }
        let mut values: Vec<&'a Noun> = Vec::new();
        let mut unused: Vec<u8> = Vec::new();
        let h = height_of(length as usize);
        assert(derefs(values@) =~= Seq::<Noun>::empty());
        let ghost m = self.remaining;
        self.walk(root, length, h, false, 0, &mut values, &mut unused)?;
        proof {
            crate::schema::lemma_height_bounds(length as nat);
            lemma_walk_len(*root, length as nat, h as nat, m, false, 0, 0);
            assert(values@.len() == derefs(values@).len());
        }
        proof {
            let vs = derefs(values@);
            assert(Seq::<Noun>::empty() + vs =~= vs);
        }
        Ok(values)
    }

    /// Reads a byte string of at most `limit` bytes.
    pub fn bytes(&mut self, n: &Noun, limit: u32) -> (r: Result<Vec<u8>, String>)
        ensures
            final(self).sequence_limit == old(self).sequence_limit,
            final(self).remaining <= old(self).remaining,
            r is Ok ==> r->Ok_0@.len() <= limit,
            final(self).clock == old(self).clock,
            on_time(old(self).clock, r) ==> ({
                &&& final(self).remaining == sp_bytes(*n, limit, old(self).remaining).1
                &&& match sp_bytes(*n, limit, old(self).remaining).0 {
                    Ok(b) => r is Ok && r->Ok_0@ == b,
                    Err(e) => r is Err && r->Err_0@ == e
                }
            }),
    {
        let (length, root) = self.wrapper(n, BYT1, limit)?;
        let words: u32 = length / 4 + if length % 4 != 0 { 1u32 } else { 0u32 };
        if words > self.remaining {
            return Err(text("validation visits exhausted"));
        }
        let mut leaves: Vec<&Noun> = Vec::new();
        let mut bytes: Vec<u8> = Vec::new();
        let h = height_of(words as usize);
        self.walk(root, words, h, true, length, &mut leaves, &mut bytes)?;
        assert(bytes@ =~= Seq::<u8>::empty() + bytes@);
        Ok(bytes)
    }

    /// Reads a UTF-8 string of at most `limit` bytes.
    pub fn string(&mut self, n: &Noun, limit: u32) -> (r: Result<String, String>)
        ensures
            final(self).sequence_limit == old(self).sequence_limit,
            final(self).remaining <= old(self).remaining,
            final(self).clock == old(self).clock,
            on_time(old(self).clock, r) ==> ({
                &&& final(self).remaining == sp_string(*n, limit, old(self).remaining).1
                &&& match sp_string(*n, limit, old(self).remaining).0 {
                    Ok(s) => r is Ok && r->Ok_0@ == s,
                    Err(e) => r is Err && r->Err_0@ == e
                }
            }),
    {
        let bytes = self.bytes(n, limit)?;
        match utf8_string(bytes) {
            Ok(s) => Ok(s),
            Err(_) => Err(text("invalid UTF-8 string")),
        }
    }
}

/// Whether `n` is padding of height `h`: its digest is the empty tree's.
fn empty_at(n: &Noun, h: u32) -> (r: bool)
    ensures
        r == is_empty_tree(*n, h as nat),
{
    let d = digest_of(n);
    let e = empty_digest_of(h);
    same_digest(&d, &e)
}

proof fn lemma_walk_len(n: Noun, occ: nat, h: nat, rem: u32, words: bool, length: nat, done: nat)
    requires
        occ <= two_pow(h),
    ensures
        sp_walk(n, occ, h, rem, words, length, done).0 matches Ok(ls) ==> ls.len() == occ,
    decreases h,
{
    if rem >= 1 && occ > 0 && h > 0 {
        if let Noun::Pair(l, r) = n {
            let half = two_pow((h - 1) as nat);
            assert(two_pow(h) == 2 * half);
            let lo = if occ < half { occ } else { half };
            let hi = if occ > half { (occ - half) as nat } else { 0 };
            let (a, m2) = sp_walk(*l, lo, (h - 1) as nat, (rem - 1) as u32, words, length, done);
            lemma_walk_len(*l, lo, (h - 1) as nat, (rem - 1) as u32, words, length, done);
            if let Ok(la) = a {
                lemma_walk_len(*r, hi, (h - 1) as nat, m2, words, length, done + la.len());
            }
        }
    }
}

proof fn lemma_fields_len(body: Noun, count: nat, rem: u32)
    ensures
        sp_fields(body, count, rem).0 matches Ok((fs, _)) ==> fs.len() == count,
    decreases count,
{
    if count > 0 {
        let (p, m) = sp_pair(body, rem);
        if let Ok((f, rest)) = p {
            lemma_fields_len(rest, (count - 1) as nat, m);
        }
    }
}

proof fn lemma_pow_small(h: u32)
    requires
        1 <= h <= 32,
    ensures
        two_pow((h - 1) as nat) <= 0x8000_0000,
{
    crate::schema::lemma_two_pow_mono((h - 1) as nat, 31);
    reveal_with_fuel(two_pow, 32);
}

proof fn lemma_unwords_append(a: Seq<Noun>, b: Seq<Noun>, length: nat, idx: nat)
    ensures
        sp_unwords(a + b, length, idx) == sp_unwords(a, length, idx) + sp_unwords(b, length, idx + a.len()),
    decreases a.len(),
{
    if a.len() == 0 {
        assert(a + b =~= b);
    } else {
        lemma_unwords_append(a.drop_first(), b, length, idx + 1);
        assert((a + b).drop_first() =~= a.drop_first() + b);
        assert((a + b)[0] == a[0]);
    }
}

} // verus!

verus! {

/// Every word leaf in `vs`, the first of them leaf `done`, passes its check.
pub open spec fn leaves_ok(vs: Seq<Noun>, length: nat, done: nat) -> bool {
    forall|i: int| 0 <= i < vs.len() ==> sp_word_leaf(#[trigger] vs[i], length, done + i as nat) is Ok
}

proof fn lemma_empty_tree_is_empty(h: nat)
    ensures
        is_empty_tree(empty_tree(h), h),
    decreases h,
{
    if h > 0 {
        lemma_empty_tree_is_empty((h - 1) as nat);
    }
}

/// Walking a tree built from `values` gives `values` back, within
/// `2 * 2^h - 1` visits.
#[verifier::rlimit(40)]
proof fn lemma_walk_tree(values: Seq<Noun>, h: nat, rem: u32, words: bool, length: nat, done: nat)
    requires
        values.len() <= two_pow(h),
        rem >= 2 * two_pow(h) - 1,
        words ==> leaves_ok(values, length, done),
    ensures
        sp_walk(spec_tree(values, h), values.len(), h, rem, words, length, done).0 == Ok::<Seq<Noun>, Seq<char>>(values),
        sp_walk(spec_tree(values, h), values.len(), h, rem, words, length, done).1 >= rem - (2 * two_pow(h) - 1),
    decreases h,
{
    crate::schema::lemma_two_pow_pos(h);
    if values.len() == 0 {
        lemma_empty_tree_is_empty(h);
        assert(values =~= Seq::<Noun>::empty());
    } else if h == 0 {
        assert(values =~= seq![values[0]]);
        if words {
            assert(sp_word_leaf(values[0], length, done + 0 as nat) is Ok);
            assert(done + 0 as nat == done);
        }
    } else {
        let half = two_pow((h - 1) as nat);
        assert(two_pow(h) == 2 * half);
        crate::schema::lemma_two_pow_pos((h - 1) as nat);
        let split = if values.len() < half { values.len() } else { half };
        let a = values.take(split as int);
        let b = values.skip(split as int);
        let m = (rem - 1) as u32;
        if words {
            assert forall|i: int| 0 <= i < a.len() implies #[trigger] sp_word_leaf(a[i], length, done + i as nat) is Ok by {
                assert(a[i] == values[i]);
                assert(sp_word_leaf(values[i], length, done + i as nat) is Ok);
            }
            assert forall|i: int| 0 <= i < b.len() implies #[trigger] sp_word_leaf(b[i], length, (done + a.len()) + i as nat) is Ok by {
                assert(b[i] == values[split + i]);
                assert(sp_word_leaf(values[split + i], length, done + (split + i) as nat) is Ok);
                assert(done + (split + i) as nat == (done + a.len()) + i as nat);
            }
        }
        lemma_walk_tree(a, (h - 1) as nat, m, words, length, done);
        let m2 = sp_walk(spec_tree(a, (h - 1) as nat), a.len(), (h - 1) as nat, m, words, length, done).1;
        lemma_walk_tree(b, (h - 1) as nat, m2, words, length, done + a.len());
        assert(a + b =~= values);
    }
}

/// The bytes of a word below `256^n`, `n` at most four.
proof fn lemma_word_bytes(c: Seq<u8>)
    requires
        1 <= c.len() <= 4,
    ensures
        le_word(c) < pow256(c.len()),
        le_bytes(le_word(c) as u64, c.len()) == c,
        c.len() < 4 ==> ((le_word(c) as u64) >> (8 * c.len()) as u64) == 0,
{
    reveal_with_fuel(le_word, 5);
    crate::schema::lemma_pow256_small();
    let c0 = c[0] as u64;
    let c1: u64 = if c.len() > 1 { c[1] as u64 } else { 0 };
    let c2: u64 = if c.len() > 2 { c[2] as u64 } else { 0 };
    let c3: u64 = if c.len() > 3 { c[3] as u64 } else { 0 };
    let t1 = c.drop_first();
    let t2 = t1.drop_first();
    let t3 = t2.drop_first();
    if c.len() > 1 {
        assert(t1[0] == c[1]);
    }
    if c.len() > 2 {
        assert(t2[0] == c[2]);
    }
    if c.len() > 3 {
        assert(t3[0] == c[3]);
    }
    assert(le_word(c) == c0 + 256 * (c1 + 256 * (c2 + 256 * c3)));
    let w: u64 = (c0 + 256 * (c1 + 256 * (c2 + 256 * c3))) as u64;
    assert(((w >> 0u64) & 0xff) == c0 && ((w >> 8u64) & 0xff) == c1 && ((w >> 16u64) & 0xff) == c2
        && ((w >> 24u64) & 0xff) == c3 && (c1 == 0 && c2 == 0 && c3 == 0 ==> (w >> 8u64) == 0)
        && (c2 == 0 && c3 == 0 ==> (w >> 16u64) == 0) && (c3 == 0 ==> (w >> 24u64) == 0)) by (bit_vector)
        requires
            c0 < 256,
            c1 < 256,
            c2 < 256,
            c3 < 256,
            w == c0 + 256 * (c1 + 256 * (c2 + 256 * c3)),
    ;
    assert(le_bytes(w, c.len()) =~= c) by {
        assert forall|i: int| 0 <= i < c.len() implies #[trigger] le_bytes(w, c.len())[i] == c[i] by {
            if i == 0 {
                assert(8 * 0 == 0);
            } else if i == 1 {
                assert(8 * 1 == 8);
            } else if i == 2 {
                assert(8 * 2 == 16);
            } else {
                assert(8 * 3 == 24);
            }
        }
    }
}

/// The words of `b`, the first of them leaf `k` of a `total`-byte string,
/// pass their checks and stand for `b`.
#[verifier::rlimit(40)]
proof fn lemma_words_read_back(b: Seq<u8>, total: nat, k: nat)
    requires
        b.len() == 0 || total == b.len() + 4 * k,
    ensures
        leaves_ok(spec_words(b), total, k),
        sp_unwords(spec_words(b), total, k) == b,
        spec_words(b).len() == word_count(b.len()),
    decreases b.len(),
{
    if b.len() == 0 {
        assert(spec_words(b) =~= Seq::<Noun>::empty());
        assert(b =~= Seq::<u8>::empty());
    } else {
        let n: nat = if b.len() < 4 { b.len() } else { 4 };
        let c = b.take(n as int);
        let rest = b.skip(n as int);
        lemma_word_bytes(c);
        crate::schema::lemma_pow256_small();
        lemma_words_read_back(rest, total, k + 1);
        let w = le_word(c) as u64;
        let ws = spec_words(b);
        assert(ws == seq![Noun::Atom(w)] + spec_words(rest));
        assert(leaf_take(total, k) == n);
        assert(canonical(w) == w);
        assert(sp_word_leaf(Noun::Atom(w), total, k) is Ok);
        assert forall|i: int| 0 <= i < ws.len() implies #[trigger] sp_word_leaf(ws[i], total, k + i as nat) is Ok by {
            if i > 0 {
                assert(ws[i] == spec_words(rest)[i - 1]);
                assert(sp_word_leaf(spec_words(rest)[i - 1], total, (k + 1) + (i - 1) as nat) is Ok);
                assert((k + 1) + (i - 1) as nat == k + i as nat);
            } else {
                assert(k + i as nat == k);
            }
        }
        assert(ws.drop_first() =~= spec_words(rest));
        assert(c + rest =~= b);
        assert(word_count(b.len()) == 1 + word_count(rest.len()));
    }
}

/// Reading back the byte string that `write_bytes` writes gives the same
/// bytes, given an allowance for the header and every node of its tree.
pub proof fn law_bytes_read_back(b: Seq<u8>, limit: u32, rem: u32)
    requires
        b.len() <= limit,
        rem >= 6 + 2 * two_pow(tree_height(word_count(b.len()))),
    ensures
        sp_bytes(spec_wrap(BYT1, b.len() as u64, spec_words(b)), limit, rem).0 == Ok::<Seq<u8>, Seq<char>>(b),
        sp_bytes(spec_wrap(BYT1, b.len() as u64, spec_words(b)), limit, rem).1
            >= rem - (6 + 2 * two_pow(tree_height(word_count(b.len())))),
{
    let words = spec_words(b);
    lemma_words_read_back(b, b.len(), 0);
    crate::schema::lemma_height_bounds(word_count(b.len()));
    let h = tree_height(word_count(b.len()));
    assert(canonical(BYT1) == BYT1);
    assert(canonical(b.len() as u64) == b.len());
    lemma_walk_tree(words, h, (rem - 6) as u32, true, b.len(), 0);
}

/// Reading back the sequence that `write_seq` writes gives the same values,
/// given an allowance for the header and every node of its tree.
pub proof fn law_list_read_back(vs: Seq<Noun>, limit: u32, sequence_limit: u32, rem: u32)
    requires
        vs.len() <= limit,
        vs.len() <= sequence_limit,
        rem >= 6 + 2 * two_pow(tree_height(vs.len())),
    ensures
        sp_list(spec_wrap(SEQ1, vs.len() as u64, vs), limit, sequence_limit, rem).0 == Ok::<Seq<Noun>, Seq<char>>(vs),
        sp_list(spec_wrap(SEQ1, vs.len() as u64, vs), limit, sequence_limit, rem).1
            >= rem - (6 + 2 * two_pow(tree_height(vs.len()))),
{
    crate::schema::lemma_height_bounds(vs.len());
    let h = tree_height(vs.len());
    assert(canonical(SEQ1) == SEQ1);
    assert(canonical(vs.len() as u64) == vs.len());
    lemma_walk_tree(vs, h, (rem - 6) as u32, false, 0, 0);
}

proof fn lemma_fields_read_back(fields: Seq<Noun>, rem: u32)
    requires
        rem >= 2 * fields.len(),
    ensures
        sp_fields(spec_record_body(fields), fields.len(), rem).0 == Ok::<(Seq<Noun>, Noun), Seq<char>>((fields, Noun::Atom(0))),
        sp_fields(spec_record_body(fields), fields.len(), rem).1 == rem - 2 * fields.len(),
    decreases fields.len(),
{
    if fields.len() == 0 {
        assert(fields =~= Seq::<Noun>::empty());
    } else {
        lemma_fields_read_back(fields.drop_first(), (rem - 2) as u32);
        assert(seq![fields[0]] + fields.drop_first() =~= fields);
    }
}

/// Reading back the record that `write_record` writes gives its fields,
/// given an allowance of two visits per pair and one per atom.
pub proof fn law_record_read_back(tag: u64, fields: Seq<Noun>, rem: u32)
    requires
        tag < crate::noun::P,
        rem >= 4 + 2 * fields.len(),
    ensures
        sp_record(spec_record(tag, fields), tag, fields.len(), rem).0 == Ok::<Seq<Noun>, Seq<char>>(fields),
        sp_record(spec_record(tag, fields), tag, fields.len(), rem).1 == rem - (4 + 2 * fields.len()),
{
    assert(canonical(tag) == tag);
    lemma_fields_read_back(fields, (rem - 3) as u32);
}

/// Reading back the UTF-8 encoding of a text as a string gives the text.
pub proof fn law_string_read_back(s: Seq<char>, limit: u32, rem: u32)
    requires
        encode_utf8(s).len() <= limit,
        rem >= 6 + 2 * two_pow(tree_height(word_count(encode_utf8(s).len()))),
    ensures
        sp_string(spec_wrap(BYT1, encode_utf8(s).len() as u64, spec_words(encode_utf8(s))), limit, rem).0 == Ok::<Seq<char>, Seq<char>>(s),
        sp_string(spec_wrap(BYT1, encode_utf8(s).len() as u64, spec_words(encode_utf8(s))), limit, rem).1
            >= rem - (6 + 2 * two_pow(tree_height(word_count(encode_utf8(s).len())))),
{
    law_bytes_read_back(encode_utf8(s), limit, rem);
    encode_utf8_valid_utf8(s);
    encode_utf8_decode_utf8(s);
}

} // verus!

verus! {

/// Every leaf a walk gives was paid for with a visit.
proof fn lemma_walk_charges_leaves(n: Noun, occ: nat, h: nat, rem: u32, words: bool, length: nat, done: nat)
    ensures
        sp_walk(n, occ, h, rem, words, length, done).0 matches Ok(ls)
            ==> rem - sp_walk(n, occ, h, rem, words, length, done).1 >= ls.len(),
        sp_walk(n, occ, h, rem, words, length, done).1 <= rem,
    decreases h,
{
    if rem >= 1 && occ > 0 && h > 0 {
        if let Noun::Pair(l, r) = n {
            let half = two_pow((h - 1) as nat);
            let lo = if occ < half { occ } else { half };
            let hi = if occ > half { (occ - half) as nat } else { 0 };
            let (a, m2) = sp_walk(*l, lo, (h - 1) as nat, (rem - 1) as u32, words, length, done);
            lemma_walk_charges_leaves(*l, lo, (h - 1) as nat, (rem - 1) as u32, words, length, done);
            if let Ok(la) = a {
                lemma_walk_charges_leaves(*r, hi, (h - 1) as nat, m2, words, length, done + la.len());
            }
        }
    }
}

/// Reading a sequence charges at least one visit per value it gives, shared
/// subtrees included, besides its header.
pub proof fn law_list_charges_every_value(n: Noun, limit: u32, sequence_limit: u32, rem: u32)
    ensures
        sp_list(n, limit, sequence_limit, rem).0 matches Ok(vs)
            ==> rem - sp_list(n, limit, sequence_limit, rem).1 >= vs.len() + 6,
{
    let cap = if limit < sequence_limit { limit } else { sequence_limit };
    let (w, m) = sp_wrapper(n, SEQ1, cap, rem);
    if let Ok((length, root)) = w {
        if length <= m {
            lemma_walk_charges_leaves(root, length as nat, tree_height(length as nat), m, false, 0, 0);
        }
    }
}

} // verus!
