//! Structural names admitted by the compiler schema: identifiers, dotted
//! module paths and printable origin labels. All are ASCII by construction.
use vstd::prelude::*;
use vstd::string::{is_ascii_spec_bytes, StringSliceAdditionalSpecFns};

verus! {

/// `[A-Za-z_]`
pub open spec fn ident_start(c: char) -> bool {
    ('a' <= c && c <= 'z') || ('A' <= c && c <= 'Z') || c == '_'
}

/// `[A-Za-z0-9_]`
pub open spec fn ident_char(c: char) -> bool {
    ident_start(c) || ('0' <= c && c <= '9')
}

/// An identifier: 1 to 255 characters, a letter or underscore first, then
/// letters, digits and underscores.
pub open spec fn spec_identifier(s: Seq<char>) -> bool {
    &&& 0 < s.len() <= 255
    &&& ident_start(s[0])
    &&& forall|i: int| 0 <= i < s.len() ==> #[trigger] ident_char(s[i])
}

/// The pieces of `s` between dots, as `str::split('.')` yields them.
pub open spec fn dot_segments(s: Seq<char>) -> Seq<Seq<char>>
    decreases s.len(),
{
    if s.len() == 0 {
        seq![Seq::empty()]
    } else {
        let r = dot_segments(s.drop_last());
        if s.last() == '.' {
            r.push(Seq::empty())
        } else {
            r.update(r.len() - 1, r.last().push(s.last()))
        }
    }
}

/// A dotted module path: at most 255 characters, every dot-separated piece an identifier.
pub open spec fn spec_module_path(s: Seq<char>) -> bool {
    &&& s.len() <= 255
    &&& forall|i: int| 0 <= i < dot_segments(s).len() ==> #[trigger] spec_identifier(dot_segments(s)[i])
}

/// A printable ASCII label of 1 to 255 characters.
pub open spec fn spec_label(s: Seq<char>) -> bool {
    &&& 0 < s.len() <= 255
    &&& forall|i: int| 0 <= i < s.len() ==> ' ' <= #[trigger] s[i] && s[i] <= '~'
}

/// Every piece is at most as long as the whole, and there is at least one piece.
pub proof fn lemma_dot_segments_bounds(s: Seq<char>)
    ensures
        dot_segments(s).len() >= 1,
        forall|i: int| 0 <= i < dot_segments(s).len() ==> #[trigger] dot_segments(s)[i].len() <= s.len(),
    decreases s.len(),
{
    if s.len() > 0 {
        lemma_dot_segments_bounds(s.drop_last());
    }
}

fn is_ident_start_byte(b: u8) -> (r: bool)
    ensures
        r == ident_start(b as char),
{
    (97 <= b && b <= 122) || (65 <= b && b <= 90) || b == 95
}

fn is_ident_byte(b: u8) -> (r: bool)
    ensures
        r == ident_char(b as char),
{
    is_ident_start_byte(b) || (48 <= b && b <= 57)
}

proof fn lemma_non_ascii_fails(s: Seq<char>)
    requires
        !vstd::utf8::is_ascii_chars(s),
    ensures
        exists|i: int| 0 <= i < s.len() && !ident_char(s[i]) && !(' ' <= s[i] && s[i] <= '~') && s[i] != '.',
{
    let i = choose|i: int| 0 <= i < s.len() && !('\0' <= s[i] && s[i] <= '\u{7f}');
    assert(0 <= i < s.len() && !ident_char(s[i]) && !(' ' <= s[i] && s[i] <= '~') && s[i] != '.');
}

/// Whether `value` is an identifier.
pub fn identifier(value: &str) -> (r: bool)
    ensures
        r == spec_identifier(value@),
{
    broadcast use is_ascii_spec_bytes;
    if !value.is_ascii() {
        proof {
            lemma_non_ascii_fails(value@);
        }
        return false;
    }
    let b = value.as_bytes();
    assert(b@.len() == value@.len());
    if b.len() == 0 || b.len() > 255 || !is_ident_start_byte(b[0]) {
        return false;
    }
    let mut i: usize = 0;
    while i < b.len()
        invariant
            i <= b@.len(),
            b@.len() == value@.len(),
            forall|j: int| 0 <= j < value@.len() ==> value@[j] as u8 == #[trigger] b@[j],
            vstd::utf8::is_ascii_chars(value@),
            forall|j: int| 0 <= j < i ==> #[trigger] ident_char(value@[j]),
        decreases b@.len() - i,
    {
        if !is_ident_byte(b[i]) {
            assert(!ident_char(value@[i as int]));
            return false;
        }
        i = i + 1;
    }
    true
}

/// Whether `value` is a dotted module path.
pub fn is_module_path(value: &str) -> (r: bool)
    ensures
        r == spec_module_path(value@),
{
    broadcast use is_ascii_spec_bytes;
    let ghost s = value@;
    if !value.is_ascii() {
        proof {
            lemma_non_ascii_fails(s);
            let i = choose|i: int| 0 <= i < s.len() && !ident_char(s[i]) && s[i] != '.';
            lemma_char_in_some_segment(s, i);
        }
        return false;
    }
    let b = value.as_bytes();
    if b.len() > 255 {
        return false;
    }
    let mut i: usize = 0;
    let mut current: usize = 0;
    while i < b.len()
        invariant
            i <= b@.len(),
            b@.len() == s.len(),
            s == value@,
            s.len() <= 255,
            forall|j: int| 0 <= j < s.len() ==> s[j] as u8 == #[trigger] b@[j],
            vstd::utf8::is_ascii_chars(s),
            current == dot_segments(s.subrange(0, i as int)).last().len(),
            dot_segments(s.subrange(0, i as int)).len() >= 1,
            forall|k: int| 0 <= k < dot_segments(s.subrange(0, i as int)).len() - 1
                ==> #[trigger] spec_identifier(dot_segments(s.subrange(0, i as int))[k]),
            current > 0 ==> ident_start(dot_segments(s.subrange(0, i as int)).last()[0]),
            forall|j: int| 0 <= j < current ==> #[trigger] ident_char(dot_segments(s.subrange(0, i as int)).last()[j]),
        decreases b@.len() - i,
    {
        let c = b[i];
        let ghost prefix = s.subrange(0, i as int);
        let ghost next = s.subrange(0, i as int + 1);
        proof {
            assert(next.drop_last() =~= prefix);
            assert(next.last() == s[i as int]);
            lemma_dot_segments_bounds(prefix);
            lemma_dot_segments_bounds(s.subrange(0, i as int + 1));
        }
        if c == 46 {
            if current == 0 {
                proof {
                    let segs = dot_segments(next);
                    assert(segs =~= dot_segments(prefix).push(Seq::empty()));
                    assert(segs[segs.len() - 2] == dot_segments(prefix).last());
                    assert(segs[segs.len() - 2].len() == 0);
                    assert(!spec_identifier(segs[segs.len() - 2]));
                    lemma_segments_extend(s, i as int + 1);
                    assert(dot_segments(s)[segs.len() - 2] == segs[segs.len() - 2]);
                    assert(!spec_identifier(dot_segments(s)[segs.len() - 2]));
                    assert(segs.len() - 2 < dot_segments(s).len());
                    assert(!spec_module_path(s));
                }
                return false;
            }
            proof {
                let segs = dot_segments(prefix);
                let last = segs.last();
                assert(last.len() <= prefix.len());
                assert(spec_identifier(last));
                assert(dot_segments(next) =~= segs.push(Seq::empty()));
            }
            current = 0;
        } else {
            if !is_ident_byte(c) || (current == 0 && !is_ident_start_byte(c)) {
                proof {
                    let segs = dot_segments(next);
                    assert(segs =~= dot_segments(prefix).update(dot_segments(prefix).len() - 1,
                        dot_segments(prefix).last().push(s[i as int])));
                    let last = segs.last();
                    assert(last == dot_segments(prefix).last().push(s[i as int]));
                    assert(last[current as int] == s[i as int]);
                    assert(!ident_char(last[current as int]) || (current == 0 && !ident_start(last[0])));
                    lemma_segments_extend(s, i as int + 1);
                    let whole = dot_segments(s);
                    let target = whole[segs.len() - 1];
                    assert(last.is_prefix_of(target));
                    assert(target[current as int] == last[current as int]);
                    assert(!spec_identifier(whole[segs.len() - 1]));
                    assert(segs.len() - 1 < whole.len());
                    assert(!spec_module_path(s));
                }
                return false;
            }
            proof {
                let segs = dot_segments(prefix);
                let nsegs = dot_segments(next);
                assert(nsegs =~= segs.update(segs.len() - 1, segs.last().push(s[i as int])));
                assert forall|k: int| 0 <= k < nsegs.len() - 1 implies #[trigger] spec_identifier(nsegs[k]) by {
                    assert(nsegs[k] == segs[k]);
                }
            }
            current = current + 1;
        }
        i = i + 1;
    }
    proof {
        assert(s.subrange(0, s.len() as int) =~= s);
        lemma_dot_segments_bounds(s);
    }
    if current == 0 {
        proof {
            let segs = dot_segments(s);
            assert(!spec_identifier(segs[segs.len() - 1]));
        }
        return false;
    }
    proof {
        let segs = dot_segments(s);
        assert(segs.last().len() <= s.len());
        assert(spec_identifier(segs.last()));
    }
    true
}

/// The segments of a prefix, but its last, stay segments of the whole; its last
/// segment begins the matching segment of the whole.
pub proof fn lemma_segments_extend(s: Seq<char>, n: int)
    requires
        0 <= n <= s.len(),
    ensures
        dot_segments(s.subrange(0, n)).len() <= dot_segments(s).len(),
        forall|k: int| 0 <= k < dot_segments(s.subrange(0, n)).len() - 1
            ==> #[trigger] dot_segments(s)[k] == dot_segments(s.subrange(0, n))[k],
        dot_segments(s.subrange(0, n)).last().is_prefix_of(
            dot_segments(s)[dot_segments(s.subrange(0, n)).len() - 1]),
    decreases s.len() - n,
{
    lemma_dot_segments_bounds(s.subrange(0, n));
    if n < s.len() {
        lemma_segments_extend(s, n + 1);
        let p = s.subrange(0, n);
        let q = s.subrange(0, n + 1);
        assert(q.drop_last() =~= p);
        lemma_dot_segments_bounds(q);
        let sp = dot_segments(p);
        let sq = dot_segments(q);
        if q.last() == '.' {
            assert(sq =~= sp.push(Seq::empty()));
            assert(dot_segments(s)[sp.len() - 1] == sq[sp.len() - 1]);
        } else {
            assert(sq =~= sp.update(sp.len() - 1, sp.last().push(q.last())));
            assert(sp.last().is_prefix_of(sq.last()));
        }
    } else {
        assert(s.subrange(0, n) =~= s);
    }
}

/// A character that is neither a dot nor an identifier character spoils the piece it lands in.
proof fn lemma_char_in_some_segment(s: Seq<char>, i: int)
    requires
        0 <= i < s.len(),
        !ident_char(s[i]),
        s[i] != '.',
    ensures
        !spec_module_path(s),
{
    let p = s.subrange(0, i + 1);
    assert(p.drop_last() =~= s.subrange(0, i));
    lemma_dot_segments_bounds(s.subrange(0, i));
    let sp = dot_segments(p);
    let last = sp.last();
    assert(last.len() >= 1);
    assert(last[last.len() - 1] == s[i]);
    lemma_segments_extend(s, i + 1);
    lemma_dot_segments_bounds(p);
    let segs = dot_segments(s);
    let target = segs[sp.len() - 1];
    assert(last.is_prefix_of(target));
    assert(target[last.len() - 1] == s[i]);
    assert(!spec_identifier(segs[sp.len() - 1]));
}

/// Whether `value` is a printable ASCII label of 1 to 255 characters.
pub fn label(value: &str) -> (r: bool)
    ensures
        r == spec_label(value@),
{
    broadcast use is_ascii_spec_bytes;
    if !value.is_ascii() {
        proof {
            lemma_non_ascii_fails(value@);
        }
        return false;
    }
    let b = value.as_bytes();
    if b.len() == 0 || b.len() > 255 {
        return false;
    }
    let mut i: usize = 0;
    while i < b.len()
        invariant
            i <= b@.len(),
            b@.len() == value@.len(),
            forall|j: int| 0 <= j < value@.len() ==> value@[j] as u8 == #[trigger] b@[j],
            vstd::utf8::is_ascii_chars(value@),
            forall|j: int| 0 <= j < i ==> ' ' <= #[trigger] value@[j] && value@[j] <= '~',
        decreases b@.len() - i,
    {
        let c = b[i];
        if c < 32 || c > 126 {
            return false;
        }
        i = i + 1;
    }
    true
}

} // verus!
