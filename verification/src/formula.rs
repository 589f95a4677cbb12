//! Bracket-notation nox formulas: `[5 [[1 3] [1 5]]]`.
//!
//! Atoms are decimal u64 values (read as Goldilocks words); cells are
//! `[a b]`. N-ary brackets `[a b c]` fold right-nested: `[a [b c]]`.
use vstd::prelude::*;
use vstd::string::StringSliceAdditionalSpecFns;
use crate::noun::{Noun, fold_right, fold_cell, canonical, field_value, is_canonical, P};
use crate::text::{spec_decimal, text, push_decimal, decimal};

verus! {

/// ASCII whitespace as `u8::is_ascii_whitespace` defines it.
pub open spec fn is_ws(b: u8) -> bool {
    b == 32 || b == 9 || b == 10 || b == 12 || b == 13
}

/// An ASCII decimal digit.
pub open spec fn is_digit(b: u8) -> bool {
    48 <= b && b <= 57
}

/// First position at or after `pos` that is not whitespace.
pub open spec fn skip_ws_spec(b: Seq<u8>, pos: int) -> int
    decreases b.len() - pos,
{
    if 0 <= pos < b.len() && is_ws(b[pos]) {
        skip_ws_spec(b, pos + 1)
    } else {
        pos
    }
}

/// First position at or after `pos` that is not a digit.
pub open spec fn digits_end(b: Seq<u8>, pos: int) -> int
    decreases b.len() - pos,
{
    if 0 <= pos < b.len() && is_digit(b[pos]) {
        digits_end(b, pos + 1)
    } else {
        pos
    }
}

/// Value of a string of decimal digits.
pub open spec fn digits_value(s: Seq<u8>) -> nat
    decreases s.len(),
{
    if s.len() == 0 {
        0
    } else {
        digits_value(s.drop_last()) * 10 + (s.last() - 48) as nat
    }
}

/// Characters of a byte string read one byte per character.
pub open spec fn byte_chars(s: Seq<u8>) -> Seq<char> {
    Seq::new(s.len(), |i: int| s[i] as char)
}

pub open spec fn msg_end() -> Seq<char> {
    "unexpected end of formula"@
}

pub open spec fn msg_unclosed() -> Seq<char> {
    "unclosed '[' in formula"@
}

pub open spec fn msg_cell(n: nat) -> Seq<char> {
    "cell needs at least 2 elements, got "@ + spec_decimal(n)
}

pub open spec fn msg_atom(digits: Seq<u8>) -> Seq<char> {
    "invalid atom '"@ + byte_chars(digits) + "': number too large to fit in target type"@
}

pub open spec fn msg_unexpected(c: u8, pos: nat) -> Seq<char> {
    "unexpected character '"@ + seq![c as char] + "' at byte "@ + spec_decimal(pos)
}

pub open spec fn msg_trailing(pos: nat) -> Seq<char> {
    "trailing input at byte "@ + spec_decimal(pos) + " of formula"@
}

pub proof fn lemma_skip_ws(b: Seq<u8>, pos: int)
    requires
        0 <= pos,
    ensures
        pos <= skip_ws_spec(b, pos),
        pos <= b.len() ==> skip_ws_spec(b, pos) <= b.len(),
        skip_ws_spec(b, pos) < b.len() ==> !is_ws(b[skip_ws_spec(b, pos)]),
    decreases b.len() - pos,
{
    if 0 <= pos < b.len() && is_ws(b[pos]) {
        lemma_skip_ws(b, pos + 1);
    }
}

pub proof fn lemma_digits_end(b: Seq<u8>, pos: int)
    requires
        0 <= pos,
    ensures
        pos <= digits_end(b, pos),
        pos <= b.len() ==> digits_end(b, pos) <= b.len(),
        forall|i: int| pos <= i < digits_end(b, pos) ==> #[trigger] is_digit(b[i]),
        digits_end(b, pos) < b.len() ==> !is_digit(b[digits_end(b, pos)]),
    decreases b.len() - pos,
{
    if 0 <= pos < b.len() && is_digit(b[pos]) {
        lemma_digits_end(b, pos + 1);
    }
}

/// One datum at `pos`: the noun and the position after it.
pub open spec fn spec_data(b: Seq<u8>, pos: int) -> Result<(Noun, int), Seq<char>>
    decreases b.len() - pos, 0int,
{
    if pos < 0 || pos > b.len() {
        Err(msg_end())
    } else {
        let q = skip_ws_spec(b, pos);
        if q >= b.len() {
            Err(msg_end())
        } else if b[q] == 91 {
            proof {
                lemma_skip_ws(b, pos);
            }
            match spec_elems(b, q + 1, Seq::empty()) {
                Ok((elems, r)) => if elems.len() < 2 {
                    Err(msg_cell(elems.len()))
                } else {
                    Ok((fold_right(elems), r))
                },
                Err(m) => Err(m),
            }
        } else if is_digit(b[q]) {
            let e = digits_end(b, q);
            let v = digits_value(b.subrange(q, e));
            if v > u64::MAX {
                Err(msg_atom(b.subrange(q, e)))
            } else {
                Ok((Noun::Atom(v as u64), e))
            }
        } else {
            Err(msg_unexpected(b[q], q as nat))
        }
    }
}

/// The elements of a cell from `pos` up to its `]`, appended to `acc`.
pub open spec fn spec_elems(b: Seq<u8>, pos: int, acc: Seq<Noun>) -> Result<(Seq<Noun>, int), Seq<char>>
    decreases b.len() - pos, 1int,
{
    if pos < 0 || pos > b.len() {
        Err(msg_unclosed())
    } else {
        let q = skip_ws_spec(b, pos);
        proof {
            lemma_skip_ws(b, pos);
        }
        if q >= b.len() {
            Err(msg_unclosed())
        } else if b[q] == 93 {
            Ok((acc, q + 1))
        } else {
            match spec_data(b, q) {
                Ok((e, r)) => if q < r <= b.len() {
                    spec_elems(b, r, acc.push(e))
                } else {
                    Err(msg_unclosed())
                },
                Err(m) => Err(m),
            }
        }
    }
}

/// A whole formula: one datum, optionally surrounded by whitespace.
pub open spec fn spec_parse(b: Seq<u8>) -> Result<Noun, Seq<char>> {
    match spec_data(b, 0) {
        Ok((n, r)) => {
            let q = skip_ws_spec(b, r);
            if q != b.len() {
                Err(msg_trailing(q as nat))
            } else {
                Ok(n)
            }
        },
        Err(m) => Err(m),
    }
}

/// A datum consumes at least one byte and ends inside the text.
pub proof fn lemma_data_progress(b: Seq<u8>, pos: int)
    requires
        0 <= pos <= b.len(),
    ensures
        spec_data(b, pos) matches Ok((n, r)) ==> pos < r <= b.len(),
{
    lemma_skip_ws(b, pos);
    let q = skip_ws_spec(b, pos);
    if q < b.len() {
        if b[q] == 91 {
            lemma_elems_progress(b, q + 1, Seq::empty());
        } else if is_digit(b[q]) {
            lemma_digits_end(b, q);
            lemma_digits_end(b, q + 1);
        }
    }
}

pub proof fn lemma_elems_progress(b: Seq<u8>, pos: int, acc: Seq<Noun>)
    requires
        0 <= pos <= b.len(),
    ensures
        spec_elems(b, pos, acc) matches Ok((s, r)) ==> pos < r <= b.len(),
    decreases b.len() - pos,
{
    lemma_skip_ws(b, pos);
    let q = skip_ws_spec(b, pos);
    if q < b.len() && b[q] != 93 {
        if let Ok((e, r)) = spec_data(b, q) {
            if q < r <= b.len() {
                lemma_elems_progress(b, r, acc.push(e));
            }
        }
    }
}

fn skip_ws(b: &[u8], pos: usize) -> (r: usize)
    requires
        pos <= b@.len(),
    ensures
        r == skip_ws_spec(b@, pos as int),
        r <= b@.len(),
{
    let mut p = pos;
    while p < b.len() && (b[p] == 32 || b[p] == 9 || b[p] == 10 || b[p] == 12 || b[p] == 13)
        invariant
            pos <= p <= b@.len(),
            skip_ws_spec(b@, pos as int) == skip_ws_spec(b@, p as int),
        decreases b@.len() - p,
    {
        p = p + 1;
    }
    p
}

/// Renders bytes one character per byte.
fn byte_text(b: &[u8], start: usize, end: usize) -> (r: String)
    requires
        start <= end <= b@.len(),
    ensures
        r@ == byte_chars(b@.subrange(start as int, end as int)),
{
    let mut s = String::new();
    let mut i = start;
    while i < end
        invariant
            start <= i <= end,
            end <= b@.len(),
            s@ =~= byte_chars(b@.subrange(start as int, i as int)),
        decreases end - i,
    {
        s.push(b[i] as char);
        i = i + 1;
    }
    s
}

/// Reads a maximal run of digits at `q` as a u64.
fn read_atom(b: &[u8], q: usize) -> (r: Result<(u64, usize), String>)
    requires
        q < b@.len(),
        is_digit(b@[q as int]),
    ensures
        ({
            let e = digits_end(b@, q as int);
            let v = digits_value(b@.subrange(q as int, e));
            if v > u64::MAX {
                r matches Err(m) && m@ == msg_atom(b@.subrange(q as int, e))
            } else {
                r matches Ok((x, end)) && x == v && end == e
            }
        }),
{
    proof {
        lemma_digits_end(b@, q as int);
    }
    let mut i = q;
    let mut acc: u64 = 0;
    let mut overflow = false;
    while i < b.len() && 48 <= b[i] && b[i] <= 57
        invariant
            q <= i <= b@.len(),
            digits_end(b@, q as int) == digits_end(b@, i as int),
            !overflow ==> acc as nat == digits_value(b@.subrange(q as int, i as int)),
            overflow ==> digits_value(b@.subrange(q as int, i as int)) > u64::MAX,
        decreases b@.len() - i,
    {
        let d = (b[i] - 48) as u64;
        proof {
            let s = b@.subrange(q as int, i as int + 1);
            assert(s.drop_last() =~= b@.subrange(q as int, i as int));
            assert(s.last() == b@[i as int]);
        }
        if !overflow {
            if acc > 1844674407370955161 || (acc == 1844674407370955161 && d > 5) {
                overflow = true;
            } else {
                acc = acc * 10 + d;
            }
        }
        i = i + 1;
    }
    if overflow {
        let mut m = text("invalid atom '");
        let digits = byte_text(b, q, i);
        m.append(digits.as_str());
        m.append("': number too large to fit in target type");
        Err(m)
    } else {
        Ok((acc, i))
    }
}

/// Parses one datum at `pos`, returning it and the position after it.
fn parse_data(b: &[u8], pos: usize) -> (r: Result<(Noun, usize), String>)
    requires
        pos <= b@.len(),
    ensures
        match spec_data(b@, pos as int) {
            Ok((n, e)) => r matches Ok((m, f)) && m == n && f == e,
            Err(msg) => r matches Err(m) && m@ == msg,
        },
    decreases b@.len() - pos,
{
    let q = skip_ws(b, pos);
    proof {
        lemma_skip_ws(b@, pos as int);
    }
    if q >= b.len() {
        return Err(text("unexpected end of formula"));
    }
    let c = b[q];
    if c == 91 {
        let mut cur = q + 1;
        let mut elems: Vec<Noun> = Vec::new();
        loop
            invariant
                q < cur <= b@.len(),
                pos <= q,
                b@[q as int] == 91,
                skip_ws_spec(b@, pos as int) == q,
                spec_elems(b@, q as int + 1, Seq::empty()) == spec_elems(b@, cur as int, elems@),
            decreases b@.len() - cur,
        {
            let p = skip_ws(b, cur);
            proof {
                lemma_skip_ws(b@, cur as int);
            }
            if p >= b.len() {
                return Err(text("unclosed '[' in formula"));
            }
            if b[p] == 93 {
                if elems.len() < 2 {
                    let mut m = text("cell needs at least 2 elements, got ");
                    push_decimal(&mut m, elems.len() as u64);
                    return Err(m);
                }
                return Ok((fold_cell(elems), p + 1));
            }
            proof {
                lemma_data_progress(b@, p as int);
            }
            match parse_data(b, p) {
                Ok((e, r)) => {
                    elems.push(e);
                    cur = r;
                },
                Err(m) => {
                    return Err(m);
                },
            }
        }
    } else if 48 <= c && c <= 57 {
        match read_atom(b, q) {
            Ok((v, e)) => Ok((Noun::Atom(v), e)),
            Err(m) => Err(m),
        }
    } else {
        let mut m = text("unexpected character '");
        m.push(c as char);
        m.append("' at byte ");
        push_decimal(&mut m, q as u64);
        Err(m)
    }
}

/// Parses bracket text into a noun.
pub fn parse(text_in: &str) -> (r: Result<Noun, String>)
    ensures
        match spec_parse(text_in.spec_bytes()) {
            Ok(n) => r matches Ok(m) && m == n,
            Err(msg) => r matches Err(m) && m@ == msg,
        },
{
    let b = text_in.as_bytes();
    match parse_data(b, 0) {
        Ok((n, r)) => {
            proof {
                lemma_data_progress(b@, 0);
            }
            let q = skip_ws(b, r);
            if q != b.len() {
                let mut m = text("trailing input at byte ");
                push_decimal(&mut m, q as u64);
                m.append(" of formula");
                return Err(m);
            }
            Ok(n)
        },
        Err(m) => Err(m),
    }
}

} // verus!

verus! {

/// Bracket text of a noun: atoms as canonical decimal values, pairs as `[head tail]`.
pub open spec fn spec_print(n: Noun) -> Seq<char>
    decreases n,
{
    match n {
        Noun::Atom(v) => spec_decimal(canonical(v) as nat),
        Noun::Pair(h, t) => "["@ + spec_print(*h) + " "@ + spec_print(*t) + "]"@,
    }
}

/// Prints a noun in bracket notation (inverse of `parse` on canonical nouns).
pub fn print(n: &Noun) -> (r: String)
    ensures
        r@ == spec_print(*n),
    decreases n,
{
    match n {
        Noun::Atom(v) => decimal(field_value(*v)),
        Noun::Pair(h, t) => {
            let mut s = text("[");
            let hs = print(h);
            s.append(hs.as_str());
            s.append(" ");
            let ts = print(t);
            s.append(ts.as_str());
            s.append("]");
            s
        },
    }
}

/// The execution object (subject) for public inputs: a right-nested list with
/// the last input at the head, ending in the atom 0 (`[p_last [... [p_first 0]]]`).
pub open spec fn spec_subject(values: Seq<u64>) -> Noun
    decreases values.len(),
{
    if values.len() == 0 {
        Noun::Atom(0)
    } else {
        Noun::Pair(Box::new(Noun::Atom(values.last())), Box::new(spec_subject(values.drop_last())))
    }
}

/// Builds the subject from public inputs; an empty input list yields the atom 0.
pub fn build_subject(values: &[u64]) -> (r: Noun)
    ensures
        r == spec_subject(values@),
{
    let mut subject = Noun::Atom(0);
    let mut i: usize = 0;
    while i < values.len()
        invariant
            i <= values@.len(),
            subject == spec_subject(values@.subrange(0, i as int)),
        decreases values@.len() - i,
    {
        proof {
            let s = values@.subrange(0, i as int + 1);
            assert(s.drop_last() =~= values@.subrange(0, i as int));
        }
        subject = Noun::Pair(Box::new(Noun::Atom(values[i])), Box::new(subject));
        i = i + 1;
    }
    proof {
        assert(values@.subrange(0, values@.len() as int) =~= values@);
    }
    subject
}

/// The atoms of a noun, left to right, as canonical values.
pub open spec fn spec_leaves(n: Noun) -> Seq<u64>
    decreases n,
{
    match n {
        Noun::Atom(v) => seq![canonical(v)],
        Noun::Pair(h, t) => spec_leaves(*h) + spec_leaves(*t),
    }
}

/// Leaves of a traversal stack, top of stack first.
pub open spec fn stack_leaves(s: Seq<&Noun>) -> Seq<u64>
    decreases s.len(),
{
    if s.len() == 0 {
        Seq::empty()
    } else {
        spec_leaves(*s.last()) + stack_leaves(s.drop_last())
    }
}

/// Total size of the nouns on a traversal stack.
pub open spec fn stack_size(s: Seq<&Noun>) -> nat
    decreases s.len(),
{
    if s.len() == 0 {
        0
    } else {
        crate::noun::size(*s.last()) + stack_size(s.drop_last())
    }
}

/// Flattens a result noun into its atom leaves, left to right, without recursion.
pub fn leaves(n: &Noun) -> (r: Vec<u64>)
    ensures
        r@ == spec_leaves(*n),
{
    let mut out: Vec<u64> = Vec::new();
    let mut stack: Vec<&Noun> = Vec::new();
    stack.push(n);
    proof {
        assert(stack@.drop_last() =~= Seq::<&Noun>::empty());
        assert(stack_leaves(stack@) == spec_leaves(*stack@.last()) + stack_leaves(stack@.drop_last()));
        assert(out@ + stack_leaves(stack@) =~= spec_leaves(*n));
    }
    while stack.len() > 0
        invariant
            out@ + stack_leaves(stack@) == spec_leaves(*n),
        decreases stack_size(stack@),
    {
        let ghost before = stack@;
        let top = stack.pop().unwrap();
        proof {
            assert(stack@ =~= before.drop_last());
            assert(stack_leaves(before) == spec_leaves(*top) + stack_leaves(stack@));
            assert(stack_size(before) == crate::noun::size(*top) + stack_size(stack@));
        }
        match top {
            Noun::Atom(v) => {
                let x = field_value(*v);
                out.push(x);
                proof {
                    assert(out@ + stack_leaves(stack@) =~= spec_leaves(*n));
                }
            },
            Noun::Pair(h, t) => {
                let ghost rest = stack@;
                stack.push(&**t);
                stack.push(&**h);
                proof {
                    let s1 = rest.push(&**t);
                    assert(stack@ == s1.push(&**h));
                    assert(stack@.drop_last() =~= s1);
                    assert(s1.drop_last() =~= rest);
                    assert(stack_leaves(stack@) == spec_leaves(**h) + stack_leaves(s1));
                    assert(stack_leaves(s1) == spec_leaves(**t) + stack_leaves(rest));
                    assert(spec_leaves(*top) == spec_leaves(**h) + spec_leaves(**t));
                    assert(stack_size(stack@) == crate::noun::size(**h) + stack_size(s1));
                    assert(stack_size(s1) == crate::noun::size(**t) + stack_size(rest));
                    assert(out@ + stack_leaves(stack@) =~= spec_leaves(*n));
                }
            },
        }
    }
    proof {
        assert(out@ =~= spec_leaves(*n));
    }
    out
}

} // verus!

verus! {

/// ASCII bytes of the decimal rendering of `n`.
pub open spec fn decimal_bytes(n: nat) -> Seq<u8>
    decreases n,
{
    if n < 10 {
        seq![(48 + n) as u8]
    } else {
        decimal_bytes(n / 10).push((48 + n % 10) as u8)
    }
}

/// ASCII bytes of the bracket text of a noun.
pub open spec fn print_bytes(n: Noun) -> Seq<u8>
    decreases n,
{
    match n {
        Noun::Atom(v) => decimal_bytes(canonical(v) as nat),
        Noun::Pair(h, t) => seq![91u8] + print_bytes(*h) + seq![32u8] + print_bytes(*t) + seq![93u8],
    }
}

pub proof fn lemma_decimal_bytes(n: nat)
    ensures
        decimal_bytes(n).len() >= 1,
        forall|i: int| 0 <= i < decimal_bytes(n).len() ==> #[trigger] is_digit(decimal_bytes(n)[i]),
        digits_value(decimal_bytes(n)) == n,
        byte_chars(decimal_bytes(n)) == spec_decimal(n),
    decreases n,
{
    if n >= 10 {
        lemma_decimal_bytes(n / 10);
        let p = decimal_bytes(n / 10);
        let s = decimal_bytes(n);
        assert(s.drop_last() =~= p);
        assert(s.last() == (48 + n % 10) as u8);
        assert((s.last() - 48) as nat == n % 10);
        assert((n / 10) * 10 + n % 10 == n) by (nonlinear_arith);
        assert(digits_value(s) == digits_value(s.drop_last()) * 10 + (s.last() - 48) as nat);
        assert(digits_value(s) == digits_value(p) * 10 + n % 10);
        assert(byte_chars(s) =~= byte_chars(p).push(((48 + n % 10) as u8) as char));
    } else {
        let s = decimal_bytes(n);
        assert(s.drop_last() =~= Seq::<u8>::empty());
        assert((s.last() - 48) as nat == n);
        assert(digits_value(s) == digits_value(s.drop_last()) * 10 + (s.last() - 48) as nat);
        assert(byte_chars(decimal_bytes(n)) =~= spec_decimal(n));
    }
}

pub proof fn lemma_print_bytes(n: Noun)
    ensures
        print_bytes(n).len() >= 1,
        byte_chars(print_bytes(n)) == spec_print(n),
        forall|i: int| 0 <= i < print_bytes(n).len() ==> #[trigger] print_bytes(n)[i] < 128,
        print_bytes(n)[0] == 91 || is_digit(print_bytes(n)[0]),
    decreases n,
{
    match n {
        Noun::Atom(v) => {
            lemma_decimal_bytes(canonical(v) as nat);
            let d = decimal_bytes(canonical(v) as nat);
            assert forall|i: int| 0 <= i < print_bytes(n).len() implies #[trigger] print_bytes(n)[i] < 128 by {
                assert(is_digit(d[i]));
            }
        },
        Noun::Pair(h, t) => {
            lemma_print_bytes(*h);
            lemma_print_bytes(*t);
            let ph = print_bytes(*h);
            let pt = print_bytes(*t);
            let all = print_bytes(n);
            assert(byte_chars(all) =~= "["@ + byte_chars(ph) + " "@ + byte_chars(pt) + "]"@) by {
                reveal_strlit("[");
                reveal_strlit(" ");
                reveal_strlit("]");
            }
            assert forall|i: int| 0 <= i < all.len() implies #[trigger] all[i] < 128 by {
                if i == 0 {
                } else if i < 1 + ph.len() {
                    assert(all[i] == ph[i - 1]);
                } else if i == 1 + ph.len() {
                } else if i < 2 + ph.len() + pt.len() {
                    assert(all[i] == pt[i - 2 - ph.len()]);
                }
            }
        },
    }
}

proof fn lemma_skip_ws_none(b: Seq<u8>, pos: int)
    requires
        0 <= pos < b.len(),
        !is_ws(b[pos]),
    ensures
        skip_ws_spec(b, pos) == pos,
{
}

pub proof fn lemma_digits_run(b: Seq<u8>, pos: int, e: int)
    requires
        0 <= pos <= e <= b.len(),
        forall|i: int| pos <= i < e ==> #[trigger] is_digit(b[i]),
        e == b.len() || !is_digit(b[e]),
    ensures
        digits_end(b, pos) == e,
    decreases e - pos,
{
    if pos < e {
        lemma_digits_run(b, pos + 1, e);
    }
}

/// Parsing the printed text of a canonical noun, placed anywhere and followed by
/// anything but a digit, yields the noun and the position right after it.
proof fn lemma_data_of_print(b: Seq<u8>, pos: int, n: Noun)
    requires
        is_canonical(n),
        0 <= pos,
        pos + print_bytes(n).len() <= b.len(),
        b.subrange(pos, pos + print_bytes(n).len()) == print_bytes(n),
        pos + print_bytes(n).len() == b.len() || !is_digit(b[pos + print_bytes(n).len()]),
    ensures
        spec_data(b, pos) == Ok::<(Noun, int), Seq<char>>((n, pos + print_bytes(n).len())),
    decreases n,
{
    lemma_print_bytes(n);
    let pb = print_bytes(n);
    assert(b[pos] == pb[0]);
    lemma_skip_ws_none(b, pos);
    match n {
        Noun::Atom(v) => {
            lemma_decimal_bytes(canonical(v) as nat);
            assert forall|i: int| pos <= i < pos + pb.len() implies #[trigger] is_digit(b[i]) by {
                assert(b[i] == pb[i - pos]);
            }
            lemma_digits_run(b, pos, pos + pb.len());
            assert(b.subrange(pos, pos + pb.len()) == pb);
            assert(canonical(v) == v);
        },
        Noun::Pair(h, t) => {
            lemma_print_bytes(*h);
            lemma_print_bytes(*t);
            let ph = print_bytes(*h);
            let pt = print_bytes(*t);
            let a = pos + 1;
            let c = a + ph.len();
            let d = c + 1;
            let e = d + pt.len();
            assert(b[pos] == 91);
            assert(b.subrange(a, c) =~= ph) by {
                assert forall|i: int| 0 <= i < ph.len() implies b.subrange(a, c)[i] == ph[i] by {
                    assert(b[a + i] == pb[1 + i]);
                }
            }
            assert(b[c] == 32) by {
                assert(b[c] == pb[1 + ph.len() as int]);
            }
            assert(b.subrange(d, e) =~= pt) by {
                assert forall|i: int| 0 <= i < pt.len() implies b.subrange(d, e)[i] == pt[i] by {
                    assert(b[d + i] == pb[2 + ph.len() + i]);
                }
            }
            assert(b[e] == 93) by {
                assert(b[e] == pb[2 + ph.len() as int + pt.len() as int]);
            }
            lemma_data_of_print(b, a, *h);
            lemma_data_of_print(b, d, *t);
            assert(b[a] == ph[0]);
            lemma_skip_ws_none(b, a);
            assert(b[d] == pt[0]);
            lemma_skip_ws_none(b, d);
            lemma_skip_ws_none(b, e);
            assert(skip_ws_spec(b, c) == d) by {
                lemma_skip_ws_none(b, d);
            }
            let s0: Seq<Noun> = Seq::empty();
            let s1 = s0.push(*h);
            let s2 = s1.push(*t);
            assert(spec_elems(b, e, s2) == Ok::<(Seq<Noun>, int), Seq<char>>((s2, e + 1)));
            assert(spec_elems(b, c, s1) == spec_elems(b, e, s2));
            assert(spec_elems(b, a, s0) == spec_elems(b, c, s1));
            assert(s2.drop_first() =~= seq![*t]);
            assert(s2.len() == 2 && s2[0] == *h);
            assert(fold_right(seq![*t]) == *t);
            assert(fold_right(s2) == Noun::Pair(Box::new(*h), Box::new(*t)));
            assert(fold_right(s2) == n);
        },
    }
}

/// The UTF-8 encoding of a printed noun is its ASCII bracket bytes.
pub proof fn lemma_print_encoding(n: Noun)
    ensures
        vstd::utf8::encode_utf8(spec_print(n)) == print_bytes(n),
        print_bytes(n).len() == spec_print(n).len(),
{
    lemma_print_bytes(n);
    let pb = print_bytes(n);
    let chars = spec_print(n);
    assert(chars.len() == pb.len());
    assert(vstd::utf8::is_ascii_chars(chars)) by {
        assert forall|i: int| 0 <= i < chars.len() implies '\0' <= #[trigger] chars[i] && chars[i] <= '\u{7f}' by {
            assert(chars[i] == pb[i] as char);
        }
    }
    vstd::utf8::is_ascii_chars_encode_utf8(chars);
    let enc = vstd::utf8::encode_utf8(chars);
    assert(enc =~= pb) by {
        assert forall|i: int| 0 <= i < pb.len() implies enc[i] == pb[i] by {
            assert(chars[i] as u8 == enc[i]);
            assert(chars[i] == pb[i] as char);
        }
    }
}

/// `print` is the inverse of `parse`: the printed text of a canonical noun
/// parses back to that very noun.
pub proof fn law_parse_inverts_print(n: Noun)
    requires
        is_canonical(n),
    ensures
        spec_parse(vstd::utf8::encode_utf8(spec_print(n))) == Ok::<Noun, Seq<char>>(n),
{
    lemma_print_encoding(n);
    lemma_print_bytes(n);
    let pb = print_bytes(n);
    assert(pb.subrange(0, pb.len() as int) =~= pb);
    lemma_data_of_print(pb, 0, n);
}

} // verus!

verus! {

/// The leaves of a subject are the public inputs in reverse order, as canonical
/// values, followed by the terminating 0: the last input sits at the head.
pub proof fn law_subject_leaves(values: Seq<u64>)
    ensures
        spec_leaves(spec_subject(values))
            == Seq::new(values.len(), |i: int| canonical(values[values.len() - 1 - i])).push(0u64),
    decreases values.len(),
{
    let expected = Seq::new(values.len(), |i: int| canonical(values[values.len() - 1 - i])).push(0u64);
    if values.len() == 0 {
        assert(spec_leaves(spec_subject(values)) =~= expected);
    } else {
        let rest = values.drop_last();
        law_subject_leaves(rest);
        let r = Seq::new(rest.len(), |i: int| canonical(rest[rest.len() - 1 - i])).push(0u64);
        let sub = spec_subject(values);
        assert(sub == Noun::Pair(Box::new(Noun::Atom(values.last())), Box::new(spec_subject(rest))));
        assert(spec_leaves(Noun::Atom(values.last())) == seq![canonical(values.last())]);
        assert(spec_leaves(sub) == spec_leaves(Noun::Atom(values.last())) + spec_leaves(spec_subject(rest)));
        assert(spec_leaves(spec_subject(values)) =~= expected) by {
            assert forall|i: int| 0 <= i < expected.len() implies #[trigger] (seq![canonical(values.last())] + r)[i] == expected[i] by {
                if i > 0 && i < values.len() {
                    assert(r[i - 1] == canonical(rest[rest.len() - 1 - (i - 1)]));
                }
            }
            assert((seq![canonical(values.last())] + r).len() == expected.len());
        }
    }
}

} // verus!

verus! {

/// The noun reached from `n` by `k` steps into tails, if every step finds a pair.
pub open spec fn tail_at(n: Noun, k: nat) -> Option<Noun>
    decreases k,
{
    if k == 0 {
        Some(n)
    } else {
        match n {
            Noun::Pair(_, t) => tail_at(*t, (k - 1) as nat),
            Noun::Atom(_) => None,
        }
    }
}

/// `n` is a pair whose head is `h`.
pub open spec fn head_is(n: Option<Noun>, h: Noun) -> bool {
    n matches Some(Noun::Pair(x, _)) && *x == h
}

/// The subject is right-nested with the last input first: `k` steps into
/// tails there is a pair whose head is input `len - 1 - k`, and after all the
/// inputs the atom 0 ends the list (`[p_last [... [p_first 0]]]`).
pub proof fn law_subject_is_right_nested(values: Seq<u64>)
    ensures
        forall|k: int| 0 <= k < values.len()
            ==> head_is(#[trigger] tail_at(spec_subject(values), k as nat), Noun::Atom(values[values.len() - 1 - k])),
        tail_at(spec_subject(values), values.len()) == Some(Noun::Atom(0)),
    decreases values.len(),
{
    if values.len() > 0 {
        let rest = values.drop_last();
        law_subject_is_right_nested(rest);
        let sub = spec_subject(values);
        assert(sub == Noun::Pair(Box::new(Noun::Atom(values.last())), Box::new(spec_subject(rest))));
        assert forall|k: int| 0 <= k < values.len()
            implies head_is(#[trigger] tail_at(sub, k as nat), Noun::Atom(values[values.len() - 1 - k])) by {
            if k > 0 {
                assert(tail_at(sub, k as nat) == tail_at(spec_subject(rest), (k - 1) as nat));
                assert(rest[rest.len() - 1 - (k - 1)] == values[values.len() - 1 - k]);
            }
        }
        assert(tail_at(sub, values.len()) == tail_at(spec_subject(rest), rest.len()));
    }
}

/// The right fold of `es` is right-nested: `k` steps into tails there is a
/// pair whose head is `es[k]`, and the last element ends the nesting.
proof fn lemma_fold_right_nested(es: Seq<Noun>)
    requires
        es.len() >= 1,
    ensures
        forall|k: int| 0 <= k < es.len() - 1 ==> head_is(#[trigger] tail_at(fold_right(es), k as nat), es[k]),
        tail_at(fold_right(es), (es.len() - 1) as nat) == Some(es[es.len() - 1]),
    decreases es.len(),
{
    if es.len() > 1 {
        let rest = es.drop_first();
        lemma_fold_right_nested(rest);
        let f = fold_right(es);
        assert(f == Noun::Pair(Box::new(es[0]), Box::new(fold_right(rest))));
        assert forall|k: int| 0 <= k < es.len() - 1 implies head_is(#[trigger] tail_at(f, k as nat), es[k]) by {
            if k > 0 {
                assert(tail_at(f, k as nat) == tail_at(fold_right(rest), (k - 1) as nat));
                assert(rest[k - 1] == es[k]);
            }
        }
        assert(tail_at(f, (es.len() - 1) as nat) == tail_at(fold_right(rest), (rest.len() - 1) as nat));
        assert(rest[rest.len() - 1] == es[es.len() - 1]);
    }
}

/// The printed elements of a cell, separated by single spaces.
pub open spec fn elems_text(es: Seq<Noun>) -> Seq<u8>
    decreases es.len(),
{
    if es.len() == 0 {
        Seq::empty()
    } else if es.len() == 1 {
        print_bytes(es[0])
    } else {
        print_bytes(es[0]) + seq![32u8] + elems_text(es.drop_first())
    }
}

/// The bracket text `[e0 e1 ... e(n-1)]` of a cell of printed elements.
pub open spec fn cell_text(es: Seq<Noun>) -> Seq<u8> {
    seq![91u8] + elems_text(es) + seq![93u8]
}

proof fn lemma_elems_text_starts(es: Seq<Noun>)
    requires
        es.len() >= 1,
    ensures
        elems_text(es).len() >= print_bytes(es[0]).len(),
        elems_text(es).subrange(0, print_bytes(es[0]).len() as int) == print_bytes(es[0]),
        elems_text(es)[0] == 91 || is_digit(elems_text(es)[0]),
{
    lemma_print_bytes(es[0]);
    let p = print_bytes(es[0]);
    if es.len() > 1 {
        let t = elems_text(es);
        assert(t.subrange(0, p.len() as int) =~= p);
        assert(t[0] == p[0]);
    } else {
        assert(elems_text(es).subrange(0, p.len() as int) =~= p);
    }
}

/// Reading the elements text of canonical nouns, closed by `]`, gives those
/// nouns after `acc`.
proof fn lemma_elems_of_text(b: Seq<u8>, pos: int, es: Seq<Noun>, acc: Seq<Noun>)
    requires
        es.len() >= 1,
        forall|i: int| 0 <= i < es.len() ==> #[trigger] is_canonical(es[i]),
        0 <= pos,
        pos + elems_text(es).len() < b.len(),
        b.subrange(pos, pos + elems_text(es).len()) == elems_text(es),
        b[pos + elems_text(es).len()] == 93,
    ensures
        spec_elems(b, pos, acc) == Ok::<(Seq<Noun>, int), Seq<char>>((acc + es, pos + elems_text(es).len() + 1)),
    decreases es.len(),
{
    let t = elems_text(es);
    let p = print_bytes(es[0]);
    lemma_elems_text_starts(es);
    lemma_print_bytes(es[0]);
    assert(b[pos] == t[0]);
    lemma_skip_ws_none(b, pos);
    assert(b.subrange(pos, pos + p.len()) =~= p) by {
        assert forall|i: int| 0 <= i < p.len() implies b.subrange(pos, pos + p.len())[i] == p[i] by {
            assert(b[pos + i] == t[i]);
            assert(t.subrange(0, p.len() as int)[i] == t[i]);
        }
    }
    let r = pos + p.len();
    if es.len() == 1 {
        assert(t == p);
        assert(!is_digit(b[r]));
        lemma_data_of_print(b, pos, es[0]);
        lemma_skip_ws_none(b, r);
        assert(spec_elems(b, r, acc.push(es[0])) == Ok::<(Seq<Noun>, int), Seq<char>>((acc.push(es[0]), r + 1)));
        assert(acc.push(es[0]) =~= acc + es);
    } else {
        let rest = es.drop_first();
        let tr = elems_text(rest);
        assert(t == p + seq![32u8] + tr);
        assert(b[r] == 32) by {
            assert(b[r] == t[p.len() as int]);
        }
        lemma_data_of_print(b, pos, es[0]);
        assert forall|i: int| 0 <= i < rest.len() implies #[trigger] is_canonical(rest[i]) by {
            assert(rest[i] == es[i + 1]);
        }
        let s = r + 1;
        assert(b.subrange(s, s + tr.len()) =~= tr) by {
            assert forall|i: int| 0 <= i < tr.len() implies b.subrange(s, s + tr.len())[i] == tr[i] by {
                assert(b[s + i] == t[p.len() + 1 + i]);
            }
        }
        assert(s + tr.len() == pos + t.len());
        lemma_elems_of_text(b, s, rest, acc.push(es[0]));
        lemma_elems_text_starts(rest);
        assert(b[s] == tr[0]);
        lemma_skip_ws_none(b, s);
        assert(skip_ws_spec(b, r) == skip_ws_spec(b, s));
        assert(spec_elems(b, r, acc.push(es[0])) == spec_elems(b, s, acc.push(es[0])));
        assert(acc.push(es[0]) + rest =~= acc + es);
    }
}

/// Brackets fold right: the text `[e0 e1 ... e(n-1)]` of two or more printed
/// canonical nouns parses to the right-nested `[e0 [e1 [... e(n-1)]]]`. `k`
/// steps into tails there is a pair whose head is `e(k)`, and the last element
/// ends the nesting.
pub proof fn law_cells_fold_right(es: Seq<Noun>)
    requires
        es.len() >= 2,
        forall|i: int| 0 <= i < es.len() ==> #[trigger] is_canonical(es[i]),
    ensures
        spec_parse(cell_text(es)) matches Ok(n) && {
            &&& forall|k: int| 0 <= k < es.len() - 1 ==> head_is(#[trigger] tail_at(n, k as nat), es[k])
            &&& tail_at(n, (es.len() - 1) as nat) == Some(es[es.len() - 1])
        },
{
    let b = cell_text(es);
    let t = elems_text(es);
    lemma_elems_text_starts(es);
    assert(b.subrange(1, 1 + t.len() as int) =~= t);
    assert(b[1 + t.len() as int] == 93);
    lemma_elems_of_text(b, 1, es, Seq::empty());
    assert(Seq::<Noun>::empty() + es =~= es);
    assert(b[0] == 91);
    lemma_skip_ws_none(b, 0);
    assert(b[1] == t[0]);
    lemma_skip_ws_none(b, 1);
    assert(spec_data(b, 0) == Ok::<(Noun, int), Seq<char>>((fold_right(es), b.len() as int)));
    assert(skip_ws_spec(b, b.len() as int) == b.len());
    lemma_fold_right_nested(es);
}

} // verus!
