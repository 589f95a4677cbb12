//! Bounded bracket parser for execution programs. It reads the same binary and
//! n-ary syntax as `formula`, reduces atoms to canonical field values, and
//! bounds size, nesting depth and node count.
use vstd::prelude::*;
use vstd::string::StringSliceAdditionalSpecFns;
use crate::noun::{Noun, canonical, field_value, is_canonical, size, depth};
use crate::formula::{
    is_ws, is_digit, digits_end, digits_value, lemma_digits_end, print_bytes, spec_print, lemma_print_bytes,
    lemma_decimal_bytes, lemma_digits_run, lemma_print_encoding,
};
use crate::text::text;

verus! {

/// Largest accepted program text, in bytes.
pub const MAX_ASSEMBLY_BYTES: usize = 262144;

/// Largest accepted nesting depth.
pub const MAX_DEPTH: usize = 128;

/// Largest accepted number of atoms and pairs.
pub const MAX_NODES: usize = 4096;

/// A parse frame: the nouns read so far inside one open bracket, with their depths.
pub type Frame = Seq<(Noun, nat)>;

/// Closing a cell: folds the frame's values onto `tail` from the right,
/// counting each pair and refusing depth beyond the limit.
pub open spec fn close_fold(values: Frame, tail: Noun, d: nat, nodes: nat) -> Result<(Noun, nat, nat), Seq<char>>
    decreases values.len(),
{
    if values.len() == 0 {
        Ok((tail, d, nodes))
    } else {
        let (head, hd) = values.last();
        let nd = 1 + if d >= hd { d } else { hd };
        if nd > 128 {
            Err("formula depth limit"@)
        } else {
            close_fold(values.drop_last(), Noun::Pair(Box::new(head), Box::new(tail)), nd, nodes + 1)
        }
    }
}

/// Pushes a value onto the innermost frame.
pub open spec fn push_top(frames: Seq<Frame>, v: (Noun, nat)) -> Seq<Frame> {
    frames.update(frames.len() - 1, frames.last().push(v))
}

/// One scanner step at `pos`: the next position, frames and node count.
pub open spec fn scan_step(b: Seq<u8>, pos: int, frames: Seq<Frame>, nodes: nat)
    -> Result<(int, Seq<Frame>, nat), Seq<char>>
{
    let c = b[pos];
    if is_ws(c) {
        Ok((pos + 1, frames, nodes))
    } else if c == 91 {
        if frames.len() > 128 {
            Err("formula depth limit"@)
        } else {
            Ok((pos + 1, frames.push(Seq::empty()), nodes))
        }
    } else if c == 93 {
        if frames.len() <= 1 {
            Err("unexpected closing bracket"@)
        } else {
            let values = frames.last();
            let rest = frames.drop_last();
            if values.len() == 0 {
                Err("empty cell"@)
            } else if values.len() == 1 {
                Err("cell needs at least two elements"@)
            } else {
                let (tail, d) = values.last();
                match close_fold(values.drop_last(), tail, d, nodes) {
                    Ok((n, nd, nn)) => Ok((pos + 1, push_top(rest, (n, nd)), nn)),
                    Err(m) => Err(m),
                }
            }
        }
    } else if is_digit(c) {
        let e = digits_end(b, pos);
        let v = digits_value(b.subrange(pos, e));
        if v > u64::MAX {
            Err("invalid atom"@)
        } else {
            Ok((e, push_top(frames, (Noun::Atom(canonical(v as u64)), 0)), nodes + 1))
        }
    } else {
        Err("invalid formula character"@)
    }
}

/// Scans from `pos` to the end of the text.
pub open spec fn scan(b: Seq<u8>, pos: int, frames: Seq<Frame>, nodes: nat) -> Result<(Seq<Frame>, nat), Seq<char>>
    decreases b.len() - pos,
{
    if pos < 0 || pos >= b.len() {
        Ok((frames, nodes))
    } else {
        match scan_step(b, pos, frames, nodes) {
            Ok((p, f, n)) => if n > 4096 {
                Err("formula node limit"@)
            } else if pos < p <= b.len() {
                scan(b, p, f, n)
            } else {
                Err("invalid formula character"@)
            },
            Err(m) => Err(m),
        }
    }
}

/// The program noun of a text, with every refusal the parser makes.
pub open spec fn spec_parse_program(b: Seq<u8>) -> Result<Noun, Seq<char>> {
    if b.len() > MAX_ASSEMBLY_BYTES {
        Err("execution program is too large"@)
    } else {
        match scan(b, 0, seq![Seq::empty()], 0) {
            Ok((frames, nodes)) => if frames.len() != 1 {
                Err("unclosed bracket"@)
            } else if frames[0].len() != 1 {
                Err("program must contain exactly one noun"@)
            } else {
                Ok(frames[0][0].0)
            },
            Err(m) => Err(m),
        }
    }
}

/// A frame of the scanner, stored in execution form.
pub open spec fn frame_view(f: Seq<(Noun, usize)>) -> Frame {
    Seq::new(f.len(), |i: int| (f[i].0, f[i].1 as nat))
}

pub open spec fn frames_view(fs: Seq<Vec<(Noun, usize)>>) -> Seq<Frame> {
    Seq::new(fs.len(), |i: int| frame_view(fs[i]@))
}

/// Depths stay within the limit.
pub open spec fn depths_bounded(fs: Seq<Frame>) -> bool {
    forall|i: int, j: int| 0 <= i < fs.len() && 0 <= j < fs[i].len() ==> #[trigger] fs[i][j].1 <= 128
}

#[verifier::loop_isolation(false)]
fn close_cell(values: Vec<(Noun, usize)>, nodes: usize) -> (r: Result<(Noun, usize, usize), String>)
    requires
        values@.len() >= 1,
        values@.len() <= 262144,
        nodes <= 4096,
        forall|j: int| 0 <= j < values@.len() ==> #[trigger] values@[j].1 <= 128,
    ensures
        ({
            let fv = frame_view(values@);
            match close_fold(fv.drop_last(), fv.last().0, fv.last().1, nodes as nat) {
                Ok((n, d, nn)) => r matches Ok((m, e, k)) && m == n && e == d && k == nn && d <= 128,
                Err(msg) => r matches Err(x) && x@ == msg,
            }
        }),
{
    let ghost fv = frame_view(values@);
    let mut vals = values;
    let (mut tail, mut depth) = vals.pop().unwrap();
    let mut count = nodes;
    proof {
        assert(frame_view(vals@) =~= fv.drop_last());
    }
    while vals.len() > 0
        invariant
            depth <= 128,
            count <= nodes + fv.len(),
            fv.len() <= 262144,
            nodes <= 4096,
            fv.len() == vals@.len() + (count - nodes) + 1,
            forall|j: int| 0 <= j < vals@.len() ==> #[trigger] vals@[j].1 <= 128,
            close_fold(fv.drop_last(), fv.last().0, fv.last().1, nodes as nat)
                == close_fold(frame_view(vals@), tail, depth as nat, count as nat),
        decreases vals@.len(),
    {
        let ghost before = frame_view(vals@);
        let (head, hd) = vals.pop().unwrap();
        proof {
            assert(frame_view(vals@) =~= before.drop_last());
            assert(before.last() == (head, hd as nat));
        }
        let nd = 1 + if depth >= hd { depth } else { hd };
        proof {
            assert(close_fold(before, tail, depth as nat, count as nat) == (if nd > 128 {
                Err("formula depth limit"@)
            } else {
                close_fold(before.drop_last(), Noun::Pair(Box::new(head), Box::new(tail)), nd as nat, count as nat + 1)
            }));
        }
        if nd > 128 {
            return Err(text("formula depth limit"));
        }
        tail = Noun::Pair(Box::new(head), Box::new(tail));
        depth = nd;
        count = count + 1;
    }
    Ok((tail, depth, count))
}

/// Parses a program's bracket text within the size, depth and node limits.
#[verifier::loop_isolation(false)]
pub fn parse_program(text_in: &str) -> (r: Result<Noun, String>)
    ensures
        match spec_parse_program(text_in.spec_bytes()) {
            Ok(n) => r matches Ok(m) && m == n,
            Err(msg) => r matches Err(m) && m@ == msg,
        },
{
    let b = text_in.as_bytes();
    if b.len() > MAX_ASSEMBLY_BYTES {
        return Err(text("execution program is too large"));
    }
    let mut frames: Vec<Vec<(Noun, usize)>> = Vec::new();
    frames.push(Vec::new());
    let mut pos: usize = 0;
    let mut nodes: usize = 0;
    proof {
        assert(frames_view(frames@) =~= seq![Seq::<(Noun, nat)>::empty()]) by {
            assert(frame_view(frames@[0]@) =~= Seq::<(Noun, nat)>::empty());
        }
    }
    while pos < b.len()
        invariant
            pos <= b@.len(),
            b@.len() <= MAX_ASSEMBLY_BYTES,
            nodes <= 4096,
            1 <= frames@.len() <= 129,
            depths_bounded(frames_view(frames@)),
            forall|i: int| 0 <= i < frames@.len() ==> #[trigger] frames@[i]@.len() <= pos,
            scan(b@, 0, seq![Seq::empty()], 0) == scan(b@, pos as int, frames_view(frames@), nodes as nat),
        decreases b@.len() - pos,
    {
        let ghost fv = frames_view(frames@);
        let c = b[pos];
        if c == 32 || c == 9 || c == 10 || c == 12 || c == 13 {
            pos = pos + 1;
        } else if c == 91 {
            if frames.len() > 128 {
                proof {
                    assert(scan_step(b@, pos as int, fv, nodes as nat) == Err::<(int, Seq<Frame>, nat), Seq<char>>("formula depth limit"@));
                }
                return Err(text("formula depth limit"));
            }
            let ghost before_frames = frames@;
            frames.push(Vec::new());
            proof {
                assert(frames_view(frames@) =~= fv.push(Seq::empty())) by {
                    assert(frame_view(frames@[frames@.len() - 1]@) =~= Seq::<(Noun, nat)>::empty());
                    assert forall|i: int| 0 <= i < fv.len() implies frames_view(frames@)[i] == fv[i] by {
                        assert(frames@[i] == before_frames[i]);
                    }
                }
            }
            pos = pos + 1;
        } else if c == 93 {
            if frames.len() == 1 {
                return Err(text("unexpected closing bracket"));
            }
            let values = frames.pop().unwrap();
            if values.len() == 0 {
                return Err(text("empty cell"));
            }
            if values.len() == 1 {
                return Err(text("cell needs at least two elements"));
            }
            proof {
                assert(frames_view(frames@) =~= fv.drop_last());
                assert(frame_view(values@) == fv.last());
                assert forall|j: int| 0 <= j < values@.len() implies #[trigger] values@[j].1 <= 128 by {
                    assert(fv[fv.len() - 1][j].1 <= 128);
                }
            }
            match close_cell(values, nodes) {
                Ok((n, d, k)) => {
                    let ghost rest = frames_view(frames@);
                    let mut top = frames.pop().unwrap();
                    top.push((n, d));
                    frames.push(top);
                    proof {
                        assert(frames_view(frames@) =~= push_top(rest, (n, d as nat))) by {
                            assert(frame_view(frames@[frames@.len() - 1]@) =~= rest.last().push((n, d as nat)));
                        }
                    }
                    nodes = k;
                    if nodes > 4096 {
                        return Err(text("formula node limit"));
                    }
                },
                Err(m) => {
                    return Err(m);
                },
            }
            pos = pos + 1;
        } else if 48 <= c && c <= 57 {
            proof {
                lemma_digits_end(b@, pos as int);
            }
            let start = pos;
            let mut acc: u64 = 0;
            let mut overflow = false;
            while pos < b.len() && 48 <= b[pos] && b[pos] <= 57
                invariant
                    start <= pos <= b@.len(),
                    digits_end(b@, start as int) == digits_end(b@, pos as int),
                    !overflow ==> acc as nat == digits_value(b@.subrange(start as int, pos as int)),
                    overflow ==> digits_value(b@.subrange(start as int, pos as int)) > u64::MAX,
                decreases b@.len() - pos,
            {
                let d = (b[pos] - 48) as u64;
                proof {
                    let s = b@.subrange(start as int, pos as int + 1);
                    assert(s.drop_last() =~= b@.subrange(start as int, pos as int));
                    assert(s.last() == b@[pos as int]);
                }
                if !overflow {
                    if acc > 1844674407370955161 || (acc == 1844674407370955161 && d > 5) {
                        overflow = true;
                    } else {
                        acc = acc * 10 + d;
                    }
                }
                pos = pos + 1;
            }
            if overflow {
                proof {
                    assert(pos as int == digits_end(b@, start as int));
                    assert(scan_step(b@, start as int, fv, nodes as nat) == Err::<(int, Seq<Frame>, nat), Seq<char>>("invalid atom"@));
                }
                return Err(text("invalid atom"));
            }
            let word = field_value(acc);
            let ghost rest = frames_view(frames@);
            let mut top = frames.pop().unwrap();
            top.push((Noun::Atom(word), 0));
            frames.push(top);
            proof {
                assert(frames_view(frames@) =~= push_top(rest, (Noun::Atom(word), 0nat))) by {
                    assert(frame_view(frames@[frames@.len() - 1]@) =~= rest.last().push((Noun::Atom(word), 0nat)));
                }
            }
            nodes = nodes + 1;
            if nodes > 4096 {
                return Err(text("formula node limit"));
            }
        } else {
            return Err(text("invalid formula character"));
        }
    }
    if frames.len() != 1 {
        return Err(text("unclosed bracket"));
    }
    let mut values = frames.pop().unwrap();
    if values.len() != 1 {
        return Err(text("program must contain exactly one noun"));
    }
    let (noun, _) = values.pop().unwrap();
    Ok(noun)
}


/// Scanning the printed bytes of a canonical noun, placed anywhere and followed
/// by anything but a digit, pushes that noun with its depth onto the innermost
/// frame and counts its atoms and pairs.
proof fn lemma_scan_print(b: Seq<u8>, pos: int, frames: Seq<Frame>, nodes: nat, n: Noun)
    requires
        is_canonical(n),
        0 <= pos,
        pos + print_bytes(n).len() <= b.len(),
        b.subrange(pos, pos + print_bytes(n).len()) == print_bytes(n),
        pos + print_bytes(n).len() == b.len() || !is_digit(b[pos + print_bytes(n).len()]),
        frames.len() >= 1,
        frames.len() + depth(n) <= 129,
        nodes + size(n) <= 4096,
    ensures
        scan(b, pos, frames, nodes) == scan(b, pos + print_bytes(n).len(),
            push_top(frames, (n, depth(n))), nodes + size(n)),
    decreases n,
{
    lemma_print_bytes(n);
    let pb = print_bytes(n);
    assert(b[pos] == pb[0]);
    match n {
        Noun::Atom(v) => {
            lemma_decimal_bytes(canonical(v) as nat);
            assert forall|i: int| pos <= i < pos + pb.len() implies #[trigger] is_digit(b[i]) by {
                assert(b[i] == pb[i - pos]);
            }
            lemma_digits_run(b, pos, pos + pb.len());
            assert(b.subrange(pos, pos + pb.len()) == pb);
            assert(!is_ws(b[pos]));
            assert(scan_step(b, pos, frames, nodes) == Ok::<(int, Seq<Frame>, nat), Seq<char>>(
                (pos + pb.len(), push_top(frames, (Noun::Atom(canonical(canonical(v) as nat as u64)), 0nat)), nodes + 1)));
            assert(canonical(canonical(v) as nat as u64) == v);
        },
        Noun::Pair(h, t) => {
            lemma_print_bytes(*h);
            lemma_print_bytes(*t);
            let ph = print_bytes(*h);
            let pt = print_bytes(*t);
            let a = pos + 1;
            let c = a + ph.len();
            let d = c + 1;
            let e = d + pt.len();
            assert(b[pos] == 91);
            assert(b.subrange(a, c) =~= ph) by {
                assert forall|i: int| 0 <= i < ph.len() implies b.subrange(a, c)[i] == ph[i] by {
                    assert(b[a + i] == pb[1 + i]);
                }
            }
            assert(b[c] == 32) by {
                assert(b[c] == pb[1 + ph.len() as int]);
            }
            assert(b.subrange(d, e) =~= pt) by {
                assert forall|i: int| 0 <= i < pt.len() implies b.subrange(d, e)[i] == pt[i] by {
                    assert(b[d + i] == pb[2 + ph.len() + i]);
                }
            }
            assert(b[e] == 93) by {
                assert(b[e] == pb[2 + ph.len() as int + pt.len() as int]);
            }
            let dh = depth(*h);
            let dt = depth(*t);
            let f1 = frames.push(Seq::<(Noun, nat)>::empty());
            let f2 = push_top(f1, (*h, dh));
            let f3 = push_top(f2, (*t, dt));
            assert(f2 =~= frames.push(seq![(*h, dh)]));
            assert(f2.last() =~= seq![(*h, dh)]);
            assert(f2.last().push((*t, dt)) =~= seq![(*h, dh), (*t, dt)]);
            assert(f3 =~= frames.push(seq![(*h, dh), (*t, dt)]));
            // the opening bracket
            assert(scan_step(b, pos, frames, nodes) == Ok::<(int, Seq<Frame>, nat), Seq<char>>((a, f1, nodes)));
            assert(scan(b, pos, frames, nodes) == scan(b, a, f1, nodes));
            // the head, then the separating space
            lemma_scan_print(b, a, f1, nodes, *h);
            assert(scan_step(b, c, f2, nodes + size(*h)) == Ok::<(int, Seq<Frame>, nat), Seq<char>>((d, f2, nodes + size(*h))));
            assert(scan(b, c, f2, nodes + size(*h)) == scan(b, d, f2, nodes + size(*h)));
            // the tail
            lemma_scan_print(b, d, f2, nodes + size(*h), *t);
            // the closing bracket
            let values = f3.last();
            assert(values =~= seq![(*h, dh), (*t, dt)]);
            assert(f3.drop_last() =~= frames);
            assert(values.drop_last() =~= seq![(*h, dh)]);
            assert(seq![(*h, dh)].drop_last() =~= Seq::<(Noun, nat)>::empty());
            let k = nodes + size(*h) + size(*t);
            let nd: nat = 1 + if dt >= dh { dt } else { dh };
            assert(nd == depth(n));
            assert(nd <= 128);
            assert(close_fold(Seq::<(Noun, nat)>::empty(), Noun::Pair(Box::new(*h), Box::new(*t)), nd, k + 1)
                == Ok::<(Noun, nat, nat), Seq<char>>((n, nd, k + 1)));
            assert(seq![(*h, dh)].last() == (*h, dh));
            assert(close_fold(seq![(*h, dh)], *t, dt, k)
                == close_fold(Seq::<(Noun, nat)>::empty(), Noun::Pair(Box::new(*h), Box::new(*t)), nd, k + 1));
            assert(close_fold(values.drop_last(), *t, dt, k)
                == Ok::<(Noun, nat, nat), Seq<char>>((n, depth(n), k + 1)));
            assert(scan_step(b, e, f3, k) == Ok::<(int, Seq<Frame>, nat), Seq<char>>(
                (e + 1, push_top(frames, (n, depth(n))), k + 1)));
            assert(scan(b, e, f3, k) == scan(b, e + 1, push_top(frames, (n, depth(n))), k + 1));
        },
    }
}

/// The program parser reads what the formula printer writes: the printed text
/// of a canonical noun within the depth, node and size limits parses back to
/// that very noun.
pub proof fn law_program_parse_inverts_print(n: Noun)
    requires
        is_canonical(n),
        depth(n) <= MAX_DEPTH,
        size(n) <= MAX_NODES,
        spec_print(n).len() <= MAX_ASSEMBLY_BYTES,
    ensures
        spec_parse_program(vstd::utf8::encode_utf8(spec_print(n))) == Ok::<Noun, Seq<char>>(n),
{
    lemma_print_encoding(n);
    lemma_print_bytes(n);
    let pb = print_bytes(n);
    assert(pb.subrange(0, pb.len() as int) =~= pb);
    let start: Seq<Frame> = seq![Seq::empty()];
    lemma_scan_print(pb, 0, start, 0, n);
    let end = push_top(start, (n, depth(n)));
    assert(end =~= seq![seq![(n, depth(n))]]);
    assert(scan(pb, pb.len() as int, end, size(n)) == Ok::<(Seq<Frame>, nat), Seq<char>>((end, size(n))));
}

} // verus!
