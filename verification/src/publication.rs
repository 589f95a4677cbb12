//! Naming of the staging file an artifact is written to before it is
//! published: a fresh name that can never alias the destination.
use vstd::prelude::*;
use crate::text::{text, push_decimal, spec_decimal};

verus! {

/// `s` up to its first `:` (a default-stream alias names the same file).
pub open spec fn before_colon(s: Seq<char>) -> Seq<char>
    decreases s.len(),
{
    if s.len() == 0 {
        s
    } else if s[0] == ':' {
        Seq::empty()
    } else {
        seq![s[0]] + before_colon(s.drop_first())
    }
}

/// `s` without trailing dots and spaces (Win32 drops them from names).
pub open spec fn trim_dots_spaces(s: Seq<char>) -> Seq<char>
    decreases s.len(),
{
    if s.len() > 0 && (s.last() == '.' || s.last() == ' ') {
        trim_dots_spaces(s.drop_last())
    } else {
        s
    }
}

/// The name a destination file is reached by, for comparison with a staging name.
pub open spec fn destination_key(name: Seq<char>) -> Seq<char> {
    trim_dots_spaces(before_colon(name))
}

/// The staging name for process `pid` and counter value `counter`: `.{pid}.{counter}`.
pub open spec fn spec_staging_name(pid: u32, counter: u64) -> Seq<char> {
    "."@ + spec_decimal(pid as nat) + "."@ + spec_decimal(counter as nat)
}

/// The staging name for process `pid` and counter value `counter`.
pub fn staging_name(pid: u32, counter: u64) -> (r: String)
    ensures
        r@ == spec_staging_name(pid, counter),
{
    let mut s = text(".");
    push_decimal(&mut s, pid as u64);
    s.append(".");
    push_decimal(&mut s, counter);
    s
}

proof fn lemma_before_colon_prefix(s: Seq<char>, i: int)
    requires
        0 <= i <= s.len(),
        forall|k: int| 0 <= k < i ==> s[k] != ':',
    ensures
        i == s.len() || s[i] == ':' ==> before_colon(s) == s.take(i),
    decreases s.len(),
{
    if s.len() > 0 && i > 0 {
        let t = s.drop_first();
        assert forall|k: int| 0 <= k < i - 1 implies t[k] != ':' by {
            assert(t[k] == s[k + 1]);
        }
        lemma_before_colon_prefix(t, i - 1);
        if i == s.len() || s[i] == ':' {
            if i - 1 < t.len() {
                assert(t[i - 1] == s[i]);
            }
            assert(seq![s[0]] + t.take(i - 1) =~= s.take(i));
        }
    } else if i == 0 {
        assert(s.take(0) =~= Seq::<char>::empty());
    }
}

proof fn lemma_trim_prefix(s: Seq<char>, j: int)
    requires
        0 <= j <= s.len(),
        forall|k: int| j <= k < s.len() ==> s[k] == '.' || s[k] == ' ',
        j == 0 || (s[j - 1] != '.' && s[j - 1] != ' '),
    ensures
        trim_dots_spaces(s) == s.take(j),
    decreases s.len(),
{
    if s.len() > j {
        let t = s.drop_last();
        assert forall|k: int| j <= k < t.len() implies t[k] == '.' || t[k] == ' ' by {
            assert(t[k] == s[k]);
        }
        if j > 0 {
            assert(t[j - 1] == s[j - 1]);
        }
        assert(s.last() == s[s.len() - 1]);
        lemma_trim_prefix(t, j);
        assert(t.take(j) =~= s.take(j));
    } else {
        assert(s.take(j) =~= s);
        if s.len() > 0 {
            assert(s.last() == s[j - 1]);
        }
    }
}

/// The name a destination file is reached by.
pub fn destination_key_of(name: &str) -> (r: String)
    ensures
        r@ == destination_key(name@),
{
    let n = name.unicode_len();
    let mut i: usize = 0;
    while i < n && name.get_char(i) != ':'
        invariant
            n == name@.len(),
            i <= n,
            forall|k: int| 0 <= k < i ==> name@[k] != ':',
        decreases n - i,
    {
        i = i + 1;
    }
    proof {
        lemma_before_colon_prefix(name@, i as int);
    }
    let mut j: usize = i;
    while j > 0 && (name.get_char(j - 1) == '.' || name.get_char(j - 1) == ' ')
        invariant
            n == name@.len(),
            j <= i <= n,
            forall|k: int| j <= k < i ==> name@[k] == '.' || name@[k] == ' ',
        decreases j,
    {
        j = j - 1;
    }
    proof {
        let p = name@.take(i as int);
        assert forall|k: int| j <= k < p.len() implies p[k] == '.' || p[k] == ' ' by {
            assert(p[k] == name@[k]);
        }
        if j > 0 {
            assert(p[j - 1] == name@[j - 1]);
        }
        lemma_trim_prefix(p, j as int);
        assert(p.take(j as int) =~= name@.subrange(0, j as int));
    }
    let key = name.substring_char(0, j);
    text(key)
}

/// Whether a staging name would alias the destination, whose file name is
/// `destination` (none when the path has no UTF-8 file name).
pub fn aliases_destination(destination: Option<&str>, staging: &str) -> (r: bool)
    ensures
        r == (destination matches Some(d) && destination_key(d@) == staging@),
{
    match destination {
        Some(d) => {
            let key = destination_key_of(d);
            crate::artifacts::same_text(key.as_str(), staging)
        },
        None => false,
    }
}

} // verus!
