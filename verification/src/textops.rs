//! Small string operations the parser is built from: trimming, prefix
//! tests, leading-character counts, and splitting on a separator.

use vstd::prelude::*;
use vstd::string::StrSliceExecFns;

use crate::chars::is_space;
use crate::chars::is_space_char;

verus! {

/// Characters stripped from the end of a raw statement line.
pub open spec fn is_stmt_end_char(c: char) -> bool {
    c == ' ' || c == '\t' || c == ';'
}

/// The line with trailing spaces, tabs and semicolons removed.
pub open spec fn trim_end_stmt(s: Seq<char>) -> Seq<char>
    decreases s.len(),
{
    if s.len() > 0 && is_stmt_end_char(s.last()) {
        trim_end_stmt(s.drop_last())
    } else {
        s
    }
}

/// The string with leading whitespace removed.
pub open spec fn trim_start_ws(s: Seq<char>) -> Seq<char>
    decreases s.len(),
{
    if s.len() > 0 && is_space_char(s[0]) {
        trim_start_ws(s.drop_first())
    } else {
        s
    }
}

/// The string with leading spaces removed.
pub open spec fn trim_start_sp(s: Seq<char>) -> Seq<char>
    decreases s.len(),
{
    if s.len() > 0 && s[0] == ' ' {
        trim_start_sp(s.drop_first())
    } else {
        s
    }
}

/// The string with trailing spaces removed.
pub open spec fn trim_end_sp(s: Seq<char>) -> Seq<char>
    decreases s.len(),
{
    if s.len() > 0 && s.last() == ' ' {
        trim_end_sp(s.drop_last())
    } else {
        s
    }
}

/// The string with surrounding spaces removed.
pub open spec fn trim_sp(s: Seq<char>) -> Seq<char> {
    trim_start_sp(trim_end_sp(s))
}

/// Whether `p` is a prefix of `s`.
pub open spec fn has_prefix(s: Seq<char>, p: Seq<char>) -> bool {
    p.len() <= s.len() && s.subrange(0, p.len() as int) == p
}

/// Number of copies of `c` at the start of `s`.
pub open spec fn leading_count(s: Seq<char>, c: char) -> int
    decreases s.len(),
{
    if s.len() > 0 && s[0] == c {
        1 + leading_count(s.drop_first(), c)
    } else {
        0
    }
}

/// Whether the separator `sep` occurs in `s` at position `i`.
pub open spec fn sep_at(s: Seq<char>, sep: Seq<char>, i: int) -> bool {
    0 <= i && i + sep.len() <= s.len() && s.subrange(i, i + sep.len()) == sep
}

/// Position of the first occurrence of `sep` in `s`, or `-1` if none.
pub open spec fn sep_pos(s: Seq<char>, sep: Seq<char>) -> int
    decreases s.len(),
{
    if sep.len() == 0 || s.len() < sep.len() {
        -1
    } else if s.subrange(0, sep.len() as int) == sep {
        0
    } else {
        let r = sep_pos(s.drop_first(), sep);
        if r < 0 {
            -1
        } else {
            r + 1
        }
    }
}

/// `s` split on each non-overlapping occurrence of `sep`, left to right.
pub open spec fn split_on(s: Seq<char>, sep: Seq<char>) -> Seq<Seq<char>>
    decreases s.len(),
{
    let i = sep_pos(s, sep);
    if 0 <= i && sep.len() > 0 && i + sep.len() <= s.len() {
        seq![s.subrange(0, i)] + split_on(s.subrange(i + sep.len(), s.len() as int), sep)
    } else {
        seq![s]
    }
}

/// `sep_pos` finds the first occurrence of `sep`, and `-1` means there is
/// none.
pub proof fn lemma_sep_pos(s: Seq<char>, sep: Seq<char>)
    requires
        sep.len() > 0,
    ensures
        sep_pos(s, sep) == -1 ==> forall|i: int| !sep_at(s, sep, i),
        sep_pos(s, sep) >= 0 ==> sep_at(s, sep, sep_pos(s, sep)),
        sep_pos(s, sep) >= 0 ==> forall|i: int| 0 <= i < sep_pos(s, sep) ==> !sep_at(s, sep, i),
    decreases s.len(),
{
    if s.len() < sep.len() {
        assert forall|i: int| !sep_at(s, sep, i) by {}
    } else if s.subrange(0, sep.len() as int) == sep {
    } else {
        lemma_sep_pos(s.drop_first(), sep);
        assert forall|i: int| 1 <= i implies sep_at(s, sep, i) == sep_at(
            s.drop_first(),
            sep,
            i - 1,
        ) by {
            if i + sep.len() <= s.len() {
                assert(s.subrange(i, i + sep.len()) =~= s.drop_first().subrange(
                    i - 1,
                    i - 1 + sep.len(),
                ));
            }
        }
        let r = sep_pos(s.drop_first(), sep);
        if r < 0 {
            assert forall|i: int| !sep_at(s, sep, i) by {
                if i == 0 {
                    assert(!sep_at(s, sep, 0));
                }
            }
        } else {
            assert(sep_at(s, sep, r + 1));
        }
    }
}

/// Executable trailing-strip of spaces, tabs and semicolons.
pub fn trim_end_stmt_exec<'a>(s: &'a str) -> (r: &'a str)
    ensures
        r@ == trim_end_stmt(s@),
    decreases s@.len(),
{
    let n = s.unicode_len();
    if n == 0 {
        return s;
    }
    let c = s.get_char(n - 1);
    if c == ' ' || c == '\t' || c == ';' {
        let sub = s.substring_char(0, n - 1);
        proof {
            assert(s@.drop_last() =~= s@.subrange(0, n - 1));
        }
        trim_end_stmt_exec(sub)
    } else {
        s
    }
}

/// Executable leading-whitespace strip.
pub fn trim_start_ws_exec<'a>(s: &'a str) -> (r: &'a str)
    ensures
        r@ == trim_start_ws(s@),
    decreases s@.len(),
{
    let n = s.unicode_len();
    if n == 0 {
        return s;
    }
    let c = s.get_char(0);
    if is_space(c) {
        let sub = s.substring_char(1, n);
        proof {
            assert(s@.drop_first() =~= s@.subrange(1, n as int));
        }
        trim_start_ws_exec(sub)
    } else {
        s
    }
}

/// Executable trailing-space strip.
pub fn trim_end_sp_exec<'a>(s: &'a str) -> (r: &'a str)
    ensures
        r@ == trim_end_sp(s@),
    decreases s@.len(),
{
    let n = s.unicode_len();
    if n == 0 {
        return s;
    }
    let c = s.get_char(n - 1);
    if c == ' ' {
        let sub = s.substring_char(0, n - 1);
        proof {
            assert(s@.drop_last() =~= s@.subrange(0, n - 1));
        }
        trim_end_sp_exec(sub)
    } else {
        s
    }
}

/// Executable leading-space strip.
pub fn trim_start_sp_exec<'a>(s: &'a str) -> (r: &'a str)
    ensures
        r@ == trim_start_sp(s@),
    decreases s@.len(),
{
    let n = s.unicode_len();
    if n == 0 {
        return s;
    }
    let c = s.get_char(0);
    if c == ' ' {
        let sub = s.substring_char(1, n);
        proof {
            assert(s@.drop_first() =~= s@.subrange(1, n as int));
        }
        trim_start_sp_exec(sub)
    } else {
        s
    }
}

/// Executable surrounding-space strip.
pub fn trim_sp_exec<'a>(s: &'a str) -> (r: &'a str)
    ensures
        r@ == trim_sp(s@),
{
    trim_start_sp_exec(trim_end_sp_exec(s))
}

/// Executable prefix test.
pub fn has_prefix_exec(s: &str, p: &str) -> (r: bool)
    ensures
        r == has_prefix(s@, p@),
{
    let n = s.unicode_len();
    let pn = p.unicode_len();
    if pn > n {
        return false;
    }
    let mut i: usize = 0;
    while i < pn
        invariant
            i <= pn <= n,
            n == s@.len(),
            pn == p@.len(),
            forall|k: int| 0 <= k < i ==> s@[k] == p@[k],
        decreases pn - i,
    {
        if s.get_char(i) != p.get_char(i) {
            proof {
                assert(s@.subrange(0, pn as int)[i as int] != p@[i as int]);
            }
            return false;
        }
        i = i + 1;
    }
    proof {
        assert(s@.subrange(0, pn as int) =~= p@);
    }
    true
}

/// Executable count of leading copies of `c`.
pub fn leading_count_exec(s: &str, c: char) -> (r: usize)
    ensures
        r as int == leading_count(s@, c),
        r <= s@.len(),
    decreases s@.len(),
{
    let n = s.unicode_len();
    if n == 0 {
        return 0;
    }
    if s.get_char(0) == c {
        let sub = s.substring_char(1, n);
        proof {
            assert(s@.drop_first() =~= s@.subrange(1, n as int));
        }
        let rest = leading_count_exec(sub, c);
        1 + rest
    } else {
        0
    }
}

/// Position of the first `::` in `s`, if any.
pub fn find_sep2(s: &str) -> (r: Option<usize>)
    ensures
        match r {
            Some(i) => i as int == sep_pos(s@, seq![':', ':']),
            None => sep_pos(s@, seq![':', ':']) == -1,
        },
{
    let ghost sep = seq![':', ':'];
    let n = s.unicode_len();
    if n < 2 {
        proof {
            lemma_sep_pos(s@, sep);
            if sep_pos(s@, sep) >= 0 {
                assert(sep_at(s@, sep, sep_pos(s@, sep)));
            }
        }
        return None;
    }
    let mut i: usize = 0;
    while i <= n - 2
        invariant
            sep == seq![':', ':'],
            2 <= n,
            n == s@.len(),
            i <= n,
            forall|k: int| 0 <= k < i ==> !sep_at(s@, sep, k),
        decreases n - i,
    {
        let c1 = s.get_char(i);
        let c2 = s.get_char(i + 1);
        if c1 == ':' && c2 == ':' {
            proof {
                assert(s@.subrange(i as int, i + 2) =~= sep);
                assert(sep_at(s@, sep, i as int));
                lemma_sep_pos(s@, sep);
                let p = sep_pos(s@, sep);
                assert(p != -1);
                if p < i {
                    assert(!sep_at(s@, sep, p));
                }
                assert(p <= i);
            }
            return Some(i);
        }
        proof {
            assert forall|k: int| 0 <= k < i + 1 implies !sep_at(s@, sep, k) by {
                if k == i {
                    assert(sep_at(s@, sep, k) ==> s@.subrange(k, k + 2)[0] == ':'
                        && s@.subrange(k, k + 2)[1] == ':');
                }
            }
        }
        i = i + 1;
    }
    proof {
        lemma_sep_pos(s@, sep);
        let p = sep_pos(s@, sep);
        if p >= 0 {
            assert(sep_at(s@, sep, p));
            assert(p < i);
        }
    }
    None
}

/// Position of the first `c` in `s`, if any.
pub fn find_char(s: &str, c: char) -> (r: Option<usize>)
    ensures
        match r {
            Some(i) => i as int == sep_pos(s@, seq![c]),
            None => sep_pos(s@, seq![c]) == -1,
        },
{
    let ghost sep = seq![c];
    let n = s.unicode_len();
    let mut i: usize = 0;
    while i < n
        invariant
            sep == seq![c],
            n == s@.len(),
            i <= n,
            forall|k: int| 0 <= k < i ==> !sep_at(s@, sep, k),
        decreases n - i,
    {
        let c1 = s.get_char(i);
        if c1 == c {
            proof {
                assert(s@.subrange(i as int, i + 1) =~= sep);
                assert(sep_at(s@, sep, i as int));
                lemma_sep_pos(s@, sep);
                let p = sep_pos(s@, sep);
                assert(p != -1);
                if p < i {
                    assert(!sep_at(s@, sep, p));
                }
                assert(p <= i);
            }
            return Some(i);
        }
        proof {
            assert forall|k: int| 0 <= k < i + 1 implies !sep_at(s@, sep, k) by {
                if k == i {
                    assert(sep_at(s@, sep, k) ==> s@.subrange(k, k + 1)[0] == c);
                }
            }
        }
        i = i + 1;
    }
    proof {
        lemma_sep_pos(s@, sep);
        let p = sep_pos(s@, sep);
        if p >= 0 {
            assert(sep_at(s@, sep, p));
            assert(p < i);
        }
    }
    None
}

/// Executable split on `::`.
pub fn split_sep2(s: &str) -> (r: Vec<String>)
    ensures
        r.deep_view() == split_on(s@, seq![':', ':']),
        r.len() > 0,
    decreases s@.len(),
{
    let ghost sep = seq![':', ':'];
    let n = s.unicode_len();
    match find_sep2(s) {
        None => {
            let mut v: Vec<String> = Vec::new();
            v.push(s.to_owned());
            proof {
                assert(v.deep_view() =~= seq![s@]);
            }
            v
        },
        Some(i) => {
            proof {
                lemma_sep_pos(s@, sep);
                assert(sep_at(s@, sep, i as int));
            }
            let head = s.substring_char(0, i).to_owned();
            let rest = s.substring_char(i + 2, n);
            let mut tail = split_sep2(rest);
            let ghost tail_view = tail.deep_view();
            tail.insert(0, head);
            proof {
                assert(tail.deep_view() =~= seq![head@] + tail_view);
            }
            tail
        },
    }
}

/// Executable split on a single character.
pub fn split_char(s: &str, c: char) -> (r: Vec<String>)
    ensures
        r.deep_view() == split_on(s@, seq![c]),
        r.len() > 0,
    decreases s@.len(),
{
    let ghost sep = seq![c];
    let n = s.unicode_len();
    match find_char(s, c) {
        None => {
            let mut v: Vec<String> = Vec::new();
            v.push(s.to_owned());
            proof {
                assert(v.deep_view() =~= seq![s@]);
            }
            v
        },
        Some(i) => {
            proof {
                lemma_sep_pos(s@, sep);
                assert(sep_at(s@, sep, i as int));
            }
            let head = s.substring_char(0, i).to_owned();
            let rest = s.substring_char(i + 1, n);
            let mut tail = split_char(rest, c);
            let ghost tail_view = tail.deep_view();
            tail.insert(0, head);
            proof {
                assert(tail.deep_view() =~= seq![head@] + tail_view);
            }
            tail
        },
    }
}

} // verus!

