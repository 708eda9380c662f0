//! Lexicographic orders used to sort group keys and symbol lists:
//! code-point order on strings, element-wise order on paths, and the
//! composite (visibility, path) key order.

use vstd::prelude::*;
use vstd::string::StrSliceExecFns;

verus! {

/// Visibility of an import statement; `Public` sorts before `Private`.
#[derive(Copy, Clone, PartialEq, Eq, Structural, Debug)]
pub enum Privacy {
    Public,
    Private,
}

/// Sort rank of a visibility: `Public` first.
pub open spec fn privacy_rank(p: Privacy) -> int {
    match p {
        Privacy::Public => 0,
        Privacy::Private => 1,
    }
}

/// Strict lexicographic order on strings, by code point.
pub open spec fn str_lt(a: Seq<char>, b: Seq<char>) -> bool
    decreases a.len(),
{
    if a.len() == 0 {
        b.len() > 0
    } else if b.len() == 0 {
        false
    } else if a[0] == b[0] {
        str_lt(a.drop_first(), b.drop_first())
    } else {
        (a[0] as u32) < (b[0] as u32)
    }
}

/// Strict lexicographic order on paths, comparing segment by segment.
pub open spec fn path_lt(a: Seq<Seq<char>>, b: Seq<Seq<char>>) -> bool
    decreases a.len(),
{
    if a.len() == 0 {
        b.len() > 0
    } else if b.len() == 0 {
        false
    } else if a[0] == b[0] {
        path_lt(a.drop_first(), b.drop_first())
    } else {
        str_lt(a[0], b[0])
    }
}

/// Strict order on group keys: visibility rank first, then path.
pub open spec fn key_lt(p1: Privacy, a1: Seq<Seq<char>>, p2: Privacy, a2: Seq<Seq<char>>) -> bool {
    privacy_rank(p1) < privacy_rank(p2) || (p1 == p2 && path_lt(a1, a2))
}

pub proof fn lemma_str_lt_asym(a: Seq<char>, b: Seq<char>)
    ensures
        !(str_lt(a, b) && str_lt(b, a)),
    decreases a.len(),
{
    if a.len() > 0 && b.len() > 0 && a[0] == b[0] {
        lemma_str_lt_asym(a.drop_first(), b.drop_first());
    }
}

pub proof fn lemma_str_lt_connected(a: Seq<char>, b: Seq<char>)
    ensures
        !str_lt(a, b) && !str_lt(b, a) ==> a == b,
    decreases a.len(),
{
    if !str_lt(a, b) && !str_lt(b, a) {
        if a.len() == 0 {
            assert(a =~= b);
        } else if b.len() == 0 {
            // str_lt(b, a) holds, contradicting the hypothesis
        } else if a[0] == b[0] {
            assert(str_lt(a, b) == str_lt(a.drop_first(), b.drop_first()));
            assert(str_lt(b, a) == str_lt(b.drop_first(), a.drop_first()));
            lemma_str_lt_connected(a.drop_first(), b.drop_first());
            assert(a.drop_first() == b.drop_first());
            assert(a.len() == b.len());
            assert forall|i: int| 0 <= i < a.len() implies a[i] == b[i] by {
                if i > 0 {
                    assert(a[i] == a.drop_first()[i - 1]);
                    assert(b[i] == b.drop_first()[i - 1]);
                }
            }
            assert(a =~= b);
        } else {
            assert(a[0] as u32 == b[0] as u32);
            vstd::utf8::char_u32_cast(a[0], a[0] as u32);
            vstd::utf8::char_u32_cast(b[0], b[0] as u32);
            assert(a[0] == b[0]);
        }
    }
}

pub proof fn lemma_str_lt_trans(a: Seq<char>, b: Seq<char>, c: Seq<char>)
    ensures
        str_lt(a, b) && str_lt(b, c) ==> str_lt(a, c),
    decreases a.len(),
{
    if str_lt(a, b) && str_lt(b, c) {
        if a.len() == 0 {
        } else if a[0] == b[0] && b[0] == c[0] {
            lemma_str_lt_trans(a.drop_first(), b.drop_first(), c.drop_first());
        }
    }
}

pub proof fn lemma_path_lt_asym(a: Seq<Seq<char>>, b: Seq<Seq<char>>)
    ensures
        !(path_lt(a, b) && path_lt(b, a)),
    decreases a.len(),
{
    if a.len() > 0 && b.len() > 0 {
        if a[0] == b[0] {
            lemma_path_lt_asym(a.drop_first(), b.drop_first());
        } else {
            lemma_str_lt_asym(a[0], b[0]);
        }
    }
}

pub proof fn lemma_path_lt_connected(a: Seq<Seq<char>>, b: Seq<Seq<char>>)
    ensures
        !path_lt(a, b) && !path_lt(b, a) ==> a == b,
    decreases a.len(),
{
    if !path_lt(a, b) && !path_lt(b, a) {
        if a.len() == 0 {
            assert(a =~= b);
        } else if b.len() == 0 {
        } else if a[0] == b[0] {
            assert(path_lt(a, b) == path_lt(a.drop_first(), b.drop_first()));
            assert(path_lt(b, a) == path_lt(b.drop_first(), a.drop_first()));
            lemma_path_lt_connected(a.drop_first(), b.drop_first());
            assert(a.drop_first() == b.drop_first());
            assert(a.len() == b.len());
            assert forall|i: int| 0 <= i < a.len() implies a[i] == b[i] by {
                if i > 0 {
                    assert(a[i] == a.drop_first()[i - 1]);
                    assert(b[i] == b.drop_first()[i - 1]);
                }
            }
            assert(a =~= b);
        } else {
            lemma_str_lt_connected(a[0], b[0]);
        }
    }
}

pub proof fn lemma_path_lt_trans(a: Seq<Seq<char>>, b: Seq<Seq<char>>, c: Seq<Seq<char>>)
    ensures
        path_lt(a, b) && path_lt(b, c) ==> path_lt(a, c),
    decreases a.len(),
{
    if path_lt(a, b) && path_lt(b, c) {
        if a.len() == 0 {
        } else if a[0] == b[0] && b[0] == c[0] {
            lemma_path_lt_trans(a.drop_first(), b.drop_first(), c.drop_first());
        } else if a[0] == b[0] {
            // a[0] == b[0] and str_lt(b[0], c[0])
        } else if b[0] == c[0] {
        } else {
            lemma_str_lt_trans(a[0], b[0], c[0]);
            lemma_str_lt_asym(a[0], b[0]);
            lemma_str_lt_connected(a[0], c[0]);
            if a[0] == c[0] {
                lemma_str_lt_asym(b[0], c[0]);
            }
        }
    }
}

pub proof fn lemma_key_lt_asym(p1: Privacy, a1: Seq<Seq<char>>, p2: Privacy, a2: Seq<Seq<char>>)
    ensures
        !(key_lt(p1, a1, p2, a2) && key_lt(p2, a2, p1, a1)),
{
    lemma_path_lt_asym(a1, a2);
}

pub proof fn lemma_key_lt_connected(
    p1: Privacy,
    a1: Seq<Seq<char>>,
    p2: Privacy,
    a2: Seq<Seq<char>>,
)
    ensures
        !key_lt(p1, a1, p2, a2) && !key_lt(p2, a2, p1, a1) ==> p1 == p2 && a1 == a2,
{
    lemma_path_lt_connected(a1, a2);
}

pub proof fn lemma_key_lt_trans(
    p1: Privacy,
    a1: Seq<Seq<char>>,
    p2: Privacy,
    a2: Seq<Seq<char>>,
    p3: Privacy,
    a3: Seq<Seq<char>>,
)
    ensures
        key_lt(p1, a1, p2, a2) && key_lt(p2, a2, p3, a3) ==> key_lt(p1, a1, p3, a3),
{
    lemma_path_lt_trans(a1, a2, a3);
}

/// Executable code-point comparison of two strings.
pub fn str_lt_exec(a: &str, b: &str) -> (r: bool)
    ensures
        r == str_lt(a@, b@),
{
    let alen = a.unicode_len();
    let blen = b.unicode_len();
    let mut i: usize = 0;
    proof {
        assert(a@.skip(0) =~= a@);
        assert(b@.skip(0) =~= b@);
        assert(a@.subrange(0, 0) =~= b@.subrange(0, 0));
    }
    loop
        invariant
            i <= alen,
            i <= blen,
            alen == a@.len(),
            blen == b@.len(),
            a@.subrange(0, i as int) =~= b@.subrange(0, i as int),
            str_lt(a@, b@) == str_lt(a@.skip(i as int), b@.skip(i as int)),
        decreases alen - i,
    {
        if i >= alen {
            return blen > alen;
        }
        if i >= blen {
            return false;
        }
        let ca = a.get_char(i);
        let cb = b.get_char(i);
        if ca == cb {
            proof {
                assert(a@.skip(i as int).drop_first() =~= a@.skip(i + 1));
                assert(b@.skip(i as int).drop_first() =~= b@.skip(i + 1));
                assert(a@.subrange(0, i + 1) =~= b@.subrange(0, i + 1));
            }
            i = i + 1;
        } else {
            return (ca as u32) < (cb as u32);
        }
    }
}

/// Executable segment-wise comparison of two paths.
pub fn path_lt_exec(a: &Vec<String>, b: &Vec<String>) -> (r: bool)
    ensures
        r == path_lt(a.deep_view(), b.deep_view()),
{
    let mut i: usize = 0;
    proof {
        assert(a.deep_view().skip(0) =~= a.deep_view());
        assert(b.deep_view().skip(0) =~= b.deep_view());
        assert(a.deep_view().subrange(0, 0) =~= b.deep_view().subrange(0, 0));
    }
    loop
        invariant
            i <= a.len(),
            i <= b.len(),
            a.deep_view().subrange(0, i as int) =~= b.deep_view().subrange(0, i as int),
            path_lt(a.deep_view(), b.deep_view()) == path_lt(
                a.deep_view().skip(i as int),
                b.deep_view().skip(i as int),
            ),
        decreases a.len() - i,
    {
        if i >= a.len() {
            return b.len() > a.len();
        }
        if i >= b.len() {
            return false;
        }
        let eq = a[i] == b[i];
        if eq {
            proof {
                assert(a.deep_view().skip(i as int).drop_first() =~= a.deep_view().skip(i + 1));
                assert(b.deep_view().skip(i as int).drop_first() =~= b.deep_view().skip(i + 1));
                assert(a.deep_view().subrange(0, i + 1) =~= b.deep_view().subrange(0, i + 1));
            }
            i = i + 1;
        } else {
            return str_lt_exec(a[i].as_str(), b[i].as_str());
        }
    }
}

/// Executable comparison of two group keys.
pub fn key_lt_exec(p1: Privacy, a1: &Vec<String>, p2: Privacy, a2: &Vec<String>) -> (r: bool)
    ensures
        r == key_lt(p1, a1.deep_view(), p2, a2.deep_view()),
{
    let r1 = privacy_rank_exec(p1);
    let r2 = privacy_rank_exec(p2);
    r1 < r2 || (r1 == r2 && path_lt_exec(a1, a2))
}

/// Executable sort rank of a visibility.
pub fn privacy_rank_exec(p: Privacy) -> (r: u8)
    ensures
        r as int == privacy_rank(p),
{
    match p {
        Privacy::Public => 0,
        Privacy::Private => 1,
    }
}

} // verus!
