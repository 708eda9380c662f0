//! Parsing of one input line into a (visibility, path, symbols) statement.
//!
//! A line is stripped of trailing spaces, tabs and semicolons, then of
//! leading whitespace; it must then start with `use ` or `pub use `.  The
//! remainder splits on `::` into space-trimmed segments.  A final segment
//! starting with `{` or an uppercase letter is the symbol list (braces
//! stripped, split on commas); otherwise the whole path is imported and the
//! empty-string sentinel stands for its symbol.

use vstd::prelude::*;
use vstd::string::StrSliceExecFns;

use crate::chars::is_uppercase;
use crate::chars::is_uppercase_char;
use crate::order::Privacy;
use crate::textops::has_prefix;
use crate::textops::has_prefix_exec;
use crate::textops::split_char;
use crate::textops::split_on;
use crate::textops::split_sep2;
use crate::textops::trim_end_stmt;
use crate::textops::trim_end_stmt_exec;
use crate::textops::trim_sp;
use crate::textops::trim_sp_exec;
use crate::textops::trim_start_ws;
use crate::textops::trim_start_ws_exec;

verus! {

/// The `use ` keyword that opens a private import.
pub open spec fn kw_use() -> Seq<char> {
    seq!['u', 's', 'e', ' ']
}

/// The `pub use ` keyword that opens a public import.
pub open spec fn kw_pub_use() -> Seq<char> {
    seq!['p', 'u', 'b', ' ', 'u', 's', 'e', ' ']
}

/// What one input line means.
pub ghost enum LineSpec {
    /// Nothing left after stripping: the line is skipped.
    Blank,
    /// The line is not an import declaration the grammar accepts.
    Malformed,
    /// An import of `syms` (possibly the empty-string sentinel) from `path`.
    Stmt { privacy: Privacy, path: Seq<Seq<char>>, syms: Seq<Seq<char>> },
}

/// Every segment space-trimmed.
pub open spec fn trim_sp_all(ss: Seq<Seq<char>>) -> Seq<Seq<char>> {
    ss.map_values(|s: Seq<char>| trim_sp(s))
}

/// One leading `{` and one trailing `}` removed, where present.
pub open spec fn strip_braces(s: Seq<char>) -> Seq<char> {
    let s1 = if s.len() > 0 && s[0] == '{' {
        s.drop_first()
    } else {
        s
    };
    if s1.len() > 0 && s1.last() == '}' {
        s1.drop_last()
    } else {
        s1
    }
}

/// Classification of the statement after its keyword: splits the path,
/// decides between a symbol-list leaf and a bare module import.
pub open spec fn classify(p: Privacy, rest: Seq<char>) -> LineSpec {
    let segs = trim_sp_all(split_on(rest, seq![':', ':']));
    let last = segs.last();
    if last.len() == 0 {
        LineSpec::Malformed
    } else if last[0] == '{' || is_uppercase_char(last[0]) {
        if segs.len() <= 1 {
            LineSpec::Malformed
        } else {
            let syms = trim_sp_all(split_on(strip_braces(last), seq![',']));
            LineSpec::Stmt { privacy: p, path: segs.drop_last(), syms }
        }
    } else {
        LineSpec::Stmt { privacy: p, path: segs, syms: seq![Seq::<char>::empty()] }
    }
}

/// What one raw input line parses to.
pub open spec fn parse_line_spec(line: Seq<char>) -> LineSpec {
    let t = trim_end_stmt(line);
    if t.len() == 0 {
        LineSpec::Blank
    } else {
        let body = trim_start_ws(t);
        if has_prefix(body, kw_use()) {
            classify(Privacy::Private, body.skip(4))
        } else if has_prefix(body, kw_pub_use()) {
            classify(Privacy::Public, body.skip(8))
        } else {
            LineSpec::Malformed
        }
    }
}

/// A parsed import statement.
pub struct Stmt {
    pub privacy: Privacy,
    pub path: Vec<String>,
    pub syms: Vec<String>,
}

/// Executable single-brace strip.
pub fn strip_braces_exec<'a>(s: &'a str) -> (r: &'a str)
    ensures
        r@ == strip_braces(s@),
{
    let n = s.unicode_len();
    let mut b: usize = 0;
    let mut e: usize = n;
    if n > 0 && s.get_char(0) == '{' {
        b = 1;
    }
    proof {
        if b == 1 {
            assert(s@.drop_first() =~= s@.subrange(1, n as int));
        }
    }
    if e > b && s.get_char(e - 1) == '}' {
        e = e - 1;
    }
    let r = s.substring_char(b, e);
    proof {
        let s1 = if s@.len() > 0 && s@[0] == '{' {
            s@.drop_first()
        } else {
            s@
        };
        assert(s1 =~= s@.subrange(b as int, n as int));
        if s1.len() > 0 && s1.last() == '}' {
            assert(s1.drop_last() =~= s@.subrange(b as int, e as int));
        } else {
            assert(s1 =~= s@.subrange(b as int, e as int));
        }
    }
    r
}

/// Space-trims every element of a segment list.
pub fn trim_all(v: Vec<String>) -> (r: Vec<String>)
    ensures
        r.deep_view() == trim_sp_all(v.deep_view()),
        r.len() == v.len(),
{
    let n = v.len();
    let mut r: Vec<String> = Vec::new();
    let mut i: usize = 0;
    while i < n
        invariant
            i <= n,
            n == v.len(),
            r.len() == i,
            r.deep_view() =~= trim_sp_all(v.deep_view().subrange(0, i as int)),
        decreases n - i,
    {
        let t = trim_sp_exec(v[i].as_str()).to_owned();
        let ghost r_old = r.deep_view();
        r.push(t);
        proof {
            assert forall|j: int| 0 <= j < i + 1 implies r.deep_view()[j] == trim_sp_all(
                v.deep_view().subrange(0, i + 1),
            )[j] by {
                assert(trim_sp_all(v.deep_view().subrange(0, i + 1))[j] == trim_sp(
                    v.deep_view()[j],
                ));
                if j < i {
                    assert(r.deep_view()[j] == r_old[j]);
                    assert(r_old[j] == trim_sp_all(v.deep_view().subrange(0, i as int))[j]);
                    assert(trim_sp_all(v.deep_view().subrange(0, i as int))[j] == trim_sp(
                        v.deep_view()[j],
                    ));
                } else {
                    assert(r.deep_view()[j] == t@);
                }
            }
            assert(r.deep_view() =~= trim_sp_all(v.deep_view().subrange(0, i + 1)));
        }
        i = i + 1;
    }
    proof {
        assert(v.deep_view().subrange(0, n as int) =~= v.deep_view());
    }
    r
}

/// Executable line parser; `Ok(None)` is a skipped blank line and `Err`
/// reports a line outside the accepted grammar.
pub fn parse_line(line: &str) -> (r: Result<Option<Stmt>, ()>)
    ensures
        match r {
            Ok(opt) => match opt {
                None => parse_line_spec(line@) is Blank,
                Some(st) => parse_line_spec(line@) == (LineSpec::Stmt {
                    privacy: st.privacy,
                    path: st.path.deep_view(),
                    syms: st.syms.deep_view(),
                }),
            },
            Err(_) => parse_line_spec(line@) is Malformed,
        },
{
    let t = trim_end_stmt_exec(line);
    if t.unicode_len() == 0 {
        return Ok(None);
    }
    let body = trim_start_ws_exec(t);
    let bn = body.unicode_len();
    let privacy: Privacy;
    let idx: usize;
    proof {
        reveal_strlit("use ");
        reveal_strlit("pub use ");
        assert("use "@ =~= kw_use());
        assert("pub use "@ =~= kw_pub_use());
    }
    if has_prefix_exec(body, "use ") {
        privacy = Privacy::Private;
        idx = 4;
    } else if has_prefix_exec(body, "pub use ") {
        privacy = Privacy::Public;
        idx = 8;
    } else {
        return Err(());
    }
    let rest = body.substring_char(idx, bn);
    proof {
        assert(rest@ =~= body@.skip(idx as int));
    }
    let segs = trim_all(split_sep2(rest));
    let ghost segs_view = trim_sp_all(split_on(rest@, seq![':', ':']));
    proof {
        assert(segs.deep_view() == segs_view);
        assert(segs.len() > 0);
        assert(segs.deep_view()[segs.len() - 1] == segs_view.last());
    }
    let last_len = segs[segs.len() - 1].as_str().unicode_len();
    if last_len == 0 {
        return Err(());
    }
    let c0 = segs[segs.len() - 1].as_str().get_char(0);
    if c0 == '{' || is_uppercase(c0) {
        if segs.len() <= 1 {
            return Err(());
        }
        let mut path = segs;
        let leaf = match path.pop() {
            Some(l) => l,
            None => {
                return Err(());
            },
        };
        proof {
            assert(path.deep_view() =~= segs_view.drop_last());
            assert(leaf@ == segs_view.last());
        }
        let stripped = strip_braces_exec(leaf.as_str());
        let syms = trim_all(split_char(stripped, ','));
        proof {
            assert(syms.deep_view() == trim_sp_all(split_on(strip_braces(segs_view.last()), seq![','])));
        }
        Ok(Some(Stmt { privacy, path, syms }))
    } else {
        let mut syms: Vec<String> = Vec::new();
        syms.push(String::new());
        proof {
            assert(syms.deep_view() =~= seq![Seq::<char>::empty()]);
        }
        Ok(Some(Stmt { privacy, path: segs, syms }))
    }
}

} // verus!
