//! Normalizer for blocks of `use` / `pub use` import declarations.
//!
//! The library parses a block of line-oriented text containing import
//! statements, groups them by (visibility, path prefix), merges and
//! deduplicates their symbol lists, and renders a canonical, sorted block:
//! public groups ahead of private ones, paths in lexicographic segment
//! order, symbols sorted inside `{...}` groups, and the indentation unit of
//! the first non-blank input line ahead of every output line.

use vstd::prelude::*;
use vstd::string::StrSliceExecFns;

mod chars;
mod groups;
mod order;
mod parse;
mod render;
mod textops;

pub use groups::Groups;
pub use order::Privacy;
pub use parse::Stmt;
pub use render::Indent;

use groups::build_groups;
use groups::groups_wf;
use groups::lemma_parse_stmt_wf;
use parse::parse_line;
use parse::parse_line_spec;
use parse::LineSpec;
use render::detect_indent;
use render::detect_indent_exec;
use render::indent_of_lines;
use render::indent_view;
use render::render;
use render::render_groups;
use textops::split_char;
use textops::split_on;

verus! {

/// A line with one trailing carriage return removed, as line reading does.
pub open spec fn strip_cr(s: Seq<char>) -> Seq<char> {
    if s.len() > 0 && s.last() == '\r' {
        s.drop_last()
    } else {
        s
    }
}

/// Every line with its trailing carriage return removed.
pub open spec fn strip_cr_all(ls: Seq<Seq<char>>) -> Seq<Seq<char>> {
    ls.map_values(|l: Seq<char>| strip_cr(l))
}

/// The input text as a sequence of lines.
pub open spec fn lines_of(input: Seq<char>) -> Seq<Seq<char>> {
    strip_cr_all(split_on(input, seq!['\n']))
}

/// Index of the first line outside the accepted grammar, or `-1` if none.
pub open spec fn first_bad(lines: Seq<Seq<char>>) -> int
    decreases lines.len(),
{
    if lines.len() == 0 {
        -1
    } else if parse_line_spec(lines[0]) is Malformed {
        0
    } else {
        let r = first_bad(lines.drop_first());
        if r < 0 {
            -1
        } else {
            1 + r
        }
    }
}

/// What the normalizer produces: the canonical block, or the index and
/// text of the first line outside the accepted grammar.
pub open spec fn normalize_spec(input: Seq<char>) -> Result<Seq<char>, (int, Seq<char>)> {
    let lines = lines_of(input);
    let b = first_bad(lines);
    if b >= 0 {
        Err((b, lines[b]))
    } else {
        Ok(render(build_groups(lines), indent_of_lines(lines)))
    }
}

/// Indentation preservation at the interface: on success, the output is
/// the rendered lines of the built grouping structure, each line beginning
/// with the indent prefix detected from the first non-empty input line.
pub proof fn lemma_output_indentation(input: Seq<char>)
    ensures
        normalize_spec(input) is Ok ==> normalize_spec(input)->Ok_0 == render::cat_lines(
            render::render_lines(build_groups(lines_of(input)), indent_of_lines(lines_of(input))),
        ),
        forall|k: int|
            0 <= k < render::render_lines(
                build_groups(lines_of(input)),
                indent_of_lines(lines_of(input)),
            ).len() ==> (#[trigger] render::render_lines(
                build_groups(lines_of(input)),
                indent_of_lines(lines_of(input)),
            )[k]).subrange(0, indent_of_lines(lines_of(input)).len() as int) == indent_of_lines(
                lines_of(input),
            ),
{
    render::lemma_indentation(build_groups(lines_of(input)), indent_of_lines(lines_of(input)));
}

/// The first line that fails to parse, with its zero-based line index.
pub struct MalformedLine {
    pub line: String,
    pub index: usize,
}

/// `first_bad` finds the first malformed line, and `-1` means there is
/// none.
proof fn lemma_first_bad(lines: Seq<Seq<char>>)
    ensures
        first_bad(lines) == -1 ==> forall|k: int|
            0 <= k < lines.len() ==> !(parse_line_spec(#[trigger] lines[k]) is Malformed),
        first_bad(lines) >= 0 ==> first_bad(lines) < lines.len() && parse_line_spec(
            lines[first_bad(lines)],
        ) is Malformed,
        first_bad(lines) >= 0 ==> forall|k: int|
            0 <= k < first_bad(lines) ==> !(parse_line_spec(#[trigger] lines[k]) is Malformed),
    decreases lines.len(),
{
    if lines.len() > 0 && !(parse_line_spec(lines[0]) is Malformed) {
        lemma_first_bad(lines.drop_first());
        assert forall|k: int| 1 <= k < lines.len() implies lines.drop_first()[k - 1] == lines[k] by {}
    }
}

/// The indent prefix is settled by the first non-empty line: a prefix made
/// of empty lines leaves it to the rest.
proof fn lemma_indent_of_prefix(lines: Seq<Seq<char>>, i: int)
    requires
        0 <= i <= lines.len(),
    ensures
        (forall|k: int| 0 <= k < i ==> (#[trigger] lines[k]).len() == 0) ==> indent_of_lines(lines)
            == indent_of_lines(lines.skip(i)),
    decreases i,
{
    if i > 0 {
        if forall|k: int| 0 <= k < i ==> (#[trigger] lines[k]).len() == 0 {
            assert(lines[0].len() == 0);
            lemma_indent_of_prefix(lines.drop_first(), i - 1);
            assert forall|k: int| 0 <= k < i - 1 implies (#[trigger] lines.drop_first()[k]).len()
                == 0 by {
                assert(lines.drop_first()[k] == lines[k + 1]);
            }
            assert(lines.drop_first().skip(i - 1) =~= lines.skip(i));
        }
    } else {
        assert(lines.skip(0) =~= lines);
    }
}

/// Strips one trailing carriage return.
fn strip_cr_exec<'a>(s: &'a str) -> (r: &'a str)
    ensures
        r@ == strip_cr(s@),
{
    let n = s.unicode_len();
    if n > 0 && s.get_char(n - 1) == '\r' {
        let sub = s.substring_char(0, n - 1);
        proof {
            assert(s@.drop_last() =~= s@.subrange(0, n - 1));
        }
        sub
    } else {
        s
    }
}

/// Strips one trailing carriage return from every line.
fn strip_cr_all_exec(v: Vec<String>) -> (r: Vec<String>)
    ensures
        r.deep_view() == strip_cr_all(v.deep_view()),
        r.len() == v.len(),
{
    let n = v.len();
    let mut r: Vec<String> = Vec::new();
    let mut i: usize = 0;
    while i < n
        invariant
            i <= n,
            n == v.len(),
            r.len() == i,
            r.deep_view() =~= strip_cr_all(v.deep_view().subrange(0, i as int)),
        decreases n - i,
    {
        let t = strip_cr_exec(v[i].as_str()).to_owned();
        let ghost r_old = r.deep_view();
        r.push(t);
        proof {
            assert forall|j: int| 0 <= j < i + 1 implies r.deep_view()[j] == strip_cr_all(
                v.deep_view().subrange(0, i + 1),
            )[j] by {
                assert(strip_cr_all(v.deep_view().subrange(0, i + 1))[j] == strip_cr(
                    v.deep_view()[j],
                ));
                if j < i {
                    assert(r.deep_view()[j] == r_old[j]);
                    assert(r_old[j] == strip_cr_all(v.deep_view().subrange(0, i as int))[j]);
                    assert(strip_cr_all(v.deep_view().subrange(0, i as int))[j] == strip_cr(
                        v.deep_view()[j],
                    ));
                } else {
                    assert(r.deep_view()[j] == t@);
                }
            }
            assert(r.deep_view() =~= strip_cr_all(v.deep_view().subrange(0, i + 1)));
        }
        i = i + 1;
    }
    proof {
        assert(v.deep_view().subrange(0, n as int) =~= v.deep_view());
    }
    r
}

/// Normalizes a block of import declarations: groups statements by
/// (visibility, path), merges and deduplicates their symbols, sorts
/// everything, and renders the canonical block under the detected indent.
/// The first line outside the accepted grammar is returned as the error.
pub fn format_uses(input: &str) -> (r: Result<String, MalformedLine>)
    ensures
        match r {
            Ok(out) => normalize_spec(input@) == Ok::<Seq<char>, (int, Seq<char>)>(out@),
            Err(e) => normalize_spec(input@) == Err::<Seq<char>, (int, Seq<char>)>(
                (e.index as int, e.line@),
            ),
        },
{
    let lines = strip_cr_all_exec(split_char(input, '\n'));
    let ghost lv = lines_of(input@);
    proof {
        assert(lines.deep_view() == lv);
    }
    let n = lines.len();
    let mut gs = Groups::new();
    let mut indent: Option<Indent> = None;
    let mut i: usize = 0;
    proof {
        assert(lv.subrange(0, 0) =~= Seq::<Seq<char>>::empty());
    }
    while i < n
        invariant
            i <= n,
            n == lines.len(),
            lines.deep_view() == lv,
            lv == lines_of(input@),
            groups_wf(gs@),
            gs@ == build_groups(lv.subrange(0, i as int)),
            forall|k: int| 0 <= k < i ==> !(parse_line_spec(#[trigger] lv[k]) is Malformed),
            match indent {
                Some(ind) => indent_view(ind) == indent_of_lines(lv),
                None => forall|k: int| 0 <= k < i ==> (#[trigger] lv[k]).len() == 0,
            },
        decreases n - i,
    {
        let nonempty = lines[i].as_str().unicode_len() > 0;
        proof {
            assert(lines.deep_view()[i as int] == lines@[i as int]@);
        }
        if nonempty && indent.is_none() {
            let ind = detect_indent_exec(lines[i].as_str());
            proof {
                lemma_indent_of_prefix(lv, i as int);
                assert(lv.skip(i as int)[0] == lv[i as int]);
                assert(indent_of_lines(lv.skip(i as int)) == indent_view(detect_indent(
                    lv[i as int],
                )));
            }
            indent = Some(ind);
        }
        let parsed = parse_line(lines[i].as_str());
        proof {
            assert(lv.subrange(0, i + 1).drop_last() =~= lv.subrange(0, i as int));
            assert(lv.subrange(0, i + 1).last() == lv[i as int]);
        }
        match parsed {
            Err(_) => {
                proof {
                    lemma_first_bad(lv);
                    let b = first_bad(lv);
                    if b < 0 {
                        assert(!(parse_line_spec(lv[i as int]) is Malformed));
                    }
                    if 0 <= b < i {
                        assert(!(parse_line_spec(lv[b]) is Malformed));
                    }
                    if b > i {
                        assert(!(parse_line_spec(lv[i as int]) is Malformed));
                    }
                    assert(b == i);
                }
                let bad = lines[i].clone();
                proof {
                    assert(bad@ == lv[i as int]);
                    assert(normalize_spec(input@) == Err::<Seq<char>, (int, Seq<char>)>(
                        (i as int, lv[i as int]),
                    ));
                }
                return Err(MalformedLine { line: bad, index: i });
            },
            Ok(None) => {
                proof {
                    assert(build_groups(lv.subrange(0, i + 1)) == gs@);
                }
            },
            Ok(Some(st)) => {
                proof {
                    lemma_parse_stmt_wf(lv[i as int]);
                }
                gs.insert(st);
                proof {
                    assert(build_groups(lv.subrange(0, i + 1)) == gs@);
                }
            },
        }
        i = i + 1;
    }
    let ind_str = match indent {
        Some(ind) => ind.to_string(),
        None => String::new(),
    };
    proof {
        assert(lv.subrange(0, n as int) =~= lv);
        if indent is None {
            lemma_indent_of_prefix(lv, n as int);
            assert(lv.skip(n as int).len() == 0);
            assert(indent_of_lines(lv.skip(n as int)) == Seq::<char>::empty());
        }
        assert(ind_str@ == indent_of_lines(lv));
        lemma_first_bad(lv);
        let b = first_bad(lv);
        if b >= 0 {
            assert(!(parse_line_spec(lv[b]) is Malformed));
        }
    }
    let out = render_groups(&gs, ind_str.as_str());
    Ok(out)
}

} // verus!
