//! Serialization of the grouping structure back to text: one detected
//! indentation unit ahead of every line, a bare `path;` line for the
//! sentinel, and a single symbol or a sorted brace group after it.

use vstd::prelude::*;
use vstd::string::StrSliceExecFns;
use vstd::string::StringExecFns;

use crate::groups::entry_wf;
use crate::groups::groups_wf;
use crate::groups::Entry;
use crate::groups::GEntry;
use crate::groups::Groups;
use crate::order::Privacy;
use crate::parse::kw_pub_use;
use crate::parse::kw_use;
use crate::textops::leading_count;
use crate::textops::leading_count_exec;

verus! {

/// The indentation unit detected from the first non-blank input line.
#[derive(Copy, Clone)]
pub enum Indent {
    Space(usize),
    Tab(usize),
}

/// The prefix string an indentation unit renders to.
pub open spec fn indent_view(ind: Indent) -> Seq<char> {
    match ind {
        Indent::Space(l) => Seq::new(l as nat, |i: int| ' '),
        Indent::Tab(l) => Seq::new(l as nat, |i: int| '\t'),
    }
}

/// The indentation unit a non-empty line begins with: its run of leading
/// spaces or tabs, or a zero-width space indent.
pub open spec fn detect_indent(line: Seq<char>) -> Indent {
    if line.len() > 0 && line[0] == ' ' {
        Indent::Space(leading_count(line, ' ') as usize)
    } else if line.len() > 0 && line[0] == '\t' {
        Indent::Tab(leading_count(line, '\t') as usize)
    } else {
        Indent::Space(0)
    }
}

/// The indent prefix of the output: detected from the first non-empty
/// line, empty when every line is empty.
pub open spec fn indent_of_lines(lines: Seq<Seq<char>>) -> Seq<char>
    decreases lines.len(),
{
    if lines.len() == 0 {
        Seq::empty()
    } else if lines[0].len() > 0 {
        indent_view(detect_indent(lines[0]))
    } else {
        indent_of_lines(lines.drop_first())
    }
}

/// The parts joined with `sep` between neighbours.
pub open spec fn join(parts: Seq<Seq<char>>, sep: Seq<char>) -> Seq<char>
    decreases parts.len(),
{
    if parts.len() == 0 {
        Seq::empty()
    } else if parts.len() == 1 {
        parts[0]
    } else {
        join(parts.drop_last(), sep) + sep + parts.last()
    }
}

/// The keyword a visibility renders to, trailing space included.
pub open spec fn kw_of(p: Privacy) -> Seq<char> {
    match p {
        Privacy::Public => kw_pub_use(),
        Privacy::Private => kw_use(),
    }
}

/// The non-sentinel symbols of an entry: the sentinel, sorting first, is
/// the empty string.
pub open spec fn rest_syms(e: GEntry) -> Seq<Seq<char>> {
    if e.syms.len() > 0 && e.syms[0].len() == 0 {
        e.syms.drop_first()
    } else {
        e.syms
    }
}

/// Whether the entry carries the bare-path sentinel.
pub open spec fn has_sentinel(e: GEntry) -> bool {
    e.syms.len() > 0 && e.syms[0].len() == 0
}

/// The bare `path;` line of an entry, which keeps its visibility keyword.
pub open spec fn sentinel_line(e: GEntry, ind: Seq<char>) -> Seq<char> {
    ind + kw_of(e.privacy) + join(e.path, seq![':', ':']) + seq![';']
}

/// The symbol line of an entry: one symbol bare, several in a sorted,
/// comma-space-joined brace group; always under the `use ` keyword.
pub open spec fn symbol_line(e: GEntry, ind: Seq<char>) -> Seq<char> {
    let path_s = join(e.path, seq![':', ':']);
    let rest = rest_syms(e);
    if rest.len() == 1 {
        ind + kw_use() + path_s + seq![':', ':'] + rest[0] + seq![';']
    } else {
        ind + kw_use() + path_s + seq![':', ':', '{'] + join(rest, seq![',', ' ']) + seq!['}', ';']
    }
}

/// The output lines of one entry: the sentinel's bare line first, then the
/// symbol line if any symbols remain.
pub open spec fn entry_lines(e: GEntry, ind: Seq<char>) -> Seq<Seq<char>> {
    if has_sentinel(e) && rest_syms(e).len() > 0 {
        seq![sentinel_line(e, ind), symbol_line(e, ind)]
    } else if has_sentinel(e) {
        seq![sentinel_line(e, ind)]
    } else {
        seq![symbol_line(e, ind)]
    }
}

/// The output lines of the whole grouping structure, in entry order.
pub open spec fn render_lines(gs: Seq<GEntry>, ind: Seq<char>) -> Seq<Seq<char>>
    decreases gs.len(),
{
    if gs.len() == 0 {
        Seq::empty()
    } else {
        render_lines(gs.drop_last(), ind) + entry_lines(gs.last(), ind)
    }
}

/// Lines flattened into the output text, each terminated by a newline.
pub open spec fn cat_lines(lines: Seq<Seq<char>>) -> Seq<char>
    decreases lines.len(),
{
    if lines.len() == 0 {
        Seq::empty()
    } else {
        cat_lines(lines.drop_last()) + lines.last() + seq!['\n']
    }
}

/// The rendered output of the grouping structure.
pub open spec fn render(gs: Seq<GEntry>, ind: Seq<char>) -> Seq<char> {
    cat_lines(render_lines(gs, ind))
}

/// Flattening distributes over concatenation of line blocks.
pub proof fn lemma_cat_lines_app(a: Seq<Seq<char>>, b: Seq<Seq<char>>)
    ensures
        cat_lines(a + b) == cat_lines(a) + cat_lines(b),
    decreases b.len(),
{
    if b.len() == 0 {
        assert(a + b =~= a);
        assert(cat_lines(a) + cat_lines(b) =~= cat_lines(a));
    } else {
        lemma_cat_lines_app(a, b.drop_last());
        assert((a + b).drop_last() =~= a + b.drop_last());
        assert((a + b).last() == b.last());
        assert(cat_lines(a) + cat_lines(b.drop_last()) + b.last() + seq!['\n'] =~= cat_lines(a) + (
        cat_lines(b.drop_last()) + b.last() + seq!['\n']));
    }
}

/// What one entry contributes to the output text.
pub proof fn lemma_cat_entry_lines(e: GEntry, ind: Seq<char>)
    ensures
        has_sentinel(e) && rest_syms(e).len() > 0 ==> cat_lines(entry_lines(e, ind))
            == sentinel_line(e, ind) + seq!['\n'] + symbol_line(e, ind) + seq!['\n'],
        has_sentinel(e) && rest_syms(e).len() == 0 ==> cat_lines(entry_lines(e, ind))
            == sentinel_line(e, ind) + seq!['\n'],
        !has_sentinel(e) ==> cat_lines(entry_lines(e, ind)) == symbol_line(e, ind) + seq!['\n'],
{
    let el = entry_lines(e, ind);
    assert(cat_lines(Seq::<Seq<char>>::empty()) == Seq::<char>::empty());
    if has_sentinel(e) && rest_syms(e).len() > 0 {
        assert(el.drop_last() =~= seq![sentinel_line(e, ind)]);
        assert(seq![sentinel_line(e, ind)].drop_last() =~= Seq::<Seq<char>>::empty());
        assert(cat_lines(seq![sentinel_line(e, ind)]) =~= sentinel_line(e, ind) + seq!['\n']);
        assert(cat_lines(el) =~= sentinel_line(e, ind) + seq!['\n'] + symbol_line(e, ind)
            + seq!['\n']);
    } else {
        assert(el.drop_last() =~= Seq::<Seq<char>>::empty());
        assert(cat_lines(el) =~= el[0] + seq!['\n']);
    }
}

/// Extending the rendered prefix by one entry appends that entry's lines.
pub proof fn lemma_render_step(gs: Seq<GEntry>, ind: Seq<char>, idx: int)
    requires
        0 <= idx < gs.len(),
    ensures
        cat_lines(render_lines(gs.subrange(0, idx + 1), ind)) == cat_lines(
            render_lines(gs.subrange(0, idx), ind),
        ) + cat_lines(entry_lines(gs[idx], ind)),
{
    let sub1 = gs.subrange(0, idx + 1);
    assert(sub1.drop_last() =~= gs.subrange(0, idx));
    assert(sub1.last() == gs[idx]);
    lemma_cat_lines_app(render_lines(gs.subrange(0, idx), ind), entry_lines(gs[idx], ind));
}

/// Symbol formatting: an entry with exactly one non-sentinel symbol renders
/// it bare (`use path::Sym;`, never brace-wrapped), two or more render as a
/// sorted, comma-space-joined brace group (`use path::{A, B};`); either way
/// the symbol line carries the `use ` keyword.  When the sentinel is
/// present, the bare `path;` line always comes first.
pub proof fn lemma_symbol_formatting(e: GEntry, ind: Seq<char>)
    ensures
        rest_syms(e).len() == 1 ==> symbol_line(e, ind) == ind + kw_use() + join(
            e.path,
            seq![':', ':'],
        ) + seq![':', ':'] + rest_syms(e)[0] + seq![';'],
        rest_syms(e).len() != 1 ==> symbol_line(e, ind) == ind + kw_use() + join(
            e.path,
            seq![':', ':'],
        ) + seq![':', ':', '{'] + join(rest_syms(e), seq![',', ' ']) + seq!['}', ';'],
        has_sentinel(e) ==> entry_lines(e, ind)[0] == sentinel_line(e, ind),
{
}

/// Indentation preservation: every rendered line begins with the one
/// detected indent prefix.
pub proof fn lemma_indentation(gs: Seq<GEntry>, ind: Seq<char>)
    ensures
        forall|k: int|
            0 <= k < render_lines(gs, ind).len() ==> (#[trigger] render_lines(gs, ind)[k]).subrange(
                0,
                ind.len() as int,
            ) == ind,
    decreases gs.len(),
{
    if gs.len() > 0 {
        lemma_indentation(gs.drop_last(), ind);
        let prev = render_lines(gs.drop_last(), ind);
        let el = entry_lines(gs.last(), ind);
        assert((ind + kw_of(gs.last().privacy) + join(gs.last().path, seq![':', ':'])
            + seq![';']).subrange(0, ind.len() as int) =~= ind);
        let path_s = join(gs.last().path, seq![':', ':']);
        let rest = rest_syms(gs.last());
        if rest.len() == 1 {
            assert((ind + kw_use() + path_s + seq![':', ':'] + rest[0] + seq![';']).subrange(
                0,
                ind.len() as int,
            ) =~= ind);
        } else {
            assert((ind + kw_use() + path_s + seq![':', ':', '{'] + join(rest, seq![',', ' '])
                + seq!['}', ';']).subrange(0, ind.len() as int) =~= ind);
        }
        assert forall|k: int| 0 <= k < render_lines(gs, ind).len() implies (
        #[trigger] render_lines(gs, ind)[k]).subrange(0, ind.len() as int) == ind by {
            if k < prev.len() {
                assert(render_lines(gs, ind)[k] == prev[k]);
            } else {
                assert(render_lines(gs, ind)[k] == el[k - prev.len()]);
            }
        }
    }
}

impl Indent {
    /// The indent prefix rendered ahead of every output line.
    pub fn to_string(&self) -> (r: String)
        ensures
            r@ == indent_view(*self),
    {
        let (c, l): (&str, usize) = match self {
            Indent::Space(l) => (" ", *l),
            Indent::Tab(l) => ("\t", *l),
        };
        proof {
            reveal_strlit(" ");
            reveal_strlit("\t");
        }
        let mut r = String::new();
        let mut i: usize = 0;
        let ghost unit: char = if self is Space {
            ' '
        } else {
            '\t'
        };
        while i < l
            invariant
                i <= l,
                c@ =~= seq![unit],
                r@ =~= Seq::new(i as nat, |k: int| unit),
            decreases l - i,
        {
            r.append(c);
            proof {
                assert(r@ =~= Seq::new((i + 1) as nat, |k: int| unit));
            }
            i = i + 1;
        }
        proof {
            assert(r@ =~= indent_view(*self));
        }
        r
    }
}

/// The indentation unit of a non-empty line.
pub fn detect_indent_exec(line: &str) -> (r: Indent)
    requires
        line@.len() > 0,
    ensures
        r == detect_indent(line@),
{
    let c = line.get_char(0);
    if c == ' ' {
        Indent::Space(leading_count_exec(line, ' '))
    } else if c == '\t' {
        Indent::Tab(leading_count_exec(line, '\t'))
    } else {
        Indent::Space(0)
    }
}

/// Joins `parts[from..]` with `sep` between neighbours.
pub fn join_from(parts: &Vec<String>, from: usize, sep: &str) -> (r: String)
    requires
        from < parts@.len(),
    ensures
        r@ == join(parts.deep_view().skip(from as int), sep@),
{
    let n = parts.len();
    let mut r = parts[from].clone();
    let mut i = from + 1;
    proof {
        assert(parts.deep_view().subrange(from as int, from + 1) =~= seq![parts.deep_view()[from as int]]);
    }
    while i < n
        invariant
            from < i <= n,
            n == parts@.len(),
            r@ == join(parts.deep_view().subrange(from as int, i as int), sep@),
        decreases n - i,
    {
        r.append(sep);
        r.append(parts[i].as_str());
        proof {
            let sub1 = parts.deep_view().subrange(from as int, i + 1);
            assert(sub1.drop_last() =~= parts.deep_view().subrange(from as int, i as int));
            assert(sub1.last() == parts.deep_view()[i as int]);
        }
        i = i + 1;
    }
    proof {
        assert(parts.deep_view().subrange(from as int, n as int) =~= parts.deep_view().skip(
            from as int,
        ));
    }
    r
}

/// Renders the grouping structure: entries in sorted order, sentinel line
/// ahead of the symbol line, every line behind the indent prefix.
#[verifier::rlimit(100)]
pub fn render_groups(g: &Groups, ind: &str) -> (r: String)
    requires
        groups_wf(g@),
    ensures
        r@ == render(g@, ind@),
{
    proof {
        reveal_strlit("use ");
        reveal_strlit("pub use ");
        reveal_strlit("::");
        reveal_strlit("::{");
        reveal_strlit("};");
        reveal_strlit(";");
        reveal_strlit("\n");
        reveal_strlit(", ");
        assert("use "@ =~= kw_use());
        assert("pub use "@ =~= kw_pub_use());
        assert("::"@ =~= seq![':', ':']);
        assert("::{"@ =~= seq![':', ':', '{']);
        assert("};"@ =~= seq!['}', ';']);
        assert(";"@ =~= seq![';']);
        assert("\n"@ =~= seq!['\n']);
        assert(", "@ =~= seq![',', ' ']);
    }
    let n = g.entries.len();
    let mut out = String::new();
    let mut idx: usize = 0;
    proof {
        assert(g@.subrange(0, 0) =~= Seq::<GEntry>::empty());
        assert(out@ =~= cat_lines(render_lines(g@.subrange(0, 0), ind@)));
    }
    while idx < n
        invariant
            idx <= n,
            n == g.entries@.len(),
            groups_wf(g@),
            g@.len() == n,
            out@ == cat_lines(render_lines(g@.subrange(0, idx as int), ind@)),
        decreases n - idx,
    {
        let ghost e = g@[idx as int];
        let ghost prev = out@;
        proof {
            reveal_strlit("use ");
            reveal_strlit("pub use ");
            reveal_strlit("::");
            reveal_strlit("::{");
            reveal_strlit("};");
            reveal_strlit(";");
            reveal_strlit("\n");
            reveal_strlit(", ");
            assert("use "@ =~= kw_use());
            assert("pub use "@ =~= kw_pub_use());
            assert("::"@ =~= seq![':', ':']);
            assert("::{"@ =~= seq![':', ':', '{']);
            assert("};"@ =~= seq!['}', ';']);
            assert(";"@ =~= seq![';']);
            assert("\n"@ =~= seq!['\n']);
            assert(", "@ =~= seq![',', ' ']);
            assert(entry_wf(e));
        }
        let entry = &g.entries[idx];
        let path_s = join_from(&entry.path, 0, "::");
        proof {
            assert(entry.path.deep_view().skip(0) =~= e.path);
            assert(path_s@ == join(e.path, seq![':', ':']));
        }
        let sent = entry.syms[0].as_str().unicode_len() == 0;
        proof {
            assert(entry.syms.deep_view()[0] == e.syms[0]);
            assert(sent == has_sentinel(e));
        }
        if sent {
            out.append(ind);
            match entry.privacy {
                Privacy::Public => out.append("pub use "),
                Privacy::Private => out.append("use "),
            }
            out.append(path_s.as_str());
            out.append(";");
            out.append("\n");
            proof {
                assert(out@ =~= prev + (sentinel_line(e, ind@) + seq!['\n']));
            }
        }
        let base: usize = if sent {
            1
        } else {
            0
        };
        let m = entry.syms.len();
        let ghost mid = out@;
        proof {
            assert(entry.syms.deep_view().len() == e.syms.len());
            if sent {
                assert(entry.syms.deep_view().skip(1) =~= rest_syms(e));
            } else {
                assert(entry.syms.deep_view().skip(0) =~= rest_syms(e));
            }
        }
        if base < m {
            out.append(ind);
            out.append("use ");
            out.append(path_s.as_str());
            if m - base == 1 {
                out.append("::");
                out.append(entry.syms[base].as_str());
                out.append(";");
                proof {
                    assert(entry.syms.deep_view()[base as int] == rest_syms(e)[0]);
                    assert(rest_syms(e).len() == 1);
                }
            } else {
                out.append("::{");
                let joined = join_from(&entry.syms, base, ", ");
                out.append(joined.as_str());
                out.append("};");
                proof {
                    assert(rest_syms(e).len() > 1);
                }
            }
            out.append("\n");
            proof {
                assert(out@ =~= mid + (symbol_line(e, ind@) + seq!['\n']));
            }
        }
        proof {
            lemma_render_step(g@, ind@, idx as int);
            lemma_cat_entry_lines(e, ind@);
            if has_sentinel(e) && rest_syms(e).len() > 0 {
                assert(out@ =~= prev + cat_lines(entry_lines(e, ind@)));
            } else if has_sentinel(e) {
                assert(out@ =~= prev + cat_lines(entry_lines(e, ind@)));
            } else {
                assert(out@ =~= prev + cat_lines(entry_lines(e, ind@)));
            }
        }
        idx = idx + 1;
    }
    proof {
        assert(g@.subrange(0, n as int) =~= g@);
    }
    out
}

} // verus!
