//! The grouping structure: a sequence of (visibility, path, symbols)
//! entries kept strictly sorted by key, each entry's symbol list kept
//! strictly sorted and deduplicated.  Statements merge into it one by one.

use vstd::prelude::*;

use crate::order::key_lt;
use crate::order::key_lt_exec;
use crate::order::lemma_key_lt_asym;
use crate::order::lemma_key_lt_connected;
use crate::order::lemma_key_lt_trans;
use crate::order::lemma_str_lt_asym;
use crate::order::lemma_str_lt_connected;
use crate::order::lemma_str_lt_trans;
use crate::order::str_lt;
use crate::order::str_lt_exec;
use crate::order::Privacy;
use crate::parse::parse_line_spec;
use crate::parse::LineSpec;
use crate::parse::Stmt;

verus! {

/// The mathematical model of one group: a visibility, a path, and the
/// merged symbols imported from that path.
pub ghost struct GEntry {
    pub privacy: Privacy,
    pub path: Seq<Seq<char>>,
    pub syms: Seq<Seq<char>>,
}

/// Symbols strictly ascending: sorted and free of duplicates.
pub open spec fn syms_sorted(syms: Seq<Seq<char>>) -> bool {
    forall|i: int, j: int| 0 <= i < j < syms.len() ==> str_lt(syms[i], syms[j])
}

/// A well-formed entry: a non-empty path and a non-empty, strictly
/// ascending symbol list.
pub open spec fn entry_wf(e: GEntry) -> bool {
    e.path.len() > 0 && e.syms.len() > 0 && syms_sorted(e.syms)
}

/// Entries strictly ascending by (visibility, path) key.
pub open spec fn entries_sorted(gs: Seq<GEntry>) -> bool {
    forall|i: int, j: int|
        0 <= i < j < gs.len() ==> key_lt(gs[i].privacy, gs[i].path, gs[j].privacy, gs[j].path)
}

/// The grouping structure's invariant.
pub open spec fn groups_wf(gs: Seq<GEntry>) -> bool {
    entries_sorted(gs) && forall|i: int| 0 <= i < gs.len() ==> entry_wf(#[trigger] gs[i])
}

/// Where a symbol sorts into a symbol list: the first position whose
/// element is not below `s`.
pub open spec fn sym_pos(syms: Seq<Seq<char>>, s: Seq<char>) -> int
    decreases syms.len(),
{
    if syms.len() == 0 {
        0
    } else if str_lt(syms[0], s) {
        1 + sym_pos(syms.drop_first(), s)
    } else {
        0
    }
}

/// A symbol list with `s` merged in: unchanged if already present,
/// otherwise inserted at its sorted position.
pub open spec fn insert_sym(syms: Seq<Seq<char>>, s: Seq<char>) -> Seq<Seq<char>> {
    let i = sym_pos(syms, s);
    if i < syms.len() && syms[i] == s {
        syms
    } else {
        syms.insert(i, s)
    }
}

/// A symbol list with every element of `new` merged in, left to right.
pub open spec fn insert_syms(syms: Seq<Seq<char>>, new: Seq<Seq<char>>) -> Seq<Seq<char>>
    decreases new.len(),
{
    if new.len() == 0 {
        syms
    } else {
        insert_sym(insert_syms(syms, new.drop_last()), new.last())
    }
}

/// Where a key sorts into the entry list: the first position whose key is
/// not below it.
pub open spec fn insert_pos(gs: Seq<GEntry>, p: Privacy, path: Seq<Seq<char>>) -> int
    decreases gs.len(),
{
    if gs.len() == 0 {
        0
    } else if key_lt(gs[0].privacy, gs[0].path, p, path) {
        1 + insert_pos(gs.drop_first(), p, path)
    } else {
        0
    }
}

/// The entry list with one statement merged in: an existing entry with the
/// same key absorbs the new symbols, otherwise a new entry is created at
/// the key's sorted position.
pub open spec fn insert_stmt(
    gs: Seq<GEntry>,
    p: Privacy,
    path: Seq<Seq<char>>,
    syms: Seq<Seq<char>>,
) -> Seq<GEntry> {
    let i = insert_pos(gs, p, path);
    if i < gs.len() && gs[i].privacy == p && gs[i].path == path {
        gs.update(i, GEntry { privacy: p, path, syms: insert_syms(gs[i].syms, syms) })
    } else {
        gs.insert(i, GEntry { privacy: p, path, syms: insert_syms(Seq::empty(), syms) })
    }
}

/// The grouping structure built from a block of lines, skipping blank and
/// malformed ones.
pub open spec fn build_groups(lines: Seq<Seq<char>>) -> Seq<GEntry>
    decreases lines.len(),
{
    if lines.len() == 0 {
        Seq::empty()
    } else {
        let prev = build_groups(lines.drop_last());
        match parse_line_spec(lines.last()) {
            LineSpec::Stmt { privacy, path, syms } => insert_stmt(prev, privacy, path, syms),
            _ => prev,
        }
    }
}

/// Whether some entry carries the key (`p`, `path`).
pub open spec fn has_key(gs: Seq<GEntry>, p: Privacy, path: Seq<Seq<char>>) -> bool {
    exists|i: int| 0 <= i < gs.len() && gs[i].privacy == p && gs[i].path == path
}

/// Whether the entry keyed (`p`, `path`) carries symbol `x`.
pub open spec fn has_sym(gs: Seq<GEntry>, p: Privacy, path: Seq<Seq<char>>, x: Seq<char>) -> bool {
    exists|i: int|
        0 <= i < gs.len() && gs[i].privacy == p && gs[i].path == path && gs[i].syms.contains(x)
}

/// `sym_pos` is in bounds, everything before it is below `s`, and the
/// element at it (if any) is not.
pub proof fn lemma_sym_pos(syms: Seq<Seq<char>>, s: Seq<char>)
    ensures
        0 <= sym_pos(syms, s) <= syms.len(),
        forall|k: int| 0 <= k < sym_pos(syms, s) ==> str_lt(#[trigger] syms[k], s),
        sym_pos(syms, s) < syms.len() ==> !str_lt(syms[sym_pos(syms, s)], s),
    decreases syms.len(),
{
    if syms.len() > 0 && str_lt(syms[0], s) {
        lemma_sym_pos(syms.drop_first(), s);
        assert forall|k: int| 0 <= k < sym_pos(syms, s) implies str_lt(#[trigger] syms[k], s) by {
            if k > 0 {
                assert(syms[k] == syms.drop_first()[k - 1]);
            }
        }
    }
}

/// Merging one symbol keeps the list strictly ascending, keeps every old
/// symbol, adds the new one, and adds nothing else.
pub proof fn lemma_insert_sym(syms: Seq<Seq<char>>, s: Seq<char>)
    requires
        syms_sorted(syms),
    ensures
        syms_sorted(insert_sym(syms, s)),
        forall|x: Seq<char>|
            #[trigger] insert_sym(syms, s).contains(x) <==> syms.contains(x) || x == s,
        insert_sym(syms, s).len() > 0,
{
    lemma_sym_pos(syms, s);
    let i = sym_pos(syms, s);
    if i < syms.len() && syms[i] == s {
        assert(syms.contains(s));
        assert forall|x: Seq<char>|
            #[trigger] insert_sym(syms, s).contains(x) <==> syms.contains(x) || x == s by {}
    } else {
        let r = syms.insert(i, s);
        assert forall|k: int| i <= k < syms.len() implies str_lt(s, #[trigger] syms[k]) by {
            if k == i {
                lemma_str_lt_connected(syms[i], s);
            } else {
                lemma_str_lt_connected(syms[i], s);
                lemma_str_lt_trans(s, syms[i], syms[k]);
            }
        }
        assert forall|k1: int, k2: int| 0 <= k1 < k2 < r.len() implies str_lt(r[k1], r[k2]) by {
            if k1 < i && k2 < i {
            } else if k1 < i && k2 == i {
                assert(r[k1] == syms[k1] && r[k2] == s);
            } else if k1 < i && k2 > i {
                assert(r[k2] == syms[k2 - 1]);
            } else if k1 == i {
                assert(r[k1] == s && r[k2] == syms[k2 - 1]);
            } else {
                assert(r[k1] == syms[k1 - 1] && r[k2] == syms[k2 - 1]);
            }
        }
        assert forall|x: Seq<char>| #[trigger] r.contains(x) implies syms.contains(x) || x == s by {
            let k = choose|k: int| 0 <= k < r.len() && r[k] == x;
            if k < i {
                assert(syms[k] == x);
            } else if k > i {
                assert(syms[k - 1] == x);
            }
        }
        assert forall|x: Seq<char>| syms.contains(x) || x == s implies #[trigger] r.contains(
            x,
        ) by {
            if syms.contains(x) {
                let k = choose|k: int| 0 <= k < syms.len() && syms[k] == x;
                if k < i {
                    assert(r[k] == x);
                } else {
                    assert(r[k + 1] == x);
                }
            } else {
                assert(r[i] == s);
            }
        }
    }
}

/// Merging a batch of symbols keeps the list strictly ascending and yields
/// exactly the union of the old list and the batch.
pub proof fn lemma_insert_syms(syms: Seq<Seq<char>>, new: Seq<Seq<char>>)
    requires
        syms_sorted(syms),
    ensures
        syms_sorted(insert_syms(syms, new)),
        forall|x: Seq<char>|
            #[trigger] insert_syms(syms, new).contains(x) <==> syms.contains(x) || new.contains(x),
        syms.len() > 0 || new.len() > 0 ==> insert_syms(syms, new).len() > 0,
    decreases new.len(),
{
    if syms.len() > 0 {
        assert(syms.contains(syms[0]));
    }
    if new.len() == 0 {
        assert forall|x: Seq<char>|
            #[trigger] insert_syms(syms, new).contains(x) <==> syms.contains(x) || new.contains(
                x,
            ) by {
            if new.contains(x) {
                let k = choose|k: int| 0 <= k < new.len() && new[k] == x;
            }
        }
    } else {
        lemma_insert_syms(syms, new.drop_last());
        lemma_insert_sym(insert_syms(syms, new.drop_last()), new.last());
        assert forall|x: Seq<char>|
            #[trigger] insert_syms(syms, new).contains(x) <==> syms.contains(x) || new.contains(
                x,
            ) by {
            if insert_syms(syms, new).contains(x) {
                if !syms.contains(x) {
                    if new.drop_last().contains(x) {
                        let k = choose|k: int|
                            0 <= k < new.drop_last().len() && new.drop_last()[k] == x;
                        assert(new[k] == x);
                    } else {
                        assert(x == new.last());
                        assert(new[new.len() - 1] == x);
                    }
                }
            }
            if syms.contains(x) || new.contains(x) {
                if new.contains(x) && x != new.last() && !syms.contains(x) {
                    let k = choose|k: int| 0 <= k < new.len() && new[k] == x;
                    assert(new.drop_last()[k] == x);
                    assert(new.drop_last().contains(x));
                }
            }
        }
    }
}

/// `insert_pos` is in bounds, every key before it is below the new key,
/// and the key at it (if any) is not.
pub proof fn lemma_insert_pos(gs: Seq<GEntry>, p: Privacy, path: Seq<Seq<char>>)
    ensures
        0 <= insert_pos(gs, p, path) <= gs.len(),
        forall|k: int|
            0 <= k < insert_pos(gs, p, path) ==> key_lt(
                (#[trigger] gs[k]).privacy,
                gs[k].path,
                p,
                path,
            ),
        insert_pos(gs, p, path) < gs.len() ==> !key_lt(
            gs[insert_pos(gs, p, path)].privacy,
            gs[insert_pos(gs, p, path)].path,
            p,
            path,
        ),
    decreases gs.len(),
{
    if gs.len() > 0 && key_lt(gs[0].privacy, gs[0].path, p, path) {
        lemma_insert_pos(gs.drop_first(), p, path);
        assert forall|k: int| 0 <= k < insert_pos(gs, p, path) implies key_lt(
            (#[trigger] gs[k]).privacy,
            gs[k].path,
            p,
            path,
        ) by {
            if k > 0 {
                assert(gs[k] == gs.drop_first()[k - 1]);
            }
        }
    }
}

/// Merging one statement preserves the invariant; afterwards the keys are
/// the old keys plus the statement's, and a symbol stands under a key
/// exactly when it did before or the statement put it there.
#[verifier::rlimit(100)]
pub proof fn lemma_insert_stmt(
    gs: Seq<GEntry>,
    p: Privacy,
    path: Seq<Seq<char>>,
    syms: Seq<Seq<char>>,
)
    requires
        groups_wf(gs),
        path.len() > 0,
        syms.len() > 0,
    ensures
        groups_wf(insert_stmt(gs, p, path, syms)),
        forall|q: Privacy, qp: Seq<Seq<char>>|
            #[trigger] has_key(insert_stmt(gs, p, path, syms), q, qp) <==> has_key(gs, q, qp) || (q
                == p && qp == path),
        forall|q: Privacy, qp: Seq<Seq<char>>, x: Seq<char>|
            #[trigger] has_sym(insert_stmt(gs, p, path, syms), q, qp, x) <==> has_sym(gs, q, qp, x)
                || (q == p && qp == path && syms.contains(x)),
{
    lemma_insert_pos(gs, p, path);
    let i = insert_pos(gs, p, path);
    let r = insert_stmt(gs, p, path, syms);
    if i < gs.len() && gs[i].privacy == p && gs[i].path == path {
        lemma_insert_syms(gs[i].syms, syms);
        assert forall|k1: int, k2: int| 0 <= k1 < k2 < r.len() implies key_lt(
            r[k1].privacy,
            r[k1].path,
            r[k2].privacy,
            r[k2].path,
        ) by {
            assert(r[k1].privacy == gs[k1].privacy && r[k1].path == gs[k1].path);
            assert(r[k2].privacy == gs[k2].privacy && r[k2].path == gs[k2].path);
        }
        assert forall|k: int| 0 <= k < r.len() implies entry_wf(#[trigger] r[k]) by {
            if k != i {
                assert(r[k] == gs[k]);
            }
        }
        assert forall|q: Privacy, qp: Seq<Seq<char>>|
            #[trigger] has_key(r, q, qp) <==> has_key(gs, q, qp) || (q == p && qp == path) by {
            if has_key(r, q, qp) {
                let k = choose|k: int| 0 <= k < r.len() && r[k].privacy == q && r[k].path == qp;
                assert(gs[k].privacy == q && gs[k].path == qp);
            }
            if has_key(gs, q, qp) {
                let k = choose|k: int| 0 <= k < gs.len() && gs[k].privacy == q && gs[k].path == qp;
                assert(r[k].privacy == q && r[k].path == qp);
            }
            if q == p && qp == path {
                assert(r[i].privacy == q && r[i].path == qp);
            }
        }
        assert forall|q: Privacy, qp: Seq<Seq<char>>, x: Seq<char>|
            #[trigger] has_sym(r, q, qp, x) <==> has_sym(gs, q, qp, x) || (q == p && qp == path
                && syms.contains(x)) by {
            if has_sym(r, q, qp, x) {
                let k = choose|k: int|
                    0 <= k < r.len() && r[k].privacy == q && r[k].path == qp && r[k].syms.contains(
                        x,
                    );
                if k == i {
                    assert(gs[i].syms.contains(x) || syms.contains(x));
                    if gs[i].syms.contains(x) {
                        assert(has_sym(gs, q, qp, x));
                    }
                } else {
                    assert(gs[k].syms.contains(x));
                }
            }
            if has_sym(gs, q, qp, x) {
                let k = choose|k: int|
                    0 <= k < gs.len() && gs[k].privacy == q && gs[k].path == qp
                        && gs[k].syms.contains(x);
                if k == i {
                    assert(r[i].syms.contains(x));
                } else {
                    assert(r[k].syms.contains(x));
                }
            }
            if q == p && qp == path && syms.contains(x) {
                assert(r[i].syms.contains(x));
            }
        }
    } else {
        lemma_insert_syms(Seq::empty(), syms);
        // keys at or after position i are strictly above the new key
        assert forall|k: int| i <= k < gs.len() implies key_lt(
            p,
            path,
            (#[trigger] gs[k]).privacy,
            gs[k].path,
        ) by {
            lemma_key_lt_connected(gs[i].privacy, gs[i].path, p, path);
            if k > i {
                if gs[i].privacy == p && gs[i].path == path {
                } else {
                    lemma_key_lt_trans(
                        p,
                        path,
                        gs[i].privacy,
                        gs[i].path,
                        gs[k].privacy,
                        gs[k].path,
                    );
                }
            }
        }
        assert forall|k1: int, k2: int| 0 <= k1 < k2 < r.len() implies key_lt(
            r[k1].privacy,
            r[k1].path,
            r[k2].privacy,
            r[k2].path,
        ) by {
            if k1 < i && k2 < i {
                assert(r[k1] == gs[k1] && r[k2] == gs[k2]);
            } else if k1 < i && k2 == i {
                assert(r[k1] == gs[k1]);
            } else if k1 < i && k2 > i {
                assert(r[k1] == gs[k1] && r[k2] == gs[k2 - 1]);
            } else if k1 == i {
                assert(r[k2] == gs[k2 - 1]);
            } else {
                assert(r[k1] == gs[k1 - 1] && r[k2] == gs[k2 - 1]);
            }
        }
        assert forall|k: int| 0 <= k < r.len() implies entry_wf(#[trigger] r[k]) by {
            if k < i {
                assert(r[k] == gs[k]);
            } else if k > i {
                assert(r[k] == gs[k - 1]);
            }
        }
        assert forall|q: Privacy, qp: Seq<Seq<char>>|
            #[trigger] has_key(r, q, qp) <==> has_key(gs, q, qp) || (q == p && qp == path) by {
            if has_key(r, q, qp) {
                let k = choose|k: int| 0 <= k < r.len() && r[k].privacy == q && r[k].path == qp;
                if k < i {
                    assert(gs[k].privacy == q && gs[k].path == qp);
                } else if k > i {
                    assert(gs[k - 1].privacy == q && gs[k - 1].path == qp);
                }
            }
            if has_key(gs, q, qp) {
                let k = choose|k: int| 0 <= k < gs.len() && gs[k].privacy == q && gs[k].path == qp;
                if k < i {
                    assert(r[k].privacy == q && r[k].path == qp);
                } else {
                    assert(r[k + 1].privacy == q && r[k + 1].path == qp);
                }
            }
            if q == p && qp == path {
                assert(r[i].privacy == q && r[i].path == qp);
            }
        }
        assert forall|q: Privacy, qp: Seq<Seq<char>>, x: Seq<char>|
            #[trigger] has_sym(r, q, qp, x) <==> has_sym(gs, q, qp, x) || (q == p && qp == path
                && syms.contains(x)) by {
            if has_sym(r, q, qp, x) {
                let k = choose|k: int|
                    0 <= k < r.len() && r[k].privacy == q && r[k].path == qp && r[k].syms.contains(
                        x,
                    );
                if k < i {
                    assert(gs[k].syms.contains(x) && gs[k].privacy == q && gs[k].path == qp);
                } else if k > i {
                    assert(gs[k - 1].syms.contains(x) && gs[k - 1].privacy == q && gs[k - 1].path
                        == qp);
                } else {
                    assert(Seq::<Seq<char>>::empty().contains(x) || syms.contains(x));
                    if Seq::<Seq<char>>::empty().contains(x) {
                        let e = choose|e: int|
                            0 <= e < Seq::<Seq<char>>::empty().len() && Seq::<
                                Seq<char>,
                            >::empty()[e] == x;
                    }
                }
            }
            if has_sym(gs, q, qp, x) {
                let k = choose|k: int|
                    0 <= k < gs.len() && gs[k].privacy == q && gs[k].path == qp
                        && gs[k].syms.contains(x);
                if k < i {
                    assert(r[k].syms.contains(x) && r[k].privacy == q && r[k].path == qp);
                } else {
                    assert(r[k + 1].syms.contains(x) && r[k + 1].privacy == q && r[k + 1].path
                        == qp);
                }
            }
            if q == p && qp == path && syms.contains(x) {
                assert(r[i].syms.contains(x));
            }
        }
    }
}

/// A statement parses with a non-empty path and a non-empty symbol list.
pub proof fn lemma_split_on_len(s: Seq<char>, sep: Seq<char>)
    ensures
        crate::textops::split_on(s, sep).len() >= 1,
    decreases s.len(),
{
    let i = crate::textops::sep_pos(s, sep);
    if 0 <= i && sep.len() > 0 && i + sep.len() <= s.len() {
        lemma_split_on_len(s.subrange(i + sep.len(), s.len() as int), sep);
    }
}

/// Whatever line a `Stmt` comes from, its path and symbol list are
/// non-empty.
pub proof fn lemma_parse_stmt_wf(line: Seq<char>)
    ensures
        match parse_line_spec(line) {
            LineSpec::Stmt { privacy, path, syms } => path.len() > 0 && syms.len() > 0,
            _ => true,
        },
{
    if parse_line_spec(line) is Stmt {
        let t = crate::textops::trim_end_stmt(line);
        let body = crate::textops::trim_start_ws(t);
        let rest = if crate::textops::has_prefix(body, crate::parse::kw_use()) {
            body.skip(4)
        } else {
            body.skip(8)
        };
        lemma_split_on_len(rest, seq![':', ':']);
        let segs = crate::parse::trim_sp_all(crate::textops::split_on(rest, seq![':', ':']));
        let last = segs.last();
        if last.len() > 0 && (last[0] == '{' || crate::chars::is_uppercase_char(last[0])) {
            lemma_split_on_len(crate::parse::strip_braces(last), seq![',']);
        }
    }
}

/// The grouping structure built from any block of lines satisfies the
/// invariant: groups strictly sorted by (visibility, path) and each group's
/// symbols strictly sorted and deduplicated.
pub proof fn lemma_build_groups_wf(lines: Seq<Seq<char>>)
    ensures
        groups_wf(build_groups(lines)),
    decreases lines.len(),
{
    if lines.len() > 0 {
        lemma_build_groups_wf(lines.drop_last());
        match parse_line_spec(lines.last()) {
            LineSpec::Stmt { privacy, path, syms } => {
                lemma_parse_stmt_wf(lines.last());
                lemma_insert_stmt(build_groups(lines.drop_last()), privacy, path, syms);
            },
            _ => {},
        }
    }
}

/// Whether `line` parses to a statement that puts symbol `x` under the key
/// (`q`, `qp`).
pub open spec fn stmt_adds(line: Seq<char>, q: Privacy, qp: Seq<Seq<char>>, x: Seq<char>) -> bool {
    match parse_line_spec(line) {
        LineSpec::Stmt { privacy, path, syms } => privacy == q && path == qp && syms.contains(x),
        _ => false,
    }
}

/// Whether some line of the block puts symbol `x` under the key (`q`, `qp`).
pub open spec fn some_line_adds(
    lines: Seq<Seq<char>>,
    q: Privacy,
    qp: Seq<Seq<char>>,
    x: Seq<char>,
) -> bool {
    exists|l: int| 0 <= l < lines.len() && stmt_adds(lines[l], q, qp, x)
}

/// Merge correctness: the built grouping structure has no two entries with
/// the same key, and a symbol stands under a key exactly when some input
/// line put it there -- so statements sharing a key end up as one entry
/// holding the deduplicated union of their symbols.
#[verifier::rlimit(100)]
pub proof fn lemma_merge_correctness(lines: Seq<Seq<char>>)
    ensures
        groups_wf(build_groups(lines)),
        forall|i: int, j: int|
            0 <= i < j < build_groups(lines).len() ==> !((#[trigger] build_groups(
                lines,
            )[i]).privacy == (#[trigger] build_groups(lines)[j]).privacy && build_groups(
                lines,
            )[i].path == build_groups(lines)[j].path),
        forall|q: Privacy, qp: Seq<Seq<char>>, x: Seq<char>|
            #[trigger] has_sym(build_groups(lines), q, qp, x) <==> some_line_adds(lines, q, qp, x),
    decreases lines.len(),
{
    lemma_build_groups_wf(lines);
    let gs = build_groups(lines);
    assert forall|i: int, j: int| 0 <= i < j < gs.len() implies !((#[trigger] gs[i]).privacy == (
    #[trigger] gs[j]).privacy && gs[i].path == gs[j].path) by {
        lemma_key_lt_asym(gs[i].privacy, gs[i].path, gs[j].privacy, gs[j].path);
        if gs[i].privacy == gs[j].privacy && gs[i].path == gs[j].path {
            assert(key_lt(gs[i].privacy, gs[i].path, gs[j].privacy, gs[j].path));
        }
    }
    if lines.len() == 0 {
        assert forall|q: Privacy, qp: Seq<Seq<char>>, x: Seq<char>|
            #[trigger] has_sym(gs, q, qp, x) <==> some_line_adds(lines, q, qp, x) by {
            if has_sym(gs, q, qp, x) {
                let k = choose|k: int|
                    0 <= k < gs.len() && gs[k].privacy == q && gs[k].path == qp
                        && gs[k].syms.contains(x);
            }
            if some_line_adds(lines, q, qp, x) {
                let l = choose|l: int| 0 <= l < lines.len() && stmt_adds(lines[l], q, qp, x);
            }
        }
    } else {
        lemma_merge_correctness(lines.drop_last());
        let prev = build_groups(lines.drop_last());
        lemma_build_groups_wf(lines.drop_last());
        assert forall|q: Privacy, qp: Seq<Seq<char>>, x: Seq<char>|
            #[trigger] has_sym(gs, q, qp, x) <==> some_line_adds(lines, q, qp, x) by {
            match parse_line_spec(lines.last()) {
                LineSpec::Stmt { privacy: p, path, syms } => {
                    lemma_parse_stmt_wf(lines.last());
                    lemma_insert_stmt(prev, p, path, syms);
                    assert(has_sym(gs, q, qp, x) <==> has_sym(prev, q, qp, x) || (q == p && qp
                        == path && syms.contains(x)));
                    if has_sym(gs, q, qp, x) {
                        if has_sym(prev, q, qp, x) {
                            let l = choose|l: int|
                                0 <= l < lines.drop_last().len() && stmt_adds(
                                    lines.drop_last()[l],
                                    q,
                                    qp,
                                    x,
                                );
                            assert(lines[l] == lines.drop_last()[l]);
                            assert(stmt_adds(lines[l], q, qp, x));
                        } else {
                            assert(stmt_adds(lines[lines.len() - 1], q, qp, x));
                        }
                    }
                    if some_line_adds(lines, q, qp, x) {
                        let l = choose|l: int| 0 <= l < lines.len() && stmt_adds(lines[l], q, qp, x);
                        if l < lines.len() - 1 {
                            assert(lines.drop_last()[l] == lines[l]);
                            assert(stmt_adds(lines.drop_last()[l], q, qp, x));
                            assert(some_line_adds(lines.drop_last(), q, qp, x));
                        } else {
                            assert(syms.contains(x) && q == p && qp == path);
                        }
                    }
                },
                _ => {
                    assert(gs == prev);
                    if some_line_adds(lines, q, qp, x) {
                        let l = choose|l: int| 0 <= l < lines.len() && stmt_adds(lines[l], q, qp, x);
                        assert(l < lines.len() - 1);
                        assert(lines.drop_last()[l] == lines[l]);
                        assert(some_line_adds(lines.drop_last(), q, qp, x));
                    }
                    if some_line_adds(lines.drop_last(), q, qp, x) {
                        let l = choose|l: int|
                            0 <= l < lines.drop_last().len() && stmt_adds(
                                lines.drop_last()[l],
                                q,
                                qp,
                                x,
                            );
                        assert(lines[l] == lines.drop_last()[l]);
                        assert(stmt_adds(lines[l], q, qp, x));
                    }
                },
            }
        }
    }
}

/// Merging a symbol that is already present leaves a sorted list
/// unchanged.
proof fn lemma_insert_sym_present(syms: Seq<Seq<char>>, s: Seq<char>)
    requires
        syms_sorted(syms),
        syms.contains(s),
    ensures
        insert_sym(syms, s) == syms,
{
    lemma_sym_pos(syms, s);
    let k = choose|k: int| 0 <= k < syms.len() && syms[k] == s;
    let p = sym_pos(syms, s);
    lemma_str_lt_asym(syms[k], s);
    if p < k {
        assert(str_lt(syms[p], syms[k]));
    }
    if p > k {
        assert(str_lt(syms[k], s));
    }
    assert(p == k && syms[p] == s);
}

/// Merging a batch of symbols that are all already present leaves a sorted
/// list unchanged.
proof fn lemma_insert_syms_present(syms: Seq<Seq<char>>, new: Seq<Seq<char>>)
    requires
        syms_sorted(syms),
        forall|j: int| 0 <= j < new.len() ==> syms.contains(#[trigger] new[j]),
    ensures
        insert_syms(syms, new) == syms,
    decreases new.len(),
{
    if new.len() > 0 {
        lemma_insert_syms_present(syms, new.drop_last());
        assert(syms.contains(new[new.len() - 1]));
        lemma_insert_sym_present(syms, new.last());
    }
}

/// The part of idempotence that the grouping structure itself provides:
/// merging a statement whose key already stands in the structure, with
/// every symbol already in that entry, changes nothing.
pub proof fn lemma_insert_stmt_idempotent(
    gs: Seq<GEntry>,
    p: Privacy,
    path: Seq<Seq<char>>,
    syms: Seq<Seq<char>>,
)
    requires
        groups_wf(gs),
        exists|k: int|
            0 <= k < gs.len() && (#[trigger] gs[k]).privacy == p && gs[k].path == path && forall|
                j: int,
            | 0 <= j < syms.len() ==> gs[k].syms.contains(#[trigger] syms[j]),
    ensures
        insert_stmt(gs, p, path, syms) == gs,
{
    let k = choose|k: int|
        0 <= k < gs.len() && (#[trigger] gs[k]).privacy == p && gs[k].path == path && forall|
            j: int,
        | 0 <= j < syms.len() ==> gs[k].syms.contains(#[trigger] syms[j]);
    lemma_insert_pos(gs, p, path);
    let i = insert_pos(gs, p, path);
    lemma_key_lt_asym(gs[k].privacy, gs[k].path, p, path);
    if i < k {
        assert(key_lt(gs[i].privacy, gs[i].path, gs[k].privacy, gs[k].path));
        assert(key_lt(gs[i].privacy, gs[i].path, p, path));
    }
    if i > k {
        assert(key_lt(gs[k].privacy, gs[k].path, p, path));
    }
    assert(i == k);
    lemma_insert_syms_present(gs[k].syms, syms);
    assert(insert_stmt(gs, p, path, syms) =~= gs);
}

/// One group as stored: a visibility, the path segments, and the merged,
/// sorted symbol list.
pub struct Entry {
    pub privacy: Privacy,
    pub path: Vec<String>,
    pub syms: Vec<String>,
}

impl View for Entry {
    type V = GEntry;

    open spec fn view(&self) -> GEntry {
        GEntry { privacy: self.privacy, path: self.path.deep_view(), syms: self.syms.deep_view() }
    }
}

/// The grouping structure: entries strictly sorted by (visibility, path).
pub struct Groups {
    pub entries: Vec<Entry>,
}

impl View for Groups {
    type V = Seq<GEntry>;

    open spec fn view(&self) -> Seq<GEntry> {
        Seq::new(self.entries@.len(), |i: int| self.entries@[i]@)
    }
}

/// Where `s` sorts into the sorted symbol list `v`.
fn sym_find(v: &Vec<String>, s: &str) -> (r: usize)
    ensures
        r as int == sym_pos(v.deep_view(), s@),
{
    let n = v.len();
    let mut i: usize = 0;
    while i < n
        invariant
            i <= n,
            n == v.len(),
            forall|k: int| 0 <= k < i ==> str_lt(#[trigger] v.deep_view()[k], s@),
        decreases n - i,
    {
        if !str_lt_exec(v[i].as_str(), s) {
            proof {
                lemma_sym_pos(v.deep_view(), s@);
                let p = sym_pos(v.deep_view(), s@);
                if p < i {
                    assert(str_lt(v.deep_view()[p], s@));
                }
                if p > i {
                    assert(str_lt(v.deep_view()[i as int], s@));
                }
            }
            return i;
        }
        i = i + 1;
    }
    proof {
        lemma_sym_pos(v.deep_view(), s@);
        let p = sym_pos(v.deep_view(), s@);
        if p < n {
            assert(str_lt(v.deep_view()[p], s@));
        }
    }
    n
}

/// Merges one symbol into a sorted symbol list.
fn insert_sym_vec(v: &mut Vec<String>, s: String)
    requires
        syms_sorted(old(v).deep_view()),
    ensures
        final(v).deep_view() == insert_sym(old(v).deep_view(), s@),
        syms_sorted(final(v).deep_view()),
{
    let ghost orig = v.deep_view();
    let i = sym_find(v, s.as_str());
    proof {
        lemma_insert_sym(orig, s@);
    }
    let n = v.len();
    let mut already = false;
    if i < n {
        let eq = v[i] == s;
        if eq {
            already = true;
        }
    }
    if !already {
        proof {
            lemma_sym_pos(orig, s@);
        }
        let ghost before = v.deep_view();
        v.insert(i, s);
        proof {
            assert forall|j: int| 0 <= j < v.deep_view().len() implies v.deep_view()[j]
                == before.insert(i as int, s@)[j] by {
                if j < i {
                    assert(v@[j] == old(v)@[j]);
                } else if j == i {
                    assert(v@[j] == s);
                } else {
                    assert(v@[j] == old(v)@[j - 1]);
                }
            }
            assert(v.deep_view() =~= before.insert(i as int, s@));
        }
    }
}

/// Merges a batch of symbols into a sorted symbol list.
fn merge_syms(v: &mut Vec<String>, new: &Vec<String>)
    requires
        syms_sorted(old(v).deep_view()),
    ensures
        final(v).deep_view() == insert_syms(old(v).deep_view(), new.deep_view()),
        syms_sorted(final(v).deep_view()),
{
    let ghost orig = v.deep_view();
    let n = new.len();
    let mut j: usize = 0;
    proof {
        assert(new.deep_view().subrange(0, 0) =~= Seq::<Seq<char>>::empty());
    }
    while j < n
        invariant
            j <= n,
            n == new.len(),
            syms_sorted(v.deep_view()),
            v.deep_view() == insert_syms(orig, new.deep_view().subrange(0, j as int)),
        decreases n - j,
    {
        let s = new[j].clone();
        insert_sym_vec(v, s);
        proof {
            let sub1 = new.deep_view().subrange(0, j + 1);
            assert(sub1.drop_last() =~= new.deep_view().subrange(0, j as int));
            assert(sub1.last() == new.deep_view()[j as int]);
        }
        j = j + 1;
    }
    proof {
        assert(new.deep_view().subrange(0, n as int) =~= new.deep_view());
    }
}

/// Where the key (`p`, `path`) sorts into the entry list.
fn find_pos(entries: &Vec<Entry>, p: Privacy, path: &Vec<String>) -> (r: usize)
    ensures
        ({
            let ev = Seq::new(entries@.len(), |i: int| entries@[i]@);
            r as int == insert_pos(ev, p, path.deep_view())
        }),
{
    let ghost ev = Seq::new(entries@.len(), |i: int| entries@[i]@);
    let n = entries.len();
    let mut i: usize = 0;
    while i < n
        invariant
            i <= n,
            n == entries@.len(),
            ev == Seq::new(entries@.len(), |k: int| entries@[k]@),
            forall|k: int|
                0 <= k < i ==> key_lt((#[trigger] ev[k]).privacy, ev[k].path, p, path.deep_view()),
        decreases n - i,
    {
        if !key_lt_exec(entries[i].privacy, &entries[i].path, p, path) {
            proof {
                lemma_insert_pos(ev, p, path.deep_view());
                let q = insert_pos(ev, p, path.deep_view());
                if q < i {
                    assert(key_lt(ev[q].privacy, ev[q].path, p, path.deep_view()));
                }
                if q > i {
                    assert(key_lt(ev[i as int].privacy, ev[i as int].path, p, path.deep_view()));
                }
            }
            return i;
        }
        i = i + 1;
    }
    proof {
        lemma_insert_pos(ev, p, path.deep_view());
        let q = insert_pos(ev, p, path.deep_view());
        if q < n {
            assert(key_lt(ev[q].privacy, ev[q].path, p, path.deep_view()));
        }
    }
    n
}

impl Groups {
    /// An empty grouping structure.
    pub fn new() -> (r: Groups)
        ensures
            r@ == Seq::<GEntry>::empty(),
            groups_wf(r@),
    {
        let g = Groups { entries: Vec::new() };
        proof {
            assert(g@ =~= Seq::<GEntry>::empty());
        }
        g
    }

    /// Merges one parsed statement into the structure.
    pub fn insert(&mut self, st: Stmt)
        requires
            groups_wf(old(self)@),
            st.path.deep_view().len() > 0,
            st.syms.deep_view().len() > 0,
        ensures
            final(self)@ == insert_stmt(
                old(self)@,
                st.privacy,
                st.path.deep_view(),
                st.syms.deep_view(),
            ),
            groups_wf(final(self)@),
    {
        let ghost gs = old(self)@;
        let ghost path_v = st.path.deep_view();
        let ghost syms_v = st.syms.deep_view();
        proof {
            assert(gs =~= Seq::new(self.entries@.len(), |i: int| self.entries@[i]@));
            lemma_insert_pos(gs, st.privacy, path_v);
            lemma_insert_stmt(gs, st.privacy, path_v, syms_v);
        }
        let i = find_pos(&self.entries, st.privacy, &st.path);
        let n = self.entries.len();
        let mut fresh = true;
        if i < n {
            let is_lt = key_lt_exec(st.privacy, &st.path, self.entries[i].privacy, &self.entries[i].path);
            if !is_lt {
                fresh = false;
            }
        }
        if fresh {
            let mut sv: Vec<String> = Vec::new();
            proof {
                assert(sv.deep_view() =~= Seq::<Seq<char>>::empty());
                assert(syms_sorted(sv.deep_view()));
            }
            merge_syms(&mut sv, &st.syms);
            let ghost before = self@;
            self.entries.insert(i, Entry { privacy: st.privacy, path: st.path, syms: sv });
            proof {
                if i < gs.len() {
                    lemma_key_lt_asym(st.privacy, path_v, gs[i as int].privacy, gs[i as int].path);
                    assert(!(gs[i as int].privacy == st.privacy && gs[i as int].path == path_v));
                }
                let target = gs.insert(
                    i as int,
                    GEntry { privacy: st.privacy, path: path_v, syms: insert_syms(Seq::empty(), syms_v) },
                );
                assert forall|j: int| 0 <= j < self@.len() implies self@[j] == target[j] by {
                    if j < i {
                        assert(self.entries@[j] == old(self).entries@[j]);
                    } else if j == i {
                    } else {
                        assert(self.entries@[j] == old(self).entries@[j - 1]);
                    }
                }
                assert(self@ =~= target);
            }
        } else {
            proof {
                lemma_key_lt_connected(st.privacy, path_v, gs[i as int].privacy, gs[i as int].path);
                assert(gs[i as int].privacy == st.privacy && gs[i as int].path == path_v);
                assert(entry_wf(gs[i as int]));
            }
            let mut e = self.entries.remove(i);
            proof {
                assert(e@ == gs[i as int]);
            }
            merge_syms(&mut e.syms, &st.syms);
            self.entries.insert(i, e);
            proof {
                let target = gs.update(
                    i as int,
                    GEntry {
                        privacy: st.privacy,
                        path: path_v,
                        syms: insert_syms(gs[i as int].syms, syms_v),
                    },
                );
                assert forall|j: int| 0 <= j < self@.len() implies self@[j] == target[j] by {
                    if j < i {
                        assert(self.entries@[j] == old(self).entries@[j]);
                    } else if j > i {
                        assert(self.entries@[j] == old(self).entries@[j]);
                    }
                }
                assert(self@ =~= target);
            }
        }
    }
}

} // verus!
