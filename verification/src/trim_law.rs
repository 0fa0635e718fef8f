//! Constants that nothing reads may be dropped from a projection.

use vstd::prelude::*;

use crate::ast;
use crate::ast::{ExprV, HeadV};
use crate::clause_law;
use crate::clause_law::{aggregating, all_alike, alike, answer, arranges_own, bare, clause_rows, constants, entries_kept, entry, first_at, first_places, folds, groups_in, groups_kept, grouped_value, grouped_values, keyed, keys_of, match_open, matched, matches_own, named, open_to, page_of, passes, places, proj_open, props_at, reads_outside, row_made, rows_after, rows_at, rows_made, same_places, seen, subst_pattern, told_apart, unwound, vals_of, EntryV, RunV};
use crate::fuse::subst;
use crate::meaning::{looks_only, value_of, values_of};
use crate::prelude::{all_trimmed, dead, subst_clause, subst_item, subst_path, subst_proj, trimmed};
use crate::query;
use crate::query::{ClauseV, ItemV, PathV, ProjV};
use crate::rewrite::{clause_names, node_names, opt_reads, opt_subst, path_names, pattern_names, proj_reads, rel_names};
use crate::seqs;

verus! {

/// No name.
pub open spec fn none() -> spec_fn(Seq<char>) -> bool {
    |x: Seq<char>| false
}

/// Replacing names that an expression does not read changes nothing.
pub proof fn lemma_subst_unread(e: ExprV, m: Map<Seq<char>, ExprV>)
    requires
        forall|x: Seq<char>| #[trigger] m.contains_key(x) ==> !ast::reads(e, x),
    ensures
        subst(e, m) == e,
    decreases e,
{
    match e.head {
        HeadV::Var(x) => {
            assert(ast::reads(e, x));
        },
        HeadV::Pattern(_) => {},
        HeadV::Opaque(_) => {},
        _ => {
            assert forall|i: int| 0 <= i < e.args.len() implies subst(e, m).args[i] == e.args[i] by {
                let g = e.args[i];
                assert forall|x: Seq<char>| #[trigger] m.contains_key(x) implies !ast::reads(
                    g,
                    x,
                ) by {
                    if ast::reads(g, x) {
                        assert(ast::reads(e.args[i], x));
                        assert(ast::reads(e, x));
                    }
                }
                lemma_subst_unread(g, m);
            }
            assert(subst(e, m).args =~= e.args);
        },
    }
}

pub proof fn lemma_subst_opt_unread(e: Option<ExprV>, m: Map<Seq<char>, ExprV>)
    requires
        forall|x: Seq<char>| #[trigger] m.contains_key(x) ==> !opt_reads(e, x),
    ensures
        opt_subst(e, m) == e,
{
    if let Some(g) = e {
        lemma_subst_unread(g, m);
    }
}

proof fn lemma_subst_proj_unread(p: ProjV, m: Map<Seq<char>, ExprV>)
    requires
        forall|x: Seq<char>| #[trigger] m.contains_key(x) ==> !proj_reads(p, x),
    ensures
        subst_proj(p, m) == p,
{
    let s = subst_proj(p, m);
    assert forall|i: int| 0 <= i < p.items.len() implies s.items[i] == p.items[i] by {
        assert(s.items[i] == subst_item(p.items[i], m));
        lemma_subst_unread(p.items[i].expr, m);
    }
    assert(s.items =~= p.items);
    assert forall|i: int| 0 <= i < p.order.len() implies s.order[i] == p.order[i] by {
        lemma_subst_unread(p.order[i].expr, m);
    }
    assert(s.order =~= p.order);
    lemma_subst_opt_unread(p.skip, m);
    lemma_subst_opt_unread(p.limit, m);
}

proof fn lemma_subst_path_unread(p: PathV, m: Map<Seq<char>, ExprV>)
    requires
        forall|x: Seq<char>| #[trigger] m.contains_key(x) ==> !path_names(p, x),
    ensures
        subst_path(p, m) == p,
{
    let s = subst_path(p, m);
    lemma_subst_opt_unread(p.start.props, m);
    assert forall|k: int| 0 <= k < p.hops.len() implies s.hops[k] == p.hops[k] by {
        assert forall|x: Seq<char>| #[trigger] m.contains_key(x) implies !opt_reads(
            p.hops[k].0.props,
            x,
        ) && !opt_reads(p.hops[k].1.props, x) by {
            assert(!path_names(p, x));
            assert(!rel_names(p.hops[k].0, x) && !node_names(p.hops[k].1, x));
        }
        lemma_subst_opt_unread(p.hops[k].0.props, m);
        lemma_subst_opt_unread(p.hops[k].1.props, m);
    }
    assert(s.hops =~= p.hops);
}

/// Replacing names that a clause does not name changes nothing.
pub proof fn lemma_subst_clause_unread(c: ClauseV, m: Map<Seq<char>, ExprV>)
    requires
        forall|x: Seq<char>| #[trigger] m.contains_key(x) ==> !clause_names(c, x),
    ensures
        subst_clause(c, m) == c,
        c matches ClauseV::Match { pattern, .. } ==> subst_pattern(pattern, m) == pattern,
{
    match c {
        ClauseV::Match { pattern, where_, .. } => {
            let s = subst_pattern(pattern, m);
            assert forall|j: int| 0 <= j < pattern.paths.len() implies s.paths[j]
                == pattern.paths[j] by {
                assert forall|x: Seq<char>| #[trigger] m.contains_key(x) implies !path_names(
                    pattern.paths[j],
                    x,
                ) by {
                    assert(!pattern_names(pattern, x));
                }
                lemma_subst_path_unread(pattern.paths[j], m);
            }
            assert(s.paths =~= pattern.paths);
            lemma_subst_opt_unread(where_, m);
            assert(subst_clause(c, m)->Match_pattern.paths =~= pattern.paths);
        },
        ClauseV::With { proj, where_ } => {
            lemma_subst_proj_unread(proj, m);
            lemma_subst_opt_unread(where_, m);
        },
        ClauseV::Return { proj } => {
            lemma_subst_proj_unread(proj, m);
        },
        ClauseV::Unwind { expr, alias } => {
            lemma_subst_unread(expr, m);
        },
        ClauseV::Other(_) => {},
    }
}

pub proof fn lemma_open_unread(e: ExprV, m: Map<Seq<char>, ExprV>)
    requires
        forall|x: Seq<char>| #[trigger] m.contains_key(x) ==> !ast::reads(e, x),
    ensures
        open_to(e, m, none()),
{
    lemma_subst_unread(e, m);
}

/// Whether a projection does not tell apart or group what it does not name.
pub open spec fn names_own(p: ProjV) -> bool {
    aggregating(p) || p.distinct ==> !p.star
}

proof fn lemma_proj_unread(p: ProjV, where_: Option<ExprV>, m: Map<Seq<char>, ExprV>)
    requires
        forall|x: Seq<char>| #[trigger]
            m.contains_key(x) ==> !proj_reads(p, x) && !opt_reads(where_, x),
        names_own(p),
    ensures
        proj_open(p, where_, m, none()),
{
    let no = |x: Seq<char>| false;
    assert(no =~= none());
    assert forall|i: int| 0 <= i < p.items.len() implies open_to(
        (#[trigger] p.items[i]).expr,
        m,
        none(),
    ) by {
        lemma_open_unread(p.items[i].expr, m);
    }
    assert forall|i: int| 0 <= i < p.order.len() implies open_to(
        (#[trigger] p.order[i]).expr,
        m,
        none(),
    ) by {
        lemma_open_unread(p.order[i].expr, m);
    }
    if let Some(e) = where_ {
        lemma_open_unread(e, m);
    }
    if let Some(e) = p.skip {
        lemma_open_unread(e, m);
    }
    if let Some(e) = p.limit {
        lemma_open_unread(e, m);
    }
    assert forall|i: int, x: Seq<char>|
        0 <= i < p.items.len() && #[trigger] m.contains_key(x) implies !reads_outside(
        (#[trigger] p.items[i]).expr,
        x,
    ) by {
        if reads_outside(p.items[i].expr, x) {
            clause_law::lemma_outside(p.items[i].expr, x);
        }
    }
    assert forall|i: int, x: Seq<char>|
        0 <= i < p.order.len() && #[trigger] m.contains_key(x) implies !reads_outside(
        (#[trigger] p.order[i]).expr,
        x,
    ) by {
        if reads_outside(p.order[i].expr, x) {
            clause_law::lemma_outside(p.order[i].expr, x);
        }
    }
}

/// A clause makes rows that agree, but for names that it does not name, of rows that
/// do.
pub proof fn lemma_clause_unread<V>(
    c: ClauseV,
    m: Map<Seq<char>, ExprV>,
    run: RunV<V>,
    a: Seq<spec_fn(Seq<char>) -> V>,
    b: Seq<spec_fn(Seq<char>) -> V>,
)
    requires
        looks_only(run.ev),
        matches_own(run),
        arranges_own(run),
        constants(m),
        forall|x: Seq<char>| #[trigger] m.contains_key(x) ==> !clause_names(c, x),
        all_alike(m, run.ev, none(), a, b),
        c matches ClauseV::With { proj, .. } ==> names_own(proj),
        c matches ClauseV::Return { proj } ==> names_own(proj),
        !(c is Other),
    ensures
        all_alike(m, run.ev, none(), clause_rows(c, run, a), clause_rows(c, run, b)),
        c matches ClauseV::Return { proj } ==> answer(proj, clause_rows(c, run, a)) == answer(
            proj,
            clause_rows(c, run, b),
        ),
{
    lemma_subst_clause_unread(c, m);
    match c {
        ClauseV::Match { optional, pattern, where_ } => {
            lemma_match_unread(pattern, where_, m);
            lemma_subst_opt_unread(where_, m);
            let f = |r: spec_fn(Seq<char>) -> V| matched(optional, pattern, where_, run, r);
            assert forall|k: int| 0 <= k < a.len() implies all_alike(
                m,
                run.ev,
                none(),
                f(#[trigger] a[k]),
                f(b[k]),
            ) by {
                assert(alike(m, run.ev, none(), a[k], b[k]));
                clause_law::lemma_matched(optional, pattern, where_, m, run, none(), a[k], b[k]);
            }
            clause_law::lemma_flat_alike(m, run.ev, none(), a, b, f, f);
        },
        ClauseV::Unwind { expr, alias } => {
            lemma_open_unread(expr, m);
            lemma_subst_unread(expr, m);
            let f = |r: spec_fn(Seq<char>) -> V| unwound(expr, alias, run, r);
            assert forall|k: int| 0 <= k < a.len() implies all_alike(
                m,
                run.ev,
                none(),
                f(#[trigger] a[k]),
                f(b[k]),
            ) by {
                assert(alike(m, run.ev, none(), a[k], b[k]));
                clause_law::lemma_unwound(expr, alias, m, run, none(), a[k], b[k]);
            }
            clause_law::lemma_flat_alike(m, run.ev, none(), a, b, f, f);
        },
        ClauseV::With { proj, where_ } => {
            lemma_proj_unread(proj, where_, m);
            clause_law::lemma_rows_made(proj, where_, m, run, none(), none(), a, b);
        },
        ClauseV::Return { proj } => {
            lemma_proj_unread(proj, None, m);
            clause_law::lemma_rows_made(proj, None, m, run, none(), none(), a, b);
        },
        ClauseV::Other(_) => {},
    }
}

pub proof fn lemma_match_unread(pattern: query::PatternV, where_: Option<ExprV>, m: Map<
    Seq<char>,
    ExprV,
>)
    requires
        forall|x: Seq<char>| #[trigger]
            m.contains_key(x) ==> !pattern_names(pattern, x) && !opt_reads(where_, x),
    ensures
        match_open(pattern, where_, m, none()),
{
    if let Some(e) = where_ {
        lemma_open_unread(e, m);
    }
    assert forall|j: int, k: int, rel: bool|
        (#[trigger] props_at(pattern, j, k, rel)) matches Some(e) implies open_to(
        props_at(pattern, j, k, rel)->0,
        m,
        none(),
    ) by {
        let e = props_at(pattern, j, k, rel)->0;
        assert forall|x: Seq<char>| #[trigger] m.contains_key(x) implies !ast::reads(e, x) by {
            if ast::reads(e, x) {
                let p = pattern.paths[j];
                if k != 0 {
                    assert(rel_names(p.hops[k - 1].0, x) || node_names(p.hops[k - 1].1, x));
                }
                assert(path_names(pattern.paths[j], x));
            }
        }
        lemma_open_unread(e, m);
    }
    let id = Map::<Seq<char>, ExprV>::empty();
    assert forall|x: Seq<char>| #[trigger] m.contains_key(x) implies !pattern_names(
        bare(pattern),
        x,
    ) by {
        if pattern_names(bare(pattern), x) {
            clause_law::lemma_bare_names(pattern, id, x);
            lemma_subst_clause_unread(
                ClauseV::Match { optional: false, pattern, where_ },
                id,
            );
        }
    }
}

/// Whether the same things stand at the same places of two sequences.
spec fn same_pattern<A, B>(ks: Seq<A>, ls: Seq<B>) -> bool {
    &&& ks.len() == ls.len()
    &&& forall|i: int, j: int|
        #![trigger ks[i], ks[j]]
        #![trigger ls[i], ls[j]]
        0 <= i < ks.len() && 0 <= j < ks.len() ==> ((ks[i] == ks[j]) <==> (ls[i] == ls[j]))
}

proof fn lemma_same_pattern<A, B>(ks: Seq<A>, ls: Seq<B>)
    requires
        same_pattern(ks, ls),
    ensures
        first_places(ks) == first_places(ls),
        forall|i: int|
            0 <= i < ks.len() ==> #[trigger] same_places(ks, i) == same_places(ls, i),
{
    let n = ks.len();
    let f = |i: int| forall|j: int| 0 <= j < i ==> #[trigger] ks[j] != ks[i];
    let g = |i: int| forall|j: int| 0 <= j < i ==> #[trigger] ls[j] != ls[i];
    assert forall|k: int| 0 <= k < n implies #[trigger] f(places(n)[k]) == g(places(n)[k]) by {
        if f(k) {
            assert forall|j: int| 0 <= j < k implies #[trigger] ls[j] != ls[k] by {
                assert(ks[j] != ks[k]);
            }
        }
        if g(k) {
            assert forall|j: int| 0 <= j < k implies #[trigger] ks[j] != ks[k] by {
                assert(ls[j] != ls[k]);
            }
        }
    }
    seqs::lemma_filter_same(places(n), f, g);
    assert forall|i: int| 0 <= i < n implies #[trigger] same_places(ks, i) == same_places(ls, i) by {
        let u = |j: int| ks[j] == ks[i];
        let v = |j: int| ls[j] == ls[i];
        assert forall|k: int| 0 <= k < n implies #[trigger] u(places(n)[k]) == v(places(n)[k]) by {
            assert(ks[k] == ks[i] <==> ls[k] == ls[i]);
        }
        seqs::lemma_filter_same(places(n), u, v);
    }
}

/// Where the same stands everywhere, it stands first at the first place.
proof fn lemma_one_pattern<A>(ks: Seq<A>)
    requires
        ks.len() > 0,
        forall|i: int| 0 <= i < ks.len() ==> #[trigger] ks[i] == ks[0],
    ensures
        first_places(ks) == seq![0int],
        same_places(ks, 0) == places(ks.len()),
{
    let n = ks.len();
    let f = |i: int| forall|j: int| 0 <= j < i ==> #[trigger] ks[j] != ks[i];
    lemma_only_first(n, f, ks);
    let u = |j: int| ks[j] == ks[0];
    let t = |j: int| true;
    assert forall|k: int| 0 <= k < n implies #[trigger] u(places(n)[k]) == t(places(n)[k]) by {
        assert(ks[k] == ks[0]);
    }
    seqs::lemma_filter_same(places(n), u, t);
    lemma_filter_all(places(n), t);
}

pub proof fn lemma_filter_all<A>(s: Seq<A>, f: spec_fn(A) -> bool)
    requires
        forall|i: int| 0 <= i < s.len() ==> f(#[trigger] s[i]),
    ensures
        s.filter(f) == s,
    decreases s.len(),
{
    reveal(Seq::filter);
    if s.len() > 0 {
        let p = s.drop_last();
        assert forall|i: int| 0 <= i < p.len() implies f(#[trigger] p[i]) by {
            assert(s[i] == p[i]);
        }
        lemma_filter_all(p, f);
        assert(f(s[s.len() - 1]));
        assert(p.push(s.last()) =~= s);
    } else {
        assert(s.filter(f) =~= s);
    }
}

proof fn lemma_only_first<A>(n: nat, f: spec_fn(int) -> bool, ks: Seq<A>)
    requires
        0 < n <= ks.len(),
        f == (|i: int| forall|j: int| 0 <= j < i ==> #[trigger] ks[j] != ks[i]),
        forall|i: int| 0 <= i < ks.len() ==> #[trigger] ks[i] == ks[0],
    ensures
        places(n).filter(f) == seq![0int],
    decreases n,
{
    let s = places(n);
    seqs::lemma_filter_last(s, f);
    assert(s.drop_last() =~= places((n - 1) as nat));
    assert(s.last() == n - 1);
    if n == 1 {
        seqs::lemma_filter_empty(f);
        assert(s.drop_last() =~= Seq::empty());
        assert(f(0));
        assert(s.filter(f) =~= seq![0int]);
    } else {
        lemma_only_first((n - 1) as nat, f, ks);
        assert(!f(n - 1)) by {
            assert(ks[0] == ks[n - 1]);
        }
    }
}

/// An expression without an aggregate comes to what it comes to for the first row.
pub proof fn lemma_plain_value<V>(
    e: ExprV,
    run: RunV<V>,
    rows: Seq<spec_fn(Seq<char>) -> V>,
    first: spec_fn(Seq<char>) -> V,
)
    requires
        !folds(e),
    ensures
        grouped_value(e, run, rows, first) == value_of(e, run.ev, first),
    decreases e, e.args.len() + 1,
{
    match e.head {
        HeadV::Var(_) => {},
        HeadV::Pattern(_) => {},
        HeadV::Opaque(_) => {},
        _ => {
            lemma_plain_args(e, e.args.len(), run, rows, first);
        },
    }
}

proof fn lemma_plain_args<V>(
    e: ExprV,
    n: nat,
    run: RunV<V>,
    rows: Seq<spec_fn(Seq<char>) -> V>,
    first: spec_fn(Seq<char>) -> V,
)
    requires
        !folds(e),
        n <= e.args.len(),
        !(e.head is Var) && !(e.head is Pattern) && !(e.head is Opaque),
    ensures
        grouped_values(e, n, run, rows, first) == values_of(e, n, run.ev, first),
    decreases e, n,
{
    if n > 0 {
        lemma_plain_args(e, (n - 1) as nat, run, rows, first);
        assert(!folds(e.args[n - 1]));
        lemma_plain_value(e.args[n - 1], run, rows, first);
    }
}

/// A projection without one of its items.
pub open spec fn without(p: ProjV, d: int) -> ProjV {
    ProjV { items: p.items.remove(d), ..p }
}

/// Whether an item of a projection comes to the same in every row, and neither the
/// order nor a condition looks at its column; where it is the last key, there is a row.
pub open spec fn droppable<V>(
    p: ProjV,
    where_: Option<ExprV>,
    d: int,
    run: RunV<V>,
    t: Seq<spec_fn(Seq<char>) -> V>,
) -> bool {
    &&& 0 <= d < p.items.len()
    &&& !folds(p.items[d].expr)
    &&& forall|i: int, j: int|
        0 <= i < t.len() && 0 <= j < t.len() ==> value_of(p.items[d].expr, run.ev, #[trigger] t[i])
            == value_of(p.items[d].expr, run.ev, #[trigger] t[j])
    &&& forall|i: int|
        0 <= i < p.order.len() ==> !ast::reads(
            (#[trigger] p.order[i]).expr,
            query::column_of(p.items[d]),
        )
    &&& !opt_reads(where_, query::column_of(p.items[d]))
    &&& query::columns_of(p.items).no_duplicates()
    &&& aggregating(p) && !keyed(without(p, d)).contains(true) ==> t.len() > 0
}

/// The place of an item once another is gone.
spec fn at(d: int, k: int) -> int {
    if k < d {
        k
    } else {
        k + 1
    }
}

/// Dropping a constant item keeps the groups.
proof fn lemma_groups_without<V>(
    p: ProjV,
    where_: Option<ExprV>,
    d: int,
    run: RunV<V>,
    t: Seq<spec_fn(Seq<char>) -> V>,
)
    requires
        droppable(p, where_, d, run, t),
    ensures
        groups_in(p, run, t) == groups_in(without(p, d), run, t),
        forall|g: int|
            0 <= g < groups_in(p, run, t).len() ==> {
                let ix = #[trigger] groups_in(p, run, t)[g];
                ix.len() > 0 && forall|i: int| 0 <= i < ix.len() ==> 0 <= #[trigger] ix[i] < t.len()
            },
{
    let q = without(p, d);
    assert forall|k: int| 0 <= k < q.items.len() implies (#[trigger] q.items[k]) == p.items[at(d, k)] by {}
    assert(aggregating(q) == aggregating(p)) by {
        if aggregating(p) {
            let i = choose|i: int| 0 <= i < p.items.len() && folds((#[trigger] p.items[i]).expr);
            let k = if i < d {
                i
            } else {
                i - 1
            };
            assert(i != d);
            assert(q.items[k] == p.items[i]);
        }
        if aggregating(q) {
            let k = choose|k: int| 0 <= k < q.items.len() && folds((#[trigger] q.items[k]).expr);
            assert(folds(p.items[at(d, k)].expr));
        }
    }
    assert(keyed(p)[d]);
    assert(keyed(p).contains(true));
    let ks = keys_of(p, run, t);
    let ls = keys_of(q, run, t);
    assert forall|i: int, j: int| 0 <= i < t.len() && 0 <= j < t.len() implies ((ks[i] == ks[j])
        <==> (ls[i] == ls[j])) by {
        assert(ks[i][d] == ks[j][d]);
        if ks[i] == ks[j] {
            assert forall|k: int| 0 <= k < q.items.len() implies ls[i][k] == ls[j][k] by {
                assert(q.items[k] == p.items[at(d, k)]);
                assert(ls[i][k] == ks[i][at(d, k)]);
                assert(ls[j][k] == ks[j][at(d, k)]);
            }
            assert(ls[i] =~= ls[j]);
        }
        if ls[i] == ls[j] {
            assert forall|k: int| 0 <= k < p.items.len() implies ks[i][k] == ks[j][k] by {
                if k != d {
                    let r = if k < d {
                        k
                    } else {
                        k - 1
                    };
                    assert(q.items[r] == p.items[k]);
                    assert(ls[i][r] == ks[i][k]);
                    assert(ls[j][r] == ks[j][k]);
                }
            }
            assert(ks[i] =~= ks[j]);
        }
    }
    assert(same_pattern(ks, ls));
    lemma_same_pattern(ks, ls);
    clause_law::lemma_first_places(ks);
    let gs = groups_in(p, run, t);
    if aggregating(p) {
        let firsts = first_places(ks);
        assert forall|g: int| 0 <= g < gs.len() implies {
            let ix = #[trigger] gs[g];
            ix.len() > 0 && forall|i: int| 0 <= i < ix.len() ==> 0 <= #[trigger] ix[i] < t.len()
        } by {
            clause_law::lemma_same_places(ks, firsts[g]);
        }
        if keyed(q).contains(true) {
            assert forall|g: int| 0 <= g < gs.len() implies gs[g] == groups_in(q, run, t)[g] by {
                assert(same_places(ks, firsts[g]) == same_places(ls, firsts[g]));
            }
            assert(gs =~= groups_in(q, run, t));
        } else {
            assert forall|i: int| 0 <= i < ks.len() implies #[trigger] ks[i] == ks[0] by {
                assert forall|k: int| 0 <= k < q.items.len() implies ls[i][k] == ls[0][k] by {
                    if !folds(q.items[k].expr) {
                        assert(keyed(q)[k]);
                        assert(keyed(q).contains(true));
                    }
                }
                assert(ls[i] =~= ls[0]);
            }
            lemma_one_pattern(ks);
            assert(gs =~= seq![places(t.len())]);
        }
    } else {
        assert(gs =~= groups_in(q, run, t));
    }
}

/// A name that is left out of account.
pub open spec fn only(x: Seq<char>) -> Map<Seq<char>, ExprV> {
    Map::empty().insert(x, null_expr())
}

/// A constant that nothing reads.
pub open spec fn null_expr() -> ExprV {
    ExprV { head: HeadV::Null, args: Seq::empty() }
}

/// What the columns that are left stand for stays.
proof fn lemma_named_without<V>(
    p: ProjV,
    d: int,
    vp: Seq<V>,
    vq: Seq<V>,
    x: Seq<char>,
)
    requires
        0 <= d < p.items.len(),
        query::columns_of(p.items).no_duplicates(),
        vp.len() == p.items.len(),
        vq == vp.remove(d),
        x != query::column_of(p.items[d]),
    ensures
        ({
            let np = named(query::columns_of(p.items), vp);
            let nq = named(query::columns_of(without(p, d).items), vq);
            np.contains_key(x) == nq.contains_key(x) && (np.contains_key(x) ==> np[x] == nq[x])
        }),
{
    let q = without(p, d);
    let cp = query::columns_of(p.items);
    let cq = query::columns_of(q.items);
    assert forall|k: int| 0 <= k < cq.len() implies #[trigger] cq[k] == cp[at(d, k)] by {}
    if cp.contains(x) {
        let i = cp.index_of(x);
        assert(0 <= i < cp.len() && cp[i] == x) by {
            let j = choose|j: int| 0 <= j < cp.len() && cp[j] == x;
        }
        assert(i != d);
        let k = if i < d {
            i
        } else {
            i - 1
        };
        assert(cq[k] == x);
        assert(cq.contains(x));
        let r = cq.index_of(x);
        assert(0 <= r < cq.len() && cq[r] == x);
        assert(cp[at(d, r)] == x);
        assert(at(d, r) == i);
        assert(vq[r] == vp[i]);
    }
    if cq.contains(x) {
        let k = choose|k: int| 0 <= k < cq.len() && cq[k] == x;
        assert(cp[at(d, k)] == x);
        assert(cp.contains(x));
    }
}

/// Dropping a constant item keeps what an entry is ordered by and asked for.
proof fn lemma_entry_without<V>(
    p: ProjV,
    where_: Option<ExprV>,
    d: int,
    run: RunV<V>,
    t: Seq<spec_fn(Seq<char>) -> V>,
    ix: Seq<int>,
)
    requires
        looks_only(run.ev),
        droppable(p, where_, d, run, t),
    ensures
        vals_of(without(p, d), run, t, ix) == vals_of(p, run, t, ix).remove(d),
        entry(p, run, t, ix).ords == entry(without(p, d), run, t, ix).ords,
        passes(where_, run, seen(p, run, t, ix)) == passes(
            where_,
            run,
            seen(without(p, d), run, t, ix),
        ),
        alike(
            only(query::column_of(p.items[d])),
            run.ev,
            none(),
            row_made(p, run, t, ix),
            row_made(without(p, d), run, t, ix),
        ),
{
    let q = without(p, d);
    let x = query::column_of(p.items[d]);
    let m = only(x);
    let vp = vals_of(p, run, t, ix);
    let vq = vals_of(q, run, t, ix);
    assert forall|k: int| 0 <= k < vq.len() implies vq[k] == vp.remove(d)[k] by {
        assert(q.items[k] == p.items[at(d, k)]);
    }
    assert(vq =~= vp.remove(d));
    let rows = rows_at(t, ix);
    let sp = seen(p, run, t, ix);
    let sq = seen(q, run, t, ix);
    assert forall|y: Seq<char>| !m.contains_key(y) implies #[trigger] sp(y) == sq(y) by {
        assert(y != x);
        lemma_named_without(p, d, vp, vq, y);
    }
    assert(constants(m));
    assert(all_alike(m, run.ev, none(), rows, rows));
    let op = entry(p, run, t, ix).ords;
    let oq = entry(q, run, t, ix).ords;
    assert forall|i: int| 0 <= i < op.len() implies op[i] == oq[i] by {
        let e = p.order[i].expr;
        assert forall|y: Seq<char>| #[trigger] m.contains_key(y) implies !ast::reads(e, y) by {
            assert(y == x);
            assert(!ast::reads(p.order[i].expr, x));
        }
        lemma_open_unread(e, m);
        lemma_subst_unread(e, m);
        assert forall|y: Seq<char>| #[trigger]
            m.contains_key(y) && reads_outside(e, y) implies sp(y) == clause_law::constant(
            run.ev,
            m[y],
        ) by {
            clause_law::lemma_outside(e, y);
        }
        clause_law::lemma_grouped(e, m, run, none(), rows, rows, sp, sq);
    }
    assert(op =~= oq);
    if let Some(e) = where_ {
        assert forall|y: Seq<char>| ast::reads(e, y) implies #[trigger] sp(y) == sq(y) by {
            assert(y != x);
            assert(!m.contains_key(y));
        }
        clause_law::lemma_looks(e, run.ev, sp, sq);
    }
    let rp = row_made(p, run, t, ix);
    let rq = row_made(q, run, t, ix);
    assert forall|y: Seq<char>| !m.contains_key(y) implies #[trigger] rp(y) == rq(y) by {
        assert(y != x);
        lemma_named_without(p, d, vp, vq, y);
    }
}

/// Dropping a constant item keeps the rows of a projection, but for its column.
proof fn lemma_rows_without<V>(
    p: ProjV,
    where_: Option<ExprV>,
    d: int,
    run: RunV<V>,
    t: Seq<spec_fn(Seq<char>) -> V>,
)
    requires
        looks_only(run.ev),
        arranges_own(run),
        droppable(p, where_, d, run, t),
    ensures
        all_alike(
            only(query::column_of(p.items[d])),
            run.ev,
            none(),
            rows_made(p, where_, run, t),
            rows_made(without(p, d), where_, run, t),
        ),
{
    let q = without(p, d);
    let m = only(query::column_of(p.items[d]));
    lemma_groups_without(p, where_, d, run, t);
    let gs = groups_in(p, run, t);
    let ep = gs.map_values(|ix: Seq<int>| entry(p, run, t, ix));
    let eq = gs.map_values(|ix: Seq<int>| entry(q, run, t, ix));
    let ks = ep.map_values(|e: EntryV<V>| e.vals.map_values(run.counts_as));
    let ls = eq.map_values(|e: EntryV<V>| e.vals.map_values(run.counts_as));
    assert forall|g: int| 0 <= g < gs.len() implies {
        &&& #[trigger] ks[g].len() == p.items.len()
        &&& ls[g] == ks[g].remove(d)
        &&& ks[g][d] == (run.counts_as)(value_of(p.items[d].expr, run.ev, t[gs[g][0]]))
        &&& 0 <= gs[g][0] < t.len()
        &&& ep[g].ords == eq[g].ords
    } by {
        let ix = gs[g];
        lemma_entry_without(p, where_, d, run, t, ix);
        assert(ls[g] =~= ks[g].remove(d));
        lemma_plain_value(p.items[d].expr, run, rows_at(t, ix), first_at(run, t, ix));
    }
    assert forall|i: int, j: int| 0 <= i < gs.len() && 0 <= j < gs.len() implies ((ks[i] == ks[j])
        <==> (ls[i] == ls[j])) by {
        assert(ks[i].len() == p.items.len() && ks[j].len() == p.items.len());
        assert(value_of(p.items[d].expr, run.ev, t[gs[i][0]]) == value_of(
            p.items[d].expr,
            run.ev,
            t[gs[j][0]],
        ));
        if ls[i] == ls[j] {
            assert forall|k: int| 0 <= k < p.items.len() implies ks[i][k] == ks[j][k] by {
                if k < d {
                    assert(ls[i][k] == ks[i][k] && ls[j][k] == ks[j][k]);
                } else if k > d {
                    assert(ls[i][k - 1] == ks[i][k] && ls[j][k - 1] == ks[j][k]);
                }
            }
            assert(ks[i] =~= ks[j]);
        }
    }
    assert(same_pattern(ks, ls));
    lemma_same_pattern(ks, ls);
    let ps = told_apart(p, run, ep);
    assert(ps == told_apart(q, run, eq));
    clause_law::lemma_first_places(ks);
    assert forall|k: int| 0 <= k < ps.len() implies 0 <= #[trigger] ps[k] < gs.len() by {}
    assert(ps.map_values(|k: int| ep[k].ords) =~= ps.map_values(|k: int| eq[k].ords)) by {
        assert forall|k: int| 0 <= k < ps.len() implies ep[ps[k]].ords == eq[ps[k]].ords by {
            assert(ks[ps[k]].len() == p.items.len());
        }
    }
    let picks = entries_kept(p, run, ep);
    assert(page_of(p, run) == page_of(q, run));
    assert(picks == entries_kept(q, run, eq));
    clause_law::lemma_entries_kept(p, run, ep);
    let all = picks.map_values(|k: int| gs[k]);
    let f = |ix: Seq<int>| passes(where_, run, seen(p, run, t, ix));
    let g = |ix: Seq<int>| passes(where_, run, seen(q, run, t, ix));
    assert forall|i: int| 0 <= i < all.len() implies #[trigger] f(all[i]) == g(all[i]) by {
        lemma_entry_without(p, where_, d, run, t, all[i]);
    }
    seqs::lemma_filter_same(all, f, g);
    let kept = groups_kept(p, where_, run, t);
    assert(kept == all.filter(f));
    assert(kept == groups_kept(q, where_, run, t));
    let a = rows_made(p, where_, run, t);
    let b = rows_made(q, where_, run, t);
    assert forall|i: int| 0 <= i < a.len() implies alike(
        m,
        run.ev,
        none(),
        #[trigger] a[i],
        b[i],
    ) by {
        lemma_entry_without(p, where_, d, run, t, kept[i]);
    }
}

proof fn lemma_filter_remove<A>(s: Seq<A>, d: int, keep: spec_fn(A) -> bool)
    requires
        0 <= d < s.len(),
        !keep(s[d]),
    ensures
        s.remove(d).filter(keep) == s.filter(keep),
{
    let a = s.take(d);
    let x = seq![s[d]];
    let b = s.skip(d + 1);
    assert(s =~= a + x + b);
    assert(s.remove(d) =~= a + b);
    Seq::filter_distributes_over_add(a + x, b, keep);
    Seq::filter_distributes_over_add(a, x, keep);
    Seq::filter_distributes_over_add(a, b, keep);
    seqs::lemma_filter_last(x, keep);
    assert(x.drop_last() =~= Seq::empty());
    seqs::lemma_filter_empty(keep);
    assert(a.filter(keep) + x.filter(keep) =~= a.filter(keep));
}

pub proof fn lemma_all_alike_trans<V>(
    m: Map<Seq<char>, ExprV>,
    l: Map<Seq<char>, ExprV>,
    run: RunV<V>,
    a: Seq<spec_fn(Seq<char>) -> V>,
    b: Seq<spec_fn(Seq<char>) -> V>,
    c: Seq<spec_fn(Seq<char>) -> V>,
)
    requires
        all_alike(l, run.ev, none(), a, b),
        all_alike(m, run.ev, none(), b, c),
        forall|x: Seq<char>| #[trigger] l.contains_key(x) ==> m.contains_key(x),
    ensures
        all_alike(m, run.ev, none(), a, c),
{
    assert forall|i: int| 0 <= i < a.len() implies alike(
        m,
        run.ev,
        none(),
        #[trigger] a[i],
        c[i],
    ) by {
        let u = a[i];
        let v = b[i];
        let w = c[i];
        assert(alike(l, run.ev, none(), a[i], b[i]));
        assert(alike(m, run.ev, none(), b[i], c[i]));
        assert forall|x: Seq<char>| !m.contains_key(x) implies #[trigger] u(x) == w(x) by {
            assert(!l.contains_key(x));
            assert(u(x) == v(x));
            assert(v(x) == w(x));
        }
    }
}

/// A projection with only some of its items.
pub open spec fn with_items(p: ProjV, keep: spec_fn(ItemV) -> bool) -> ProjV {
    ProjV { items: p.items.filter(keep), ..p }
}

/// Whether the items of a projection that are not kept come to the same in every row,
/// and neither the order nor a condition looks at their columns; where no key is kept,
/// there is a row.
pub open spec fn all_droppable<V>(
    p: ProjV,
    where_: Option<ExprV>,
    keep: spec_fn(ItemV) -> bool,
    m: Map<Seq<char>, ExprV>,
    run: RunV<V>,
    t: Seq<spec_fn(Seq<char>) -> V>,
) -> bool {
    &&& forall|d: int|
        0 <= d < p.items.len() && !keep(#[trigger] p.items[d]) ==> {
            &&& !folds(p.items[d].expr)
            &&& forall|i: int, j: int|
                0 <= i < t.len() && 0 <= j < t.len() ==> value_of(
                    p.items[d].expr,
                    run.ev,
                    #[trigger] t[i],
                ) == value_of(p.items[d].expr, run.ev, #[trigger] t[j])
            &&& forall|i: int|
                0 <= i < p.order.len() ==> !ast::reads(
                    (#[trigger] p.order[i]).expr,
                    query::column_of(p.items[d]),
                )
            &&& !opt_reads(where_, query::column_of(p.items[d]))
            &&& m.contains_key(query::column_of(p.items[d]))
        }
    &&& query::columns_of(p.items).no_duplicates()
    &&& aggregating(p) && !keyed(with_items(p, keep)).contains(true) ==> t.len() > 0
}

/// Dropping constant items keeps the rows of a projection, but for their columns.
pub proof fn lemma_rows_trimmed<V>(
    p: ProjV,
    where_: Option<ExprV>,
    keep: spec_fn(ItemV) -> bool,
    m: Map<Seq<char>, ExprV>,
    run: RunV<V>,
    t: Seq<spec_fn(Seq<char>) -> V>,
)
    requires
        looks_only(run.ev),
        arranges_own(run),
        all_droppable(p, where_, keep, m, run, t),
    ensures
        all_alike(
            m,
            run.ev,
            none(),
            rows_made(p, where_, run, t),
            rows_made(with_items(p, keep), where_, run, t),
        ),
    decreases p.items.len(),
{
    if exists|d: int| 0 <= d < p.items.len() && !keep(#[trigger] p.items[d]) {
        let d = choose|d: int| 0 <= d < p.items.len() && !keep(#[trigger] p.items[d]);
        let q = without(p, d);
        lemma_filter_remove(p.items, d, keep);
        assert(with_items(q, keep) == with_items(p, keep));
        assert forall|k: int| 0 <= k < q.items.len() implies (#[trigger] q.items[k])
            == p.items[at(d, k)] by {}
        assert(query::columns_of(q.items).no_duplicates()) by {
            let cp = query::columns_of(p.items);
            let cq = query::columns_of(q.items);
            assert forall|i: int, j: int|
                0 <= i < cq.len() && 0 <= j < cq.len() && i != j implies cq[i] != cq[j] by {
                assert(q.items[i] == p.items[at(d, i)] && q.items[j] == p.items[at(d, j)]);
                assert(cp[at(d, i)] != cp[at(d, j)]);
            }
        }
        if !keyed(q).contains(true) {
            let f = with_items(p, keep);
            if keyed(f).contains(true) {
                let k = choose|k: int| 0 <= k < keyed(f).len() && keyed(f)[k] == true;
                let it = f.items[k];
                assert(q.items.filter(keep).contains(it)) by {
                    assert(f.items[k] == it);
                }
                seqs::lemma_filter_contains(q.items, keep, it);
                let r = choose|r: int| 0 <= r < q.items.len() && q.items[r] == it;
                assert(keyed(q)[r]);
                assert(keyed(q).contains(true));
            }
        }
        if aggregating(q) {
            let k = choose|k: int| 0 <= k < q.items.len() && folds((#[trigger] q.items[k]).expr);
            assert(folds(p.items[at(d, k)].expr));
        }
        lemma_rows_without(p, where_, d, run, t);
        lemma_rows_trimmed(q, where_, keep, m, run, t);
        lemma_all_alike_trans(
            m,
            only(query::column_of(p.items[d])),
            run,
            rows_made(p, where_, run, t),
            rows_made(q, where_, run, t),
            rows_made(with_items(p, keep), where_, run, t),
        );
    } else {
        lemma_filter_all(p.items, keep);
        let a = rows_made(p, where_, run, t);
        assert forall|i: int| 0 <= i < a.len() implies alike(
            m,
            run.ev,
            none(),
            #[trigger] a[i],
            a[i],
        ) by {}
    }
}

/// Whether a name is that of a constant that a projection of the first `n` clauses
/// binds and nothing after it names.
pub open spec fn gone(cs: Seq<ClauseV>, n: nat, x: Seq<char>) -> bool {
    exists|j: int, k: int|
        0 <= j < n && j < cs.len() && #[trigger] gone_at(cs, j, k, x)
}

/// Whether a name is that of a constant that an item of a projection binds and nothing
/// after it names.
pub open spec fn gone_at(cs: Seq<ClauseV>, j: int, k: int, x: Seq<char>) -> bool {
    cs[j] matches ClauseV::With { proj, where_ } && 0 <= k < proj.items.len() && dead(
        proj.items[k],
        cs.skip(j + 1),
        where_,
    ) && query::column_of(proj.items[k]) == x
}

/// The names of constants that nothing names any more after the first `n` clauses.
pub open spec fn gone_names(cs: Seq<ClauseV>, n: nat) -> Map<Seq<char>, ExprV> {
    Map::new(|x: Seq<char>| gone(cs, n, x), |x: Seq<char>| null_expr())
}

/// Whether the constants that nothing reads can be dropped from a projection, where
/// that drops some: its columns differ, its order looks at none of them, and where they
/// are all the keys that it groups by, there is a row.
pub open spec fn trims_well(p: ProjV, where_: Option<ExprV>, tail: Seq<ClauseV>, rows: nat) -> bool {
    &&& names_own(p)
    &&& trimmed(ClauseV::With { proj: p, where_ }, tail) != (ClauseV::With { proj: p, where_ }) ==> {
        &&& query::columns_of(p.items).no_duplicates()
        &&& forall|i: int, k: int|
            0 <= i < p.order.len() && 0 <= k < p.items.len() && dead(
                #[trigger] p.items[k],
                tail,
                where_,
            ) ==> !ast::reads((#[trigger] p.order[i]).expr, query::column_of(p.items[k]))
        &&& aggregating(p) && !keyed(
            with_items(p, |it: ItemV| !dead(it, tail, where_)),
        ).contains(true) ==> rows > 0
    }
}

/// Whether the constants that nothing reads can be dropped from clauses that only read.
pub open spec fn all_trim_well<V>(
    cs: Seq<ClauseV>,
    run: RunV<V>,
    t: Seq<spec_fn(Seq<char>) -> V>,
) -> bool {
    forall|i: int|
        0 <= i < cs.len() ==> match #[trigger] cs[i] {
            ClauseV::With { proj, where_ } => trims_well(
                proj,
                where_,
                cs.skip(i + 1),
                rows_after(cs, i as nat, run, t).len(),
            ),
            ClauseV::Return { proj } => names_own(proj),
            ClauseV::Other(_) => false,
            _ => true,
        }
}

pub proof fn lemma_unfolded(e: ExprV)
    requires
        !ast::has_aggregate(e),
    ensures
        !folds(e),
    decreases e,
{
    if folds(e) {
        let i = choose|i: int| 0 <= i < e.args.len() && folds(#[trigger] e.args[i]);
        assert(!ast::has_aggregate(e.args[i]));
        lemma_unfolded(e.args[i]);
    }
}

proof fn lemma_reads_none(e: ExprV, x: Seq<char>)
    requires
        !ast::reads_any(e),
    ensures
        !ast::reads(e, x),
    decreases e,
{
    if ast::reads(e, x) && e.head != HeadV::Var(x) {
        let i = choose|i: int| 0 <= i < e.args.len() && ast::reads(#[trigger] e.args[i], x);
        assert(!ast::reads_any(e.args[i]));
        lemma_reads_none(e.args[i], x);
    }
}

/// What is gone is not named.
proof fn lemma_gone_unnamed(cs: Seq<ClauseV>, n: nat, x: Seq<char>)
    requires
        n < cs.len(),
        gone(cs, n, x),
    ensures
        !clause_names(cs[n as int], x),
{
    let (j, k) = choose|j: int, k: int|
        0 <= j < n && j < cs.len() && #[trigger] gone_at(cs, j, k, x);
    let tail = cs.skip(j + 1);
    assert(tail[n - j - 1] == cs[n as int]);
}

/// Constants that nothing reads may be dropped: clauses make the same rows without them,
/// but for the names that are dropped, and return the same.
pub proof fn law_trimmed_keeps_rows<V>(
    cs: Seq<ClauseV>,
    n: nat,
    run: RunV<V>,
    t: Seq<spec_fn(Seq<char>) -> V>,
)
    requires
        n <= cs.len(),
        looks_only(run.ev),
        matches_own(run),
        arranges_own(run),
        all_trim_well(cs, run, t),
    ensures
        rows_after(cs, n, run, t).len() == rows_after(all_trimmed(cs), n, run, t).len(),
        forall|i: int, x: Seq<char>|
            0 <= i < rows_after(cs, n, run, t).len() && !gone(cs, n, x) ==> #[trigger] rows_after(
                cs,
                n,
                run,
                t,
            )[i](x) == rows_after(all_trimmed(cs), n, run, t)[i](x),
        n > 0 && cs[n - 1] is Return ==> answer(
            cs[n - 1]->Return_proj,
            rows_after(cs, n, run, t),
        ) == answer(cs[n - 1]->Return_proj, rows_after(all_trimmed(cs), n, run, t)),
{
    lemma_trimmed(cs, n, run, t);
    let a = rows_after(cs, n, run, t);
    let b = rows_after(all_trimmed(cs), n, run, t);
    assert forall|i: int, x: Seq<char>| 0 <= i < a.len() && !gone(cs, n, x) implies #[trigger] a[i](
        x,
    ) == b[i](x) by {
        assert(alike(gone_names(cs, n), run.ev, none(), a[i], b[i]));
        assert(!gone_names(cs, n).contains_key(x));
    }
}

proof fn lemma_trimmed<V>(
    cs: Seq<ClauseV>,
    n: nat,
    run: RunV<V>,
    t: Seq<spec_fn(Seq<char>) -> V>,
)
    requires
        n <= cs.len(),
        looks_only(run.ev),
        matches_own(run),
        arranges_own(run),
        all_trim_well(cs, run, t),
    ensures
        all_alike(
            gone_names(cs, n),
            run.ev,
            none(),
            rows_after(cs, n, run, t),
            rows_after(all_trimmed(cs), n, run, t),
        ),
        n > 0 && cs[n - 1] is Return ==> answer(
            cs[n - 1]->Return_proj,
            rows_after(cs, n, run, t),
        ) == answer(cs[n - 1]->Return_proj, rows_after(all_trimmed(cs), n, run, t)),
    decreases n,
{
    let m = gone_names(cs, n);
    if n == 0 {
        assert forall|i: int| 0 <= i < t.len() implies alike(
            m,
            run.ev,
            none(),
            #[trigger] t[i],
            t[i],
        ) by {}
    } else {
        let k = (n - 1) as nat;
        lemma_trimmed(cs, k, run, t);
        let l = gone_names(cs, k);
        let c = cs[n - 1];
        let tail = cs.skip(n as int);
        let d = all_trimmed(cs)[n - 1];
        assert(d == trimmed(c, tail));
        let a = rows_after(cs, k, run, t);
        let b = rows_after(all_trimmed(cs), k, run, t);
        assert(constants(l));
        assert forall|x: Seq<char>| #[trigger] l.contains_key(x) implies !clause_names(c, x) by {
            lemma_gone_unnamed(cs, k, x);
        }
        lemma_clause_unread(c, l, run, a, b);
        assert forall|x: Seq<char>| #[trigger] l.contains_key(x) implies m.contains_key(x) by {
            let (j, i) = choose|j: int, i: int|
                0 <= j < k && j < cs.len() && #[trigger] gone_at(cs, j, i, x);
            assert(gone_at(cs, j, i, x));
        }
        let mid = clause_rows(c, run, b);
        let end = clause_rows(d, run, b);
        if d != c {
            let p = c->With_proj;
            let w = c->With_where_;
            let keep = |it: ItemV| !dead(it, tail, w);
            assert(d == (ClauseV::With { proj: with_items(p, keep), where_: w }));
            assert forall|e: int| 0 <= e < p.items.len() && !keep(#[trigger] p.items[e]) implies {
                &&& !folds(p.items[e].expr)
                &&& forall|i: int, j: int|
                    0 <= i < b.len() && 0 <= j < b.len() ==> value_of(
                        p.items[e].expr,
                        run.ev,
                        #[trigger] b[i],
                    ) == value_of(p.items[e].expr, run.ev, #[trigger] b[j])
                &&& m.contains_key(query::column_of(p.items[e]))
            } by {
                lemma_unfolded(p.items[e].expr);
                assert(gone_at(cs, n - 1, e, query::column_of(p.items[e])));
                assert forall|i: int, j: int| 0 <= i < b.len() && 0 <= j < b.len() implies value_of(
                    p.items[e].expr,
                    run.ev,
                    #[trigger] b[i],
                ) == value_of(p.items[e].expr, run.ev, #[trigger] b[j]) by {
                    let u = b[i];
                    let v = b[j];
                    assert forall|x: Seq<char>| ast::reads(p.items[e].expr, x) implies #[trigger] u(
                        x,
                    ) == v(x) by {
                        lemma_reads_none(p.items[e].expr, x);
                    }
                    clause_law::lemma_looks(p.items[e].expr, run.ev, u, v);
                }
            }
            assert(all_droppable(p, w, keep, m, run, b));
            lemma_rows_trimmed(p, w, keep, m, run, b);
        } else {
            assert forall|i: int| 0 <= i < mid.len() implies alike(
                m,
                run.ev,
                none(),
                #[trigger] mid[i],
                mid[i],
            ) by {}
        }
        lemma_all_alike_trans(m, l, run, clause_rows(c, run, a), mid, end);
    }
}

} // verus!
