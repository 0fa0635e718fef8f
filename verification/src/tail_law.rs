//! A tail that orders and pages may be taken over by the projection after it.

use vstd::prelude::*;

use crate::ast;
use crate::ast::{ExprV, HeadV};
use crate::clause_law::{aggregates, aggregating, arranges_own, clause_rows, entries_kept, entry, first_at, grouped_value, grouped_values, groups_in, groups_kept, lay, named, page_of, places, row_made, rows_after, rows_at, rows_made, seen, told_apart, vals_of, PageV, RunV};
use crate::meaning::looks_only;
use crate::multistage::{as_return, as_with};
use crate::query;
use crate::query::{ClauseV, ProjV};
use crate::split::tail_fused;
use crate::trim_law;

verus! {

/// Whether no order and no page keep everything, in its order.
pub open spec fn arranges_nothing<V>(run: RunV<V>) -> bool {
    forall|pg: PageV<V>, os: Seq<Seq<V>>|
        pg.down.len() == 0 && pg.skip is None && pg.limit is None ==> #[trigger] (run.arranged)(
            pg,
            os,
        ) == places(os.len())
}

/// What an expression comes to for a group looks at the names that it reads.
pub proof fn lemma_grouped_looks<V>(
    e: ExprV,
    run: RunV<V>,
    rows: Seq<spec_fn(Seq<char>) -> V>,
    a: spec_fn(Seq<char>) -> V,
    b: spec_fn(Seq<char>) -> V,
)
    requires
        looks_only(run.ev),
        forall|x: Seq<char>| ast::reads(e, x) ==> #[trigger] a(x) == b(x),
    ensures
        grouped_value(e, run, rows, a) == grouped_value(e, run, rows, b),
    decreases e, e.args.len() + 1,
{
    match e.head {
        HeadV::Var(x) => {
            assert(ast::reads(e, x));
            assert(a(x) == b(x));
        },
        HeadV::Pattern(_) => {},
        HeadV::Opaque(_) => {},
        _ => {
            if !aggregates(e) {
                lemma_grouped_looks_args(e, e.args.len(), run, rows, a, b);
            }
        },
    }
}

proof fn lemma_grouped_looks_args<V>(
    e: ExprV,
    n: nat,
    run: RunV<V>,
    rows: Seq<spec_fn(Seq<char>) -> V>,
    a: spec_fn(Seq<char>) -> V,
    b: spec_fn(Seq<char>) -> V,
)
    requires
        looks_only(run.ev),
        n <= e.args.len(),
        forall|x: Seq<char>| ast::reads(e, x) ==> #[trigger] a(x) == b(x),
    ensures
        grouped_values(e, n, run, rows, a) == grouped_values(e, n, run, rows, b),
    decreases e, n,
{
    if n > 0 {
        lemma_grouped_looks_args(e, (n - 1) as nat, run, rows, a, b);
        let g = e.args[n - 1];
        assert forall|x: Seq<char>| ast::reads(g, x) implies #[trigger] a(x) == b(x) by {
            assert(ast::reads(e.args[n - 1], x));
            assert(ast::reads(e, x));
        }
        lemma_grouped_looks(g, run, rows, a, b);
    }
}

/// The rows of clauses that start alike.
pub proof fn lemma_rows_agree<V>(
    a: Seq<ClauseV>,
    b: Seq<ClauseV>,
    k: nat,
    run: RunV<V>,
    t: Seq<spec_fn(Seq<char>) -> V>,
)
    requires
        k <= a.len(),
        k <= b.len(),
        forall|i: int| 0 <= i < k ==> a[i] == #[trigger] b[i],
    ensures
        rows_after(a, k, run, t) == rows_after(b, k, run, t),
    decreases k,
{
    if k > 0 {
        lemma_rows_agree(a, b, (k - 1) as nat, run, t);
        assert(a[k - 1] == b[k - 1]);
    }
}

/// The places that an order and a page keep of rows that each are an entry.
pub open spec fn picked<V>(p: ProjV, run: RunV<V>, t: Seq<spec_fn(Seq<char>) -> V>) -> Seq<int> {
    (run.arranged)(
        page_of(p, run),
        Seq::new(t.len(), |i: int| entry(p, run, t, seq![i]).ords),
    )
}

/// A projection that neither groups nor tells apart makes a row of each row that its
/// order and page keep.
pub proof fn lemma_one_by_one<V>(p: ProjV, run: RunV<V>, t: Seq<spec_fn(Seq<char>) -> V>)
    requires
        arranges_own(run),
        !aggregating(p),
        !p.distinct,
    ensures
        rows_made(p, None, run, t).len() == picked(p, run, t).len(),
        forall|k: int|
            0 <= k < picked(p, run, t).len() ==> 0 <= #[trigger] picked(p, run, t)[k] < t.len()
                && rows_made(p, None, run, t)[k] == row_made(
                p,
                run,
                t,
                seq![picked(p, run, t)[k]],
            ),
{
    let gs = groups_in(p, run, t);
    let es = gs.map_values(|ix: Seq<int>| entry(p, run, t, ix));
    let ps = told_apart(p, run, es);
    assert(ps =~= places(t.len()));
    let os = ps.map_values(|k: int| es[k].ords);
    let want = Seq::new(t.len(), |i: int| entry(p, run, t, seq![i]).ords);
    assert(os =~= want) by {
        assert forall|i: int| 0 <= i < t.len() implies os[i] == want[i] by {
            assert(ps[i] == i);
            assert(gs[i] == seq![i]);
        }
    }
    let picks = picked(p, run, t);
    assert forall|k: int| 0 <= k < picks.len() implies 0 <= #[trigger] picks[k] < t.len() by {
        assert(0 <= (run.arranged)(page_of(p, run), os)[k] < os.len());
    }
    let kept = entries_kept(p, run, es);
    assert(kept =~= picks) by {
        assert forall|k: int| 0 <= k < picks.len() implies kept[k] == picks[k] by {
            assert(0 <= picks[k] < t.len());
            assert(ps[picks[k]] == picks[k]);
        }
    }
    let all = kept.map_values(|k: int| gs[k]);
    let none: Option<ExprV> = None;
    let pass = |ix: Seq<int>| crate::clause_law::passes(none, run, seen(p, run, t, ix));
    trim_law::lemma_filter_all(all, pass);
    assert(groups_kept(p, none, run, t) == all);
    assert forall|k: int| 0 <= k < picks.len() implies 0 <= #[trigger] picks[k] < t.len()
        && rows_made(p, none, run, t)[k] == row_made(p, run, t, seq![picks[k]]) by {
        assert(0 <= picks[k] < t.len());
        assert(all[k] == gs[picks[k]]);
        assert(gs[picks[k]] == seq![picks[k]]);
    }
}

/// Nothing laid over a row leaves it.
proof fn lemma_lay_nothing<V>(r: spec_fn(Seq<char>) -> V, cols: Seq<Seq<char>>, vals: Seq<V>)
    requires
        cols.len() == 0,
    ensures
        lay(r, named(cols, vals)) == r,
{
    let s = lay(r, named(cols, vals));
    assert forall|x: Seq<char>| #[trigger] s(x) == r(x) by {
        assert(!named(cols, vals).contains_key(x));
    }
    assert(s =~= r);
}

/// What a projection makes of one row depends on that row.
proof fn lemma_row_of_row<V>(
    p: ProjV,
    run: RunV<V>,
    t: Seq<spec_fn(Seq<char>) -> V>,
    i: int,
    u: Seq<spec_fn(Seq<char>) -> V>,
    j: int,
)
    requires
        0 <= i < t.len(),
        0 <= j < u.len(),
        t[i] == u[j],
    ensures
        row_made(p, run, t, seq![i]) == row_made(p, run, u, seq![j]),
        vals_of(p, run, t, seq![i]) == vals_of(p, run, u, seq![j]),
{
    assert(rows_at(t, seq![i]) =~= rows_at(u, seq![j]));
    assert(first_at(run, t, seq![i]) == first_at(run, u, seq![j]));
    assert(vals_of(p, run, t, seq![i]) =~= vals_of(p, run, u, seq![j]));
}

/// The last projection of a query may take over the order and the page of the `WITH *`
/// before it: whatever the values, the query that it makes has the rows of the query, in
/// the same order.
pub proof fn law_fused_tail_keeps_rows<V>(
    q: Seq<ClauseV>,
    run: RunV<V>,
    t: Seq<spec_fn(Seq<char>) -> V>,
)
    requires
        tail_fused(q) is Some,
        looks_only(run.ev),
        arranges_own(run),
        arranges_nothing(run),
    ensures
        tail_fused(q)->0.len() == q.len() - 1,
        rows_after(tail_fused(q)->0, (q.len() - 1) as nat, run, t) == rows_after(
            q,
            q.len(),
            run,
            t,
        ),
        tail_fused(q)->0.last() is Return,
        q.last() is Return,
        query::columns_of(tail_fused(q)->0.last()->Return_proj.items) == query::columns_of(
            q.last()->Return_proj.items,
        ),
{
    let n = q.len();
    let out = tail_fused(q)->0;
    let (s, _) = as_with(q[n - 2])->0;
    let r = as_return(q[n - 1])->0;
    let f = out.last()->Return_proj;
    let m = (n - 2) as nat;
    assert forall|i: int| 0 <= i < m implies out[i] == #[trigger] q[i] by {}
    lemma_rows_agree(out, q, m, run, t);
    let a = rows_after(q, m, run, t);
    let b = rows_made(s, None, run, a);
    let c = rows_made(r, None, run, b);
    let d = rows_made(f, None, run, a);
    assert(rows_after(q, (n - 1) as nat, run, t) == clause_rows(q[n - 2], run, a));
    assert(clause_rows(q[n - 2], run, a) == b);
    assert(rows_after(q, n, run, t) == c);
    assert(rows_after(out, (n - 1) as nat, run, t) == clause_rows(out[n - 2], run, a));
    assert(out[n - 2] == ClauseV::Return { proj: f });
    assert(rows_after(out, (n - 1) as nat, run, t) == d);
    assert(!aggregating(s));
    assert(!aggregating(r) && !aggregating(f)) by {
        assert forall|i: int| 0 <= i < r.items.len() implies !crate::clause_law::folds(
            (#[trigger] r.items[i]).expr,
        ) by {
            assert(!ast::has_aggregate(r.items[i].expr));
            trim_law::lemma_unfolded(r.items[i].expr);
        }
    }
    lemma_one_by_one(s, run, a);
    lemma_one_by_one(r, run, b);
    lemma_one_by_one(f, run, a);
    let ps = picked(s, run, a);
    let pf = picked(f, run, a);
    // What entries are ordered by is the same.
    let os = Seq::new(a.len(), |i: int| entry(s, run, a, seq![i]).ords);
    let of = Seq::new(a.len(), |i: int| entry(f, run, a, seq![i]).ords);
    assert forall|i: int| 0 <= i < a.len() implies os[i] == of[i] by {
        let ix = seq![i];
        let x = a[i];
        lemma_lay_nothing(x, query::columns_of(s.items), vals_of(s, run, a, ix));
        assert(seen(s, run, a, ix) == x);
        let y = seen(f, run, a, ix);
        let cols = query::columns_of(f.items);
        let vals = vals_of(f, run, a, ix);
        assert forall|k: int| 0 <= k < s.order.len() implies os[i][k] == of[i][k] by {
            let e = s.order[k].expr;
            assert(f.order[k].expr == e);
            assert forall|z: Seq<char>| ast::reads(e, z) implies #[trigger] x(z) == y(z) by {
                if cols.contains(z) {
                    let j = cols.index_of(z);
                    assert(0 <= j < cols.len() && cols[j] == z);
                    assert(query::column_of(f.items[j]) == z);
                    assert(ast::reads(s.order[k].expr, query::column_of(r.items[j])));
                    assert(ast::as_var(f.items[j].expr) == Some(z));
                    assert(vals[j] == x(z));
                    assert(named(cols, vals).contains_key(z));
                } else {
                    assert(!named(cols, vals).contains_key(z));
                }
            }
            lemma_grouped_looks(e, run, rows_at(a, ix), x, y);
        }
        assert(os[i] =~= of[i]);
    }
    assert(os =~= of);
    assert(page_of(s, run).down =~= page_of(f, run).down);
    assert(ps == pf);
    // The projection after it keeps every row, in order.
    let pr = picked(r, run, b);
    assert(page_of(r, run).down.len() == 0);
    assert(pr =~= places(b.len()));
    assert forall|k: int| 0 <= k < d.len() implies c[k] == d[k] by {
        assert(0 <= ps[k] < a.len());
        assert(pr[k] == k);
        assert(c[k] == row_made(r, run, b, seq![pr[k]]));
        assert(0 <= pf[k] < a.len());
        assert(d[k] == row_made(f, run, a, seq![pf[k]]));
        assert(b[k] == row_made(s, run, a, seq![ps[k]]));
        lemma_lay_nothing(
            a[ps[k]],
            query::columns_of(s.items),
            vals_of(s, run, a, seq![ps[k]]),
        );
        assert(b[k] == a[ps[k]]);
        lemma_row_of_row(r, run, b, k, a, pf[k]);
        assert(vals_of(f, run, a, seq![pf[k]]) =~= vals_of(r, run, a, seq![pf[k]]));
        assert(row_made(f, run, a, seq![pf[k]]) == row_made(r, run, a, seq![pf[k]]));
    }
    assert(c =~= d);
}

} // verus!
