//! A split match gives the distinct rows of the match.

use vstd::prelude::*;

use crate::chain_rows::seed_rows;
use crate::chunk;
use crate::chunk::{HopV, RowV};
use crate::degree_law;
use crate::fold_model::disjoint;
use crate::graph::{admits, Adj, Graph};
use crate::multistage::as_match;
use crate::names;
use crate::query;
use crate::query::{ClauseV, PathV};
use crate::seqs;
use crate::split::split_match;
use crate::table;
use crate::table::first_seen;

verus! {

/// What elements give, one after the other.
pub open spec fn flat<A, B>(s: Seq<A>, f: spec_fn(A) -> Seq<B>) -> Seq<B>
    decreases s.len(),
{
    if s.len() == 0 {
        Seq::empty()
    } else {
        flat(s.drop_last(), f) + f(s.last())
    }
}

/// What is there before does not matter, apart from what is first seen in it.
proof fn lemma_first_seen_after<B>(a: Seq<B>, b: Seq<B>, c: Seq<B>)
    requires
        first_seen(a) == first_seen(b),
    ensures
        first_seen(a + c) == first_seen(b + c),
    decreases c.len(),
{
    if c.len() == 0 {
        assert(a + c =~= a);
        assert(b + c =~= b);
    } else {
        let p = c.drop_last();
        lemma_first_seen_after(a, b, p);
        assert((a + c).drop_last() =~= a + p);
        assert((b + c).drop_last() =~= b + p);
        assert((a + c).last() == (b + c).last());
    }
}

/// What was seen before is not seen first again.
proof fn lemma_first_seen_again<B>(a: Seq<B>, c: Seq<B>)
    requires
        forall|i: int| 0 <= i < c.len() ==> a.contains(#[trigger] c[i]),
    ensures
        first_seen(a + c) == first_seen(a),
    decreases c.len(),
{
    if c.len() == 0 {
        assert(a + c =~= a);
    } else {
        let p = c.drop_last();
        assert forall|i: int| 0 <= i < p.len() implies a.contains(#[trigger] p[i]) by {
            assert(c[i] == p[i]);
        }
        lemma_first_seen_again(a, p);
        assert((a + c).drop_last() =~= a + p);
        assert(a.contains(c[c.len() - 1]));
        table::law_first_seen_same(a);
        assert(first_seen(a).contains(c.last()));
    }
}

proof fn lemma_flat_holds<A, B>(s: Seq<A>, f: spec_fn(A) -> Seq<B>, k: int, y: B)
    requires
        0 <= k < s.len(),
        f(s[k]).contains(y),
    ensures
        flat(s, f).contains(y),
    decreases s.len(),
{
    let p = s.drop_last();
    let a = flat(p, f);
    let b = f(s.last());
    if k == s.len() - 1 {
        let i = choose|i: int| 0 <= i < b.len() && b[i] == y;
        assert((a + b)[a.len() + i] == y);
    } else {
        assert(p[k] == s[k]);
        lemma_flat_holds(p, f, k, y);
        let i = choose|i: int| 0 <= i < a.len() && a[i] == y;
        assert((a + b)[i] == y);
    }
}

/// What repeated elements give is seen only once.
pub proof fn law_first_seen_of_flat<A, B>(s: Seq<A>, f: spec_fn(A) -> Seq<B>)
    ensures
        first_seen(flat(s, f)) == first_seen(flat(first_seen(s), f)),
    decreases s.len(),
{
    if s.len() > 0 {
        let p = s.drop_last();
        let x = s.last();
        law_first_seen_of_flat(p, f);
        table::law_first_seen_same(p);
        if first_seen(p).contains(x) {
            assert(p.contains(x));
            let k = choose|k: int| 0 <= k < p.len() && p[k] == x;
            let c = f(x);
            assert forall|i: int| 0 <= i < c.len() implies flat(p, f).contains(#[trigger] c[i]) by {
                assert(f(p[k]).contains(c[i]));
                lemma_flat_holds(p, f, k, c[i]);
            }
            lemma_first_seen_again(flat(p, f), c);
        } else {
            let q = first_seen(p).push(x);
            assert(q.drop_last() =~= first_seen(p));
            lemma_first_seen_after(flat(p, f), flat(first_seen(p), f), f(x));
        }
    }
}

/// The rows after the first `k` of some hops.
pub open spec fn run(g: Graph, hs: Seq<HopV>, rows: Seq<RowV>, k: nat) -> Seq<RowV>
    decreases k,
{
    if k == 0 {
        rows
    } else {
        chunk::expand_rows(g, hs[k - 1], run(g, hs, rows, (k - 1) as nat))
    }
}

proof fn lemma_run_add(g: Graph, hs: Seq<HopV>, a: Seq<RowV>, b: Seq<RowV>, k: nat)
    ensures
        run(g, hs, a + b, k) == run(g, hs, a, k) + run(g, hs, b, k),
    decreases k,
{
    if k > 0 {
        lemma_run_add(g, hs, a, b, (k - 1) as nat);
        chunk::law_expand_slices(
            g,
            hs[k - 1],
            run(g, hs, a, (k - 1) as nat),
            run(g, hs, b, (k - 1) as nat),
        );
    }
}

/// Hops that go on along a path from a first variable.
pub open spec fn along(hs: Seq<HopV>) -> bool {
    forall|k: int|
        0 <= k < hs.len() ==> 0 <= (#[trigger] hs[k]).src <= k && !hs[k].rel_col
}

/// The same hops behind `n` columns, of which column `at` is where they start.
/// Whether a lone hop keeps its relationships apart does not matter.
pub open spec fn behind(hs: Seq<HopV>, us: Seq<HopV>, at: int, n: int) -> bool {
    &&& us.len() == hs.len()
    &&& forall|k: int|
        0 <= k < hs.len() ==> {
            let h = #[trigger] hs[k];
            let u = us[k];
            &&& u.src == if h.src == 0 {
                at
            } else {
                n + h.src - 1
            }
            &&& u.dir == h.dir
            &&& u.tokens == h.tokens
            &&& u.members == h.members
            &&& u.rel_col == h.rel_col
            &&& hs.len() > 1 ==> u.track == h.track && u.reset == h.reset
        }
}

/// A row that goes on behind another as one does by itself.
spec fn goes_on(r: RowV, u: RowV, w: RowV, k: nat, at: int, used: bool) -> bool {
    &&& w.ids.len() == k + 1
    &&& w.ids[0] == r.ids[at]
    &&& u.ids == r.ids + w.ids.skip(1)
    &&& used ==> forall|rel: u64|
        !r.used.contains(rel) ==> (#[trigger] u.used.contains(rel) <==> w.used.contains(rel))
}

/// Whether none of some relationships is of a type that a hop takes.
pub open spec fn untaken(g: Graph, h: HopV, used: Seq<u64>) -> bool {
    forall|rel: u64| #[trigger] used.contains(rel) ==> !g.rel_typed(rel, h.tokens)
}

spec fn all_go_on(r: RowV, us: Seq<RowV>, ws: Seq<RowV>, k: nat, at: int, used: bool) -> bool {
    &&& us.len() == ws.len()
    &&& forall|i: int| 0 <= i < us.len() ==> goes_on(r, #[trigger] us[i], ws[i], k, at, used)
}

/// One row's next hop.
proof fn lemma_next(
    g: Graph,
    h: HopV,
    v: HopV,
    r: RowV,
    u: RowV,
    w: RowV,
    k: nat,
    at: int,
    first: bool,
    flags: bool,
)
    requires
        goes_on(r, u, w, k, at, flags || first),
        untaken(g, h, r.used),
        0 <= h.src <= k,
        0 <= at < r.ids.len(),
        v.src == if h.src == 0 {
            at
        } else {
            r.ids.len() + h.src - 1
        },
        v.dir == h.dir,
        v.tokens == h.tokens,
        v.members == h.members,
        !v.rel_col,
        !h.rel_col,
        flags ==> v.track == h.track && v.reset == h.reset,
        first ==> w.used.len() == 0,
        first || flags,
    ensures
        all_go_on(r, chunk::expand_row(g, v, u), chunk::expand_row(g, h, w), k + 1, at, flags),
{
    let x = w.ids[h.src];
    assert(u.ids[v.src] == x);
    let es = g.adj(x, h.dir, h.tokens).reverse();
    let bu = chunk::base_of(u, v.track, v.reset);
    let bw = chunk::base_of(w, h.track, h.reset);
    let ku = |e: Adj| chunk::expand_keeps(v, bu, e);
    let kw = |e: Adj| chunk::expand_keeps(h, bw, e);
    assert forall|i: int| 0 <= i < es.len() implies #[trigger] ku(es[i]) == kw(es[i]) by {
        degree_law::lemma_adj_typed(g, x, h, es[i]);
        assert(!r.used.contains(es[i].rel));
        assert(u.used.contains(es[i].rel) <==> w.used.contains(es[i].rel));
    }
    seqs::lemma_filter_same(es, ku, kw);
    let kept = es.filter(kw);
    let a = chunk::expand_row(g, v, u);
    let b = chunk::expand_row(g, h, w);
    assert(a.len() == kept.len() && b.len() == kept.len());
    assert forall|i: int| 0 <= i < a.len() implies goes_on(
        r,
        #[trigger] a[i],
        b[i],
        k + 1,
        at,
        flags,
    ) by {
        let e = kept[i];
        assert(a[i] == chunk::expand_makes(v, u, bu, e));
        assert(b[i] == chunk::expand_makes(h, w, bw, e));
        assert(a[i].ids =~= r.ids + b[i].ids.skip(1));
        if flags && v.track {
            assert forall|rel: u64| !r.used.contains(rel) implies (#[trigger] a[i].used.contains(
                rel,
            ) <==> b[i].used.contains(rel)) by {
                lemma_push_contains(bu, e.rel, rel);
                lemma_push_contains(bw, e.rel, rel);
                assert(u.used.contains(rel) <==> w.used.contains(rel));
            }
        }
    }
}

proof fn lemma_push_contains(s: Seq<u64>, x: u64, y: u64)
    ensures
        s.push(x).contains(y) <==> s.contains(y) || x == y,
{
    if s.contains(y) {
        let i = choose|i: int| 0 <= i < s.len() && s[i] == y;
        assert(s.push(x)[i] == y);
    }
    assert(s.push(x)[s.len() as int] == x);
}

/// Every row's next hop.
proof fn lemma_all_next(
    g: Graph,
    h: HopV,
    v: HopV,
    r: RowV,
    us: Seq<RowV>,
    ws: Seq<RowV>,
    k: nat,
    at: int,
    first: bool,
    flags: bool,
)
    requires
        all_go_on(r, us, ws, k, at, flags || first),
        untaken(g, h, r.used),
        0 <= h.src <= k,
        0 <= at < r.ids.len(),
        v.src == if h.src == 0 {
            at
        } else {
            r.ids.len() + h.src - 1
        },
        v.dir == h.dir,
        v.tokens == h.tokens,
        v.members == h.members,
        !v.rel_col,
        !h.rel_col,
        flags ==> v.track == h.track && v.reset == h.reset,
        first ==> forall|i: int| 0 <= i < ws.len() ==> (#[trigger] ws[i]).used.len() == 0,
        first || flags,
    ensures
        all_go_on(
            r,
            chunk::expand_rows(g, v, us),
            chunk::expand_rows(g, h, ws),
            k + 1,
            at,
            flags,
        ),
    decreases us.len(),
{
    if us.len() > 0 {
        let p = us.drop_last();
        let q = ws.drop_last();
        assert forall|i: int| 0 <= i < p.len() implies goes_on(
            r,
            #[trigger] p[i],
            q[i],
            k,
            at,
            flags || first,
        ) by {
            assert(us[i] == p[i] && ws[i] == q[i]);
        }
        assert forall|i: int| first && 0 <= i < q.len() implies (#[trigger] q[i]).used.len() == 0 by {
            assert(ws[i] == q[i]);
        }
        lemma_all_next(g, h, v, r, p, q, k, at, first, flags);
        assert(us[us.len() - 1] == us.last() && ws[ws.len() - 1] == ws.last());
        lemma_next(g, h, v, r, us.last(), ws.last(), k, at, first, flags);
        let a = chunk::expand_rows(g, v, p);
        let b = chunk::expand_rows(g, h, q);
        let c = chunk::expand_row(g, v, us.last());
        let d = chunk::expand_row(g, h, ws.last());
        assert forall|i: int| 0 <= i < (a + c).len() implies goes_on(
            r,
            #[trigger] (a + c)[i],
            (b + d)[i],
            k + 1,
            at,
            flags,
        ) by {
            if i < a.len() {
                assert(goes_on(r, a[i], b[i], k + 1, at, flags));
            } else {
                assert(goes_on(r, c[i - a.len()], d[i - a.len()], k + 1, at, flags));
            }
        }
    }
}

/// The hops of one row.
proof fn lemma_run_row(
    g: Graph,
    hs: Seq<HopV>,
    us: Seq<HopV>,
    at: int,
    r: RowV,
    k: nat,
)
    requires
        along(hs),
        behind(hs, us, at, r.ids.len() as int),
        0 <= at < r.ids.len(),
        forall|j: int| 0 <= j < hs.len() ==> untaken(g, #[trigger] hs[j], r.used),
        k <= hs.len(),
    ensures
        all_go_on(
            r,
            run(g, us, seq![r], k),
            run(g, hs, seed_rows(seq![r.ids[at]]), k),
            k,
            at,
            hs.len() > 1 || k == 0,
        ),
    decreases k,
{
    if k == 0 {
        let w = seed_rows(seq![r.ids[at]]);
        assert(w[0].ids =~= seq![r.ids[at]]);
        assert(r.ids + w[0].ids.skip(1) =~= r.ids);
    } else {
        let p = (k - 1) as nat;
        lemma_run_row(g, hs, us, at, r, p);
        let h = hs[k - 1];
        let v = us[k - 1];
        lemma_all_next(
            g,
            h,
            v,
            r,
            run(g, us, seq![r], p),
            run(g, hs, seed_rows(seq![r.ids[at]]), p),
            p,
            at,
            k == 1,
            hs.len() > 1,
        );
    }
}

/// The columns of the second part of a row: where it starts, and what it binds.
pub open spec fn second_part(at: int, n: int) -> spec_fn(RowV) -> Seq<u64> {
    |u: RowV| seq![u.ids[at]] + u.ids.skip(n)
}

/// What the rows of a second part give once conditions are applied and columns are
/// chosen.
pub open spec fn given(
    rows: Seq<Seq<u64>>,
    cond: spec_fn(Seq<u64>) -> bool,
    choose_cols: spec_fn(Seq<u64>) -> Seq<u64>,
) -> Seq<Seq<u64>> {
    seqs::keep_map(rows, cond, choose_cols)
}

/// The ids of rows.
pub open spec fn ids_of(rows: Seq<RowV>) -> Seq<Seq<u64>> {
    rows.map_values(|r: RowV| r.ids)
}

proof fn lemma_given_add(
    a: Seq<Seq<u64>>,
    b: Seq<Seq<u64>>,
    cond: spec_fn(Seq<u64>) -> bool,
    cols: spec_fn(Seq<u64>) -> Seq<u64>,
)
    ensures
        given(a + b, cond, cols) == given(a, cond, cols) + given(b, cond, cols),
{
    Seq::filter_distributes_over_add(a, b, cond);
    assert(given(a + b, cond, cols) =~= given(a, cond, cols) + given(b, cond, cols));
}

/// What the second part gives from one start.
spec fn from_start(
    g: Graph,
    hs: Seq<HopV>,
    cond: spec_fn(Seq<u64>) -> bool,
    cols: spec_fn(Seq<u64>) -> Seq<u64>,
) -> spec_fn(u64) -> Seq<Seq<u64>> {
    |x: u64| given(ids_of(run(g, hs, seed_rows(seq![x]), hs.len())), cond, cols)
}

proof fn lemma_whole(
    g: Graph,
    hs: Seq<HopV>,
    us: Seq<HopV>,
    at: int,
    n: int,
    rows: Seq<RowV>,
    cond: spec_fn(Seq<u64>) -> bool,
    cols: spec_fn(Seq<u64>) -> Seq<u64>,
)
    requires
        along(hs),
        behind(hs, us, at, n),
        0 <= at < n,
        forall|i: int| 0 <= i < rows.len() ==> (#[trigger] rows[i]).ids.len() == n,
        forall|i: int, k: int|
            0 <= i < rows.len() && 0 <= k < hs.len() ==> untaken(
                g,
                #[trigger] hs[k],
                (#[trigger] rows[i]).used,
            ),
    ensures
        given(
            run(g, us, rows, us.len()).map_values(second_part(at, n)),
            cond,
            cols,
        ) == flat(rows.map_values(|r: RowV| r.ids[at]), from_start(g, hs, cond, cols)),
    decreases rows.len(),
{
    let f = from_start(g, hs, cond, cols);
    let col = |r: RowV| r.ids[at];
    let part = second_part(at, n);
    let m = us.len();
    if rows.len() == 0 {
        lemma_run_none(g, us, rows, m);
        assert(run(g, us, rows, m).map_values(part) =~= Seq::empty());
        seqs::lemma_filter_empty(cond);
        assert(given(run(g, us, rows, m).map_values(part), cond, cols) =~= Seq::empty());
        assert(rows.map_values(col) =~= Seq::empty());
    } else {
        let p = rows.drop_last();
        let r = rows.last();
        assert forall|i: int| 0 <= i < p.len() implies (#[trigger] p[i]).ids.len() == n by {
            assert(rows[i] == p[i]);
        }
        assert forall|i: int, k: int| 0 <= i < p.len() && 0 <= k < hs.len() implies untaken(
            g,
            #[trigger] hs[k],
            (#[trigger] p[i]).used,
        ) by {
            assert(rows[i] == p[i]);
        }
        assert(rows[rows.len() - 1] == r);
        lemma_whole(g, hs, us, at, n, p, cond, cols);
        assert(rows =~= p + seq![r]);
        lemma_run_add(g, us, p, seq![r], m);
        lemma_run_row(g, hs, us, at, r, m);
        let a = run(g, us, p, m);
        let b = run(g, us, seq![r], m);
        let w = run(g, hs, seed_rows(seq![r.ids[at]]), m);
        assert((a + b).map_values(part) =~= a.map_values(part) + b.map_values(part));
        assert(b.map_values(part) =~= ids_of(w)) by {
            assert forall|i: int| 0 <= i < b.len() implies b.map_values(part)[i] == ids_of(w)[i] by {
                assert(goes_on(r, b[i], w[i], m, at, hs.len() > 1 || m == 0));
                assert(b[i].ids.skip(n) =~= w[i].ids.skip(1));
                assert(b[i].ids[at] == r.ids[at]);
                assert(seq![b[i].ids[at]] + b[i].ids.skip(n) =~= w[i].ids);
            }
        }
        lemma_given_add(a.map_values(part), b.map_values(part), cond, cols);
        assert(rows.map_values(col).drop_last() =~= p.map_values(col));
        assert(rows.map_values(col).last() == r.ids[at]);
    }
}

proof fn lemma_run_none(g: Graph, hs: Seq<HopV>, rows: Seq<RowV>, k: nat)
    requires
        rows.len() == 0,
    ensures
        run(g, hs, rows, k).len() == 0,
    decreases k,
{
    if k > 0 {
        lemma_run_none(g, hs, rows, (k - 1) as nat);
    }
}

proof fn lemma_parts(
    g: Graph,
    hs: Seq<HopV>,
    xs: Seq<u64>,
    cond: spec_fn(Seq<u64>) -> bool,
    cols: spec_fn(Seq<u64>) -> Seq<u64>,
)
    ensures
        given(ids_of(run(g, hs, seed_rows(xs), hs.len())), cond, cols) == flat(
            xs,
            from_start(g, hs, cond, cols),
        ),
    decreases xs.len(),
{
    let m = hs.len();
    if xs.len() == 0 {
        assert(seed_rows(xs) =~= Seq::empty());
        lemma_run_none(g, hs, seed_rows(xs), m);
        assert(ids_of(run(g, hs, seed_rows(xs), m)) =~= Seq::empty());
        seqs::lemma_filter_empty(cond);
        assert(given(ids_of(run(g, hs, seed_rows(xs), m)), cond, cols) =~= Seq::empty());
    } else {
        let p = xs.drop_last();
        let x = xs.last();
        lemma_parts(g, hs, p, cond, cols);
        assert(seed_rows(xs) =~= seed_rows(p) + seed_rows(seq![x]));
        lemma_run_add(g, hs, seed_rows(p), seed_rows(seq![x]), m);
        let a = run(g, hs, seed_rows(p), m);
        let b = run(g, hs, seed_rows(seq![x]), m);
        assert(ids_of(a + b) =~= ids_of(a) + ids_of(b));
        lemma_given_add(ids_of(a), ids_of(b), cond, cols);
    }
}

/// Hops that follow some rows start at one of their columns, and take none of their
/// relationships. Under any conditions on what the hops start at and bind, and for any
/// choice of those columns, they give the distinct rows that they give from each value
/// of that column once, in the order in which they are first seen.
pub proof fn law_distinct_starts_give_distinct_rows(
    g: Graph,
    hs: Seq<HopV>,
    us: Seq<HopV>,
    at: int,
    n: int,
    rows: Seq<RowV>,
    cond: spec_fn(Seq<u64>) -> bool,
    cols: spec_fn(Seq<u64>) -> Seq<u64>,
)
    requires
        along(hs),
        behind(hs, us, at, n),
        0 <= at < n,
        forall|i: int| 0 <= i < rows.len() ==> (#[trigger] rows[i]).ids.len() == n,
        forall|i: int, k: int|
            0 <= i < rows.len() && 0 <= k < hs.len() ==> untaken(
                g,
                #[trigger] hs[k],
                (#[trigger] rows[i]).used,
            ),
    ensures
        first_seen(
            given(run(g, us, rows, us.len()).map_values(second_part(at, n)), cond, cols),
        ) == first_seen(
            given(
                ids_of(
                    run(
                        g,
                        hs,
                        seed_rows(first_seen(rows.map_values(|r: RowV| r.ids[at]))),
                        hs.len(),
                    ),
                ),
                cond,
                cols,
            ),
        ),
{
    let bs = rows.map_values(|r: RowV| r.ids[at]);
    lemma_whole(g, hs, us, at, n, rows, cond, cols);
    lemma_parts(g, hs, first_seen(bs), cond, cols);
    law_first_seen_of_flat(bs, from_start(g, hs, cond, cols));
}

/// Whether a type of one list is never a type of the other.
proof fn lemma_tokens_apart(g: Graph, a: Seq<Seq<char>>, b: Seq<Seq<char>>, rel: u64)
    requires
        g.wf(),
        disjoint(a, b),
        g.rel_typed(rel, g.type_tokens(a)),
    ensures
        !g.rel_typed(rel, g.type_tokens(b)),
{
    let ta = g.type_tokens(a);
    let tb = g.type_tokens(b);
    if g.rel_typed(rel, tb) {
        let (s1, n1, i1) = choose|s: bool, n: int, i: int| #[trigger]
            g.has_entry(s, n, i) && g.entry(s, n, i).rel == rel && admits(ta, g.entry(s, n, i).typ);
        let (s2, n2, i2) = choose|s: bool, n: int, i: int| #[trigger]
            g.has_entry(s, n, i) && g.entry(s, n, i).rel == rel && admits(tb, g.entry(s, n, i).typ);
        assert(g.has_entry(s1, n1, i1) && g.has_entry(s2, n2, i2));
        assert(g.entry(s1, n1, i1).typ == g.entry(s2, n2, i2).typ);
        let t = g.entry(s1, n1, i1).typ;
        let i = lemma_token_named(g, a, t);
        let j = lemma_token_named(g, b, t);
        assert(b.contains(a[i])) by {
            assert(b[j] == a[i]);
        }
        assert(false);
    }
}

/// A token of a list of names is the position of one of them.
proof fn lemma_token_named(g: Graph, a: Seq<Seq<char>>, t: u32) -> (i: int)
    requires
        g.types@.len() <= u32::MAX,
        g.tokens_of(a).contains(t),
    ensures
        0 <= i < a.len(),
        t < g.types@.len(),
        a[i] == g.types@[t as int]@,
    decreases a.len(),
{
    let all = names::of(g.types@);
    let p = a.drop_last();
    if a.len() == 0 {
        assert(false);
        0
    } else {
        names::lemma_position(all, a.last());
        match names::position(all, a.last()) {
            Some(k) => {
                lemma_push_token(g.tokens_of(p), k as u32, t);
                if k as u32 == t {
                    a.len() - 1
                } else {
                    lemma_token_named(g, p, t)
                }
            },
            None => lemma_token_named(g, p, t),
        }
    }
}

proof fn lemma_push_token(s: Seq<u32>, x: u32, y: u32)
    ensures
        s.push(x).contains(y) ==> s.contains(y) || x == y,
{
    if s.push(x).contains(y) {
        let i = choose|i: int| 0 <= i < s.push(x).len() && s.push(x)[i] == y;
        if i < s.len() {
            assert(s[i] == y);
        }
    }
}

/// The hops of the second part of a path, each from the end of the one before it.
/// Their ends are held to the members given; the first starts at column `at`, and the
/// others follow `n` columns.
pub open spec fn second_hops(
    g: Graph,
    p: PathV,
    members: Seq<Option<Set<u64>>>,
    track: bool,
    at: int,
    n: int,
) -> Seq<HopV> {
    Seq::new(
        (p.hops.len() - 1) as nat,
        |k: int|
            HopV {
                src: if k == 0 {
                    at
                } else {
                    n + k - 1
                },
                dir: query::dir_of(p.hops[k + 1].0.dir),
                tokens: g.type_tokens(p.hops[k + 1].0.types),
                members: members[k],
                track,
                reset: false,
                rel_col: false,
            },
    )
}

/// Where a match is split, the three clauses give the distinct rows of the match, in
/// the order in which they are first seen. The rows of the first part, under the
/// conditions on it, have the meeting point in column `at` and took relationships of
/// the first hop's types. The match goes on from each of them, and keeps its
/// relationships apart from those. The three clauses go on from each meeting point
/// once, with nothing taken, and keep relationships apart where there are two hops or
/// more. The conditions that are left, and the columns that are kept, are any that look
/// at the second part alone.
pub proof fn law_split_keeps_distinct_rows(
    g: Graph,
    m: ClauseV,
    w: ClauseV,
    members: Seq<Option<Set<u64>>>,
    at: int,
    n: int,
    rows: Seq<RowV>,
    cond: spec_fn(Seq<u64>) -> bool,
    cols: spec_fn(Seq<u64>) -> Seq<u64>,
)
    requires
        g.wf(),
        split_match(m, w) is Some,
        0 <= at < n,
        forall|i: int| 0 <= i < rows.len() ==> (#[trigger] rows[i]).ids.len() == n,
        forall|i: int, rel: u64|
            0 <= i < rows.len() && #[trigger] (#[trigger] rows[i]).used.contains(rel)
                ==> g.rel_typed(
                rel,
                g.type_tokens((as_match(m)->0).0.paths[0].hops[0].0.types),
            ),
    ensures
        ({
            let p = (as_match(m)->0).0.paths[0];
            let one = second_hops(g, p, members, true, at, n);
            let two = second_hops(g, p, members, p.hops.len() > 2, 0, 1);
            let starts = first_seen(rows.map_values(|r: RowV| r.ids[at]));
            &&& first_seen(
                given(run(g, one, rows, one.len()).map_values(second_part(at, n)), cond, cols),
            ) == first_seen(
                given(ids_of(run(g, two, seed_rows(starts), two.len())), cond, cols),
            )
        }),
{
    let (pattern, where_) = as_match(m)->0;
    let p = pattern.paths[0];
    assert((as_match(m)->0).0.paths[0] == p);
    let one = second_hops(g, p, members, true, at, n);
    let two = second_hops(g, p, members, p.hops.len() > 2, 0, 1);
    assert forall|i: int, k: int| 0 <= i < rows.len() && 0 <= k < two.len() implies untaken(
        g,
        #[trigger] two[k],
        (#[trigger] rows[i]).used,
    ) by {
        assert(disjoint(p.hops[0].0.types, p.hops[k + 1].0.types));
        assert forall|rel: u64| #[trigger] rows[i].used.contains(rel) implies !g.rel_typed(
            rel,
            two[k].tokens,
        ) by {
            lemma_tokens_apart(g, p.hops[0].0.types, p.hops[k + 1].0.types, rel);
        }
    }
    law_distinct_starts_give_distinct_rows(g, two, one, at, n, rows, cond, cols);
}

} // verus!
