//! Counting is expanding: what a fold counts is the number of matches that
//! taking every step row by row finds.

use vstd::prelude::*;

use crate::fold_model;
use crate::fold_model::{
    below, edges_count, hop_base, hop_count, is_folded, kids, kids_upto, level_count, pred_holds,
    pred_var, preds_hold, takes, used_below, CountHop, FoldV,
};
use crate::graph;
use crate::graph::Adj;

verus! {

/// Whether a variable is bound when a counted variable is: it is counted above
/// it, or is not counted and comes before everything counted above it.
pub open spec fn bound_first(p: FoldV, t: int, v: int) -> bool {
    if is_folded(p, t) {
        below(p, t, v)
    } else {
        forall|r: int| #[trigger] below(p, r, v) && is_folded(p, r) ==> t < r
    }
}

/// A step reads what is bound when it runs, counted or not.
pub open spec fn step_orderly(p: FoldV, k: int) -> bool {
    let h = p.hops[k];
    &&& match h.tgt {
        Some(t) => h.end is None && if h.fold {
            is_folded(p, h.src) && bound_first(p, t, h.src)
        } else {
            !is_folded(p, t)
        },
        None => h.end matches Some(e) && h.src < e < p.width,
    }
    &&& !h.fold ==> h.preds.len() == 0 && !is_folded(p, h.src)
    &&& h.fold && h.tgt is None ==> forall|i: int|
        0 <= i < h.preds.len() ==> bound_first(p, pred_var(#[trigger] h.preds[i]), h.end->0)
    &&& h.track && !h.reset && k > 0 ==> p.hops[k - 1].track && p.hops[k - 1].tgt is None
        && p.hops[k - 1].end == Some(h.src)
}

/// The steps of a chain are in order: each reads what is bound, later steps
/// bind later variables, and what starts at a counted variable is counted.
pub open spec fn orderly(p: FoldV) -> bool {
    &&& p.wf()
    &&& forall|k: int| 0 <= k < p.hops.len() ==> #[trigger] step_orderly(p, k)
    &&& forall|a: int, b: int|
        #![trigger p.hops[a], p.hops[b]]
        0 <= a < b < p.hops.len() && p.hops[a].tgt is None && p.hops[b].tgt is None
            ==> p.hops[a].end->0 < p.hops[b].end->0
}

/// Whether a step takes an edge.
pub open spec fn edge_taken(p: FoldV, k: int, bind: Seq<u64>, base: Seq<u64>, e: Adj) -> bool {
    let h = p.hops[k];
    match h.tgt {
        Some(t) => e.peer == bind[t] && !base.contains(e.rel),
        None => takes(p, h, bind.update(h.end->0, e.peer), base, e),
    }
}

/// What is bound once a step has taken an edge.
pub open spec fn edge_bound(p: FoldV, k: int, bind: Seq<u64>, e: Adj) -> Seq<u64> {
    let h = p.hops[k];
    match h.tgt {
        Some(_) => bind,
        None => bind.update(h.end->0, e.peer),
    }
}

/// Any binding.
pub open spec fn any_bind() -> spec_fn(Seq<u64>) -> bool {
    |b: Seq<u64>| true
}

/// How many matches the steps from `k` on find, each taken row by row.
pub open spec fn walks(p: FoldV, k: int, bind: Seq<u64>, used: Seq<u64>) -> nat {
    walks_kept(p, k, bind, used, any_bind())
}

/// How many matches that are kept the steps from `k` on find, each taken row by
/// row.
pub open spec fn walks_kept(
    p: FoldV,
    k: int,
    bind: Seq<u64>,
    used: Seq<u64>,
    keep: spec_fn(Seq<u64>) -> bool,
) -> nat
    decreases p.hops.len() - k, 1nat, 0nat,
{
    if k < 0 || k >= p.hops.len() {
        if keep(bind) {
            1
        } else {
            0
        }
    } else {
        let h = p.hops[k];
        edge_walks_kept(
            p,
            k,
            bind,
            hop_base(h, used),
            p.g.adj(bind[h.src], h.dir, h.tokens),
            keep,
        )
    }
}

/// [`walks_kept`] over edges of step `k`.
pub open spec fn edge_walks_kept(
    p: FoldV,
    k: int,
    bind: Seq<u64>,
    base: Seq<u64>,
    es: Seq<Adj>,
    keep: spec_fn(Seq<u64>) -> bool,
) -> nat
    decreases p.hops.len() - k, 0nat, es.len(),
{
    if k < 0 || k >= p.hops.len() || es.len() == 0 {
        0
    } else {
        let e = es.last();
        edge_walks_kept(p, k, bind, base, es.drop_last(), keep) + if edge_taken(
            p,
            k,
            bind,
            base,
            e,
        ) {
            walks_kept(p, k + 1, edge_bound(p, k, bind, e), used_below(p.hops[k], base, e), keep)
        } else {
            0
        }
    }
}

/// How many matches the steps from `k` on stand for: a step that is not counted
/// is taken row by row, one that starts at a bound variable multiplies by what
/// it counts, and one below it adds nothing.
pub open spec fn weighted(p: FoldV, k: int, bind: Seq<u64>, used: Seq<u64>) -> nat {
    weighted_kept(p, k, bind, used, any_bind())
}

/// How many matches the rows that are kept stand for after the steps from `k` on.
pub open spec fn weighted_kept(
    p: FoldV,
    k: int,
    bind: Seq<u64>,
    used: Seq<u64>,
    keep: spec_fn(Seq<u64>) -> bool,
) -> nat
    decreases p.hops.len() - k, 1nat, 0nat,
{
    if k < 0 || k >= p.hops.len() {
        if keep(bind) {
            1
        } else {
            0
        }
    } else {
        let h = p.hops[k];
        if !h.fold {
            edge_weighted_kept(
                p,
                k,
                bind,
                hop_base(h, used),
                p.g.adj(bind[h.src], h.dir, h.tokens),
                keep,
            )
        } else if is_folded(p, h.src) {
            weighted_kept(p, k + 1, bind, used, keep)
        } else {
            hop_count(p, k, bind, used, bind[h.src]) * weighted_kept(p, k + 1, bind, used, keep)
        }
    }
}

/// [`weighted_kept`] over edges of step `k`.
pub open spec fn edge_weighted_kept(
    p: FoldV,
    k: int,
    bind: Seq<u64>,
    base: Seq<u64>,
    es: Seq<Adj>,
    keep: spec_fn(Seq<u64>) -> bool,
) -> nat
    decreases p.hops.len() - k, 0nat, es.len(),
{
    if k < 0 || k >= p.hops.len() || es.len() == 0 {
        0
    } else {
        let e = es.last();
        edge_weighted_kept(p, k, bind, base, es.drop_last(), keep) + if edge_taken(
            p,
            k,
            bind,
            base,
            e,
        ) {
            weighted_kept(p, k + 1, edge_bound(p, k, bind, e), used_below(p.hops[k], base, e), keep)
        } else {
            0
        }
    }
}

/// Whether what is kept is told by what is not counted.
pub open spec fn tells_uncounted(p: FoldV, keep: spec_fn(Seq<u64>) -> bool) -> bool {
    forall|b: Seq<u64>, z: Seq<u64>|
        #![trigger keep(b), keep(z)]
        b.len() == p.width && z.len() == p.width && (forall|v: int|
            0 <= v < p.width && !#[trigger] is_folded(p, v) ==> b[v] == z[v]) ==> keep(b) == keep(z)
}

proof fn lemma_one_binder(p: FoldV, a: int, b: int)
    requires
        orderly(p),
        0 <= a < p.hops.len(),
        0 <= b < p.hops.len(),
        p.hops[a].tgt is None,
        p.hops[b].tgt is None,
        p.hops[a].end == p.hops[b].end,
    ensures
        a == b,
{
    if a < b {
        assert(p.hops[a].end->0 < p.hops[b].end->0);
    }
    if b < a {
        assert(p.hops[b].end->0 < p.hops[a].end->0);
    }
}

/// What is above a counted variable is above the one it is reached from.
proof fn lemma_above(p: FoldV, t: int, c: int)
    requires
        orderly(p),
        0 <= c < p.hops.len(),
        p.hops[c].fold,
        p.hops[c].tgt is None,
        below(p, t, p.hops[c].end->0),
        t != p.hops[c].end->0,
    ensures
        below(p, t, p.hops[c].src),
{
    assert(step_orderly(p, c));
    let v = p.hops[c].end->0;
    let hi = choose|hi: int|
        0 <= hi < p.hops.len() && (#[trigger] p.hops[hi]).fold && p.hops[hi].tgt is None
            && p.hops[hi].end == Some(v) && 0 <= p.hops[hi].src < v && below(p, t, p.hops[hi].src);
    lemma_one_binder(p, hi, c);
}

/// What is above the source of a counted step is above its end.
proof fn lemma_above_end(p: FoldV, t: int, c: int)
    requires
        orderly(p),
        0 <= c < p.hops.len(),
        p.hops[c].fold,
        p.hops[c].tgt is None,
        below(p, t, p.hops[c].src),
    ensures
        below(p, t, p.hops[c].end->0),
{
    assert(step_orderly(p, c));
    assert(p.hops[c].end == Some(p.hops[c].end->0));
}

/// What is above a variable is not past it.
pub proof fn lemma_not_past(p: FoldV, t: int, v: int)
    requires
        below(p, t, v),
    ensures
        t <= v,
    decreases v,
{
    if t != v {
        let hi = choose|hi: int|
            0 <= hi < p.hops.len() && (#[trigger] p.hops[hi]).fold && p.hops[hi].tgt is None
                && p.hops[hi].end == Some(v) && 0 <= p.hops[hi].src < v && below(
                p,
                t,
                p.hops[hi].src,
            );
        lemma_not_past(p, t, p.hops[hi].src);
    }
}

/// The variable at whose level a counted step reads.
spec fn level_of(h: CountHop) -> int {
    match h.tgt {
        Some(_) => h.src,
        None => h.end->0,
    }
}

/// Two bindings hold the same for what a counted step and those below it read.
spec fn agree(p: FoldV, c: int, a: Seq<u64>, b: Seq<u64>) -> bool {
    &&& a.len() == p.width
    &&& b.len() == p.width
    &&& forall|t: int|
        0 <= t < p.width && #[trigger] below(p, t, p.hops[c].src) ==> a[t] == b[t]
    &&& forall|t: int|
        0 <= t < p.width && !is_folded(p, t) && #[trigger] bound_first(
            p,
            t,
            level_of(p.hops[c]),
        ) ==> a[t] == b[t]
}

proof fn lemma_agree_below(p: FoldV, c: int, d: int, a: Seq<u64>, b: Seq<u64>, node: u64)
    requires
        orderly(p),
        0 <= c < p.hops.len(),
        0 <= d < p.hops.len(),
        p.hops[c].fold,
        p.hops[c].tgt is None,
        p.hops[d].fold,
        p.hops[d].src == p.hops[c].end->0,
        agree(p, c, a, b),
    ensures
        agree(
            p,
            d,
            a.update(p.hops[c].end->0, node),
            b.update(p.hops[c].end->0, node),
        ),
{
    assert(step_orderly(p, c));
    assert(step_orderly(p, d));
    let u = p.hops[c].end->0;
    let a1 = a.update(u, node);
    let b1 = b.update(u, node);
    assert(p.hops[c].end == Some(u));
    assert(is_folded(p, u));
    assert forall|t: int| 0 <= t < p.width && #[trigger] below(p, t, p.hops[d].src) implies a1[t]
        == b1[t] by {
        if t != u {
            lemma_above(p, t, c);
            assert(a[t] == b[t]);
        }
    }
    assert forall|t: int|
        0 <= t < p.width && !is_folded(p, t) && #[trigger] bound_first(
            p,
            t,
            level_of(p.hops[d]),
        ) implies a1[t] == b1[t] by {
        assert(bound_first(p, t, u)) by {
            assert forall|r: int| #[trigger] below(p, r, u) && is_folded(p, r) implies t < r by {
                if p.hops[d].tgt is None {
                    lemma_above_end(p, r, d);
                }
                assert(below(p, r, level_of(p.hops[d])));
            }
        }
        assert(level_of(p.hops[c]) == u);
        assert(bound_first(p, t, level_of(p.hops[c])));
        assert(a[t] == b[t]);
    }
}

proof fn lemma_agree_hop(
    p: FoldV,
    c: int,
    a: Seq<u64>,
    b: Seq<u64>,
    us1: Seq<u64>,
    us2: Seq<u64>,
    node: u64,
)
    requires
        orderly(p),
        0 <= c < p.hops.len(),
        p.hops[c].fold,
        agree(p, c, a, b),
        hop_base(p.hops[c], us1) == hop_base(p.hops[c], us2),
    ensures
        hop_count(p, c, a, us1, node) == hop_count(p, c, b, us2, node),
    decreases p.width - p.hops[c].src, 2nat, 0nat,
{
    let h = p.hops[c];
    assert(step_orderly(p, c));
    match h.tgt {
        Some(t) => {
            assert(a[t] == b[t]) by {
                if is_folded(p, t) {
                    assert(below(p, t, h.src));
                } else {
                    assert(bound_first(p, t, level_of(h)));
                }
            }
        },
        None => {
            lemma_agree_edges(p, c, a, b, hop_base(h, us1), p.g.adj(node, h.dir, h.tokens));
        },
    }
}

proof fn lemma_agree_edges(
    p: FoldV,
    c: int,
    a: Seq<u64>,
    b: Seq<u64>,
    base: Seq<u64>,
    es: Seq<Adj>,
)
    requires
        orderly(p),
        0 <= c < p.hops.len(),
        p.hops[c].fold,
        p.hops[c].tgt is None,
        agree(p, c, a, b),
    ensures
        edges_count(p, c, a, base, es) == edges_count(p, c, b, base, es),
    decreases p.width - p.hops[c].src, 1nat, es.len(),
{
    let h = p.hops[c];
    let u = h.end->0;
    assert(step_orderly(p, c));
    if es.len() > 0 {
        lemma_agree_edges(p, c, a, b, base, es.drop_last());
        let e = es.last();
        let a1 = a.update(u, e.peer);
        let b1 = b.update(u, e.peer);
        assert(h.end == Some(u));
        assert(is_folded(p, u));
        assert forall|i: int| 0 <= i < h.preds.len() implies pred_holds(
            p.g,
            a1,
            e.peer,
            #[trigger] h.preds[i],
        ) == pred_holds(p.g, b1, e.peer, h.preds[i]) by {
            let o = pred_var(h.preds[i]);
            assert(bound_first(p, o, u));
            assert(a1[o] == b1[o]) by {
                if o != u {
                    if is_folded(p, o) {
                        lemma_above(p, o, c);
                    } else {
                        assert(bound_first(p, o, level_of(h)));
                    }
                }
            }
        }
        assert(preds_hold(p.g, a1, e.peer, h.preds) == preds_hold(p.g, b1, e.peer, h.preds)) by {
            if preds_hold(p.g, a1, e.peer, h.preds) {
                assert forall|i: int| 0 <= i < h.preds.len() implies pred_holds(
                    p.g,
                    b1,
                    e.peer,
                    #[trigger] h.preds[i],
                ) by {
                    assert(pred_holds(p.g, a1, e.peer, h.preds[i]));
                }
            }
            if preds_hold(p.g, b1, e.peer, h.preds) {
                assert forall|i: int| 0 <= i < h.preds.len() implies pred_holds(
                    p.g,
                    a1,
                    e.peer,
                    #[trigger] h.preds[i],
                ) by {
                    assert(pred_holds(p.g, b1, e.peer, h.preds[i]));
                }
            }
        }
        lemma_agree_level(p, c, kids(p, u).len(), a, b, used_below(h, base, e), e.peer);
    }
}

proof fn lemma_agree_level(
    p: FoldV,
    c: int,
    n: nat,
    a: Seq<u64>,
    b: Seq<u64>,
    used: Seq<u64>,
    node: u64,
)
    requires
        orderly(p),
        0 <= c < p.hops.len(),
        p.hops[c].fold,
        p.hops[c].tgt is None,
        agree(p, c, a, b),
        n <= kids(p, p.hops[c].end->0).len(),
    ensures
        level_count(
            p,
            p.hops[c].end->0,
            n,
            a.update(p.hops[c].end->0, node),
            used,
            node,
        ) == level_count(
            p,
            p.hops[c].end->0,
            n,
            b.update(p.hops[c].end->0, node),
            used,
            node,
        ),
    decreases p.width - p.hops[c].end->0, 3nat, n,
{
    assert(step_orderly(p, c));
    let u = p.hops[c].end->0;
    if n > 0 {
        lemma_agree_level(p, c, (n - 1) as nat, a, b, used, node);
        fold_model::lemma_kids(p, u);
        let d = kids(p, u)[n - 1];
        assert(p.hops[d].fold && p.hops[d].src == u);
        lemma_agree_below(p, c, d, a, b, node);
        lemma_agree_hop(p, d, a.update(u, node), b.update(u, node), used, used, node);
    }
}

/// Whether a counted step starts at a variable that a counted step before `k`
/// binds.
spec fn opened(p: FoldV, k: int, c: int) -> bool {
    p.hops[c].fold && exists|a: int|
        0 <= a < k && (#[trigger] p.hops[a]).fold && p.hops[a].tgt is None && p.hops[a].end == Some(
            p.hops[c].src,
        )
}

spec fn factor(p: FoldV, k: int, c: int, bind: Seq<u64>, used: Seq<u64>) -> nat {
    if opened(p, k, c) {
        hop_count(p, c, bind, used, bind[p.hops[c].src])
    } else {
        1
    }
}

/// What the steps from `lo` up to `m` count that start at a variable counted
/// before `k`.
spec fn open_prod(p: FoldV, k: int, lo: int, m: int, bind: Seq<u64>, used: Seq<u64>) -> nat
    decreases m - lo,
{
    if m <= lo {
        1
    } else {
        open_prod(p, k, lo, m - 1, bind, used) * factor(p, k, m - 1, bind, used)
    }
}

proof fn lemma_prod_first(p: FoldV, k: int, lo: int, m: int, bind: Seq<u64>, used: Seq<u64>)
    requires
        lo < m,
    ensures
        open_prod(p, k, lo, m, bind, used) == factor(p, k, lo, bind, used) * open_prod(
            p,
            k,
            lo + 1,
            m,
            bind,
            used,
        ),
    decreases m - lo,
{
    if m > lo + 1 {
        lemma_prod_first(p, k, lo, m - 1, bind, used);
        let x = factor(p, k, lo, bind, used);
        let y = open_prod(p, k, lo + 1, m - 1, bind, used);
        let z = factor(p, k, m - 1, bind, used);
        assert((x * y) * z == x * (y * z)) by (nonlinear_arith);
    } else {
        reveal_with_fuel(open_prod, 2);
        let x = factor(p, k, lo, bind, used);
        assert(1 * x == x * 1) by (nonlinear_arith);
    }
}

/// A step past `k` that starts at a variable counted before `k` counts the same
/// once step `k` has bound its end.
proof fn lemma_factor_kept(
    p: FoldV,
    k: int,
    c: int,
    bind: Seq<u64>,
    used: Seq<u64>,
    e: Adj,
    used1: Seq<u64>,
)
    requires
        orderly(p),
        0 <= k < c < p.hops.len(),
        bind.len() == p.width,
    ensures
        factor(p, k, c, bind, used) == factor(p, k, c, edge_bound(p, k, bind, e), used1),
{
    if opened(p, k, c) {
        assert(step_orderly(p, k));
        assert(step_orderly(p, c));
        let a = choose|a: int|
            0 <= a < k && (#[trigger] p.hops[a]).fold && p.hops[a].tgt is None && p.hops[a].end
                == Some(p.hops[c].src);
        let h = p.hops[c];
        let b1 = edge_bound(p, k, bind, e);
        if h.track && !h.reset {
            lemma_one_binder(p, a, c - 1);
        }
        assert(hop_base(h, used) == hop_base(h, used1));
        assert(is_folded(p, h.src));
        if p.hops[k].tgt is None {
            let u = p.hops[k].end->0;
            assert(p.hops[a].end->0 < u);
            assert(h.src < u);
            assert forall|t: int| 0 <= t < p.width && #[trigger] below(p, t, h.src) implies bind[t]
                == b1[t] by {
                lemma_not_past(p, t, h.src);
            }
            assert forall|t: int|
                0 <= t < p.width && !is_folded(p, t) && #[trigger] bound_first(
                    p,
                    t,
                    level_of(h),
                ) implies bind[t] == b1[t] by {
                assert(below(p, h.src, h.src));
                if h.tgt is None {
                    lemma_above_end(p, h.src, c);
                }
                assert(below(p, h.src, level_of(h)));
                assert(t < h.src);
            }
        }
        assert(agree(p, c, bind, b1));
        lemma_agree_hop(p, c, bind, b1, used, used1, bind[h.src]);
        assert(b1[h.src] == bind[h.src]);
    }
}

proof fn lemma_prod_kept(
    p: FoldV,
    k: int,
    m: int,
    bind: Seq<u64>,
    used: Seq<u64>,
    e: Adj,
    used1: Seq<u64>,
)
    requires
        orderly(p),
        0 <= k < m <= p.hops.len(),
        bind.len() == p.width,
    ensures
        open_prod(p, k, k + 1, m, bind, used) == open_prod(
            p,
            k,
            k + 1,
            m,
            edge_bound(p, k, bind, e),
            used1,
        ),
    decreases m,
{
    if m > k + 1 {
        lemma_prod_kept(p, k, m - 1, bind, used, e, used1);
        lemma_factor_kept(p, k, m - 1, bind, used, e, used1);
    }
}

/// A step that counts nothing opens nothing.
proof fn lemma_prod_closed(p: FoldV, k: int, m: int, bind: Seq<u64>, used: Seq<u64>)
    requires
        orderly(p),
        0 <= k < m <= p.hops.len(),
        !p.hops[k].fold || p.hops[k].tgt is Some,
    ensures
        open_prod(p, k + 1, k + 1, m, bind, used) == open_prod(p, k, k + 1, m, bind, used),
    decreases m,
{
    if m > k + 1 {
        lemma_prod_closed(p, k, m - 1, bind, used);
        let c = m - 1;
        assert(opened(p, k + 1, c) == opened(p, k, c)) by {
            if opened(p, k + 1, c) {
                let a = choose|a: int|
                    0 <= a < k + 1 && (#[trigger] p.hops[a]).fold && p.hops[a].tgt is None
                        && p.hops[a].end == Some(p.hops[c].src);
                assert(a != k);
            }
        }
    }
}

proof fn lemma_kids_prefix(hops: Seq<CountHop>, u: int, m: nat, n: nat)
    requires
        m <= n,
    ensures
        kids_upto(hops, u, m).len() <= kids_upto(hops, u, n).len(),
        forall|i: int|
            0 <= i < kids_upto(hops, u, m).len() ==> #[trigger] kids_upto(hops, u, n)[i]
                == kids_upto(hops, u, m)[i],
    decreases n,
{
    if m < n {
        lemma_kids_prefix(hops, u, m, (n - 1) as nat);
    }
}

/// What a step that counts opens is what starts at its end.
proof fn lemma_prod_split(p: FoldV, k: int, m: int, bind: Seq<u64>, used: Seq<u64>)
    requires
        orderly(p),
        0 <= k < m <= p.hops.len(),
        p.hops[k].fold,
        p.hops[k].tgt is None,
    ensures
        open_prod(p, k + 1, k + 1, m, bind, used) == open_prod(p, k, k + 1, m, bind, used)
            * level_count(
            p,
            p.hops[k].end->0,
            kids_upto(p.hops, p.hops[k].end->0, m as nat).len(),
            bind,
            used,
            bind[p.hops[k].end->0],
        ),
    decreases m,
{
    let u = p.hops[k].end->0;
    assert(step_orderly(p, k));
    assert(p.hops[k].end == Some(u));
    let ks = kids_upto(p.hops, u, m as nat);
    if m == k + 1 {
        fold_model::lemma_kids_upto(p.hops, u, m as nat);
        assert(open_prod(p, k + 1, k + 1, m, bind, used) == 1);
        assert(open_prod(p, k, k + 1, m, bind, used) == 1);
        assert(ks.len() == 0) by {
            if ks.len() > 0 {
                let c = ks[0];
                assert(p.hops[c].fold && p.hops[c].src == u && 0 <= c < m);
                assert(p.hops[k].end == Some(p.hops[c].src));
            }
        }
    } else {
        lemma_prod_split(p, k, m - 1, bind, used);
        let c = m - 1;
        let before = kids_upto(p.hops, u, (m - 1) as nat);
        lemma_kids_prefix(p.hops, u, m as nat, p.hops.len());
        let x = open_prod(p, k, k + 1, m - 1, bind, used);
        let y = level_count(p, u, before.len(), bind, used, bind[u]);
        let z = factor(p, k + 1, c, bind, used);
        if p.hops[c].fold && p.hops[c].src == u {
            assert(opened(p, k + 1, c)) by {
                assert(p.hops[k].fold && p.hops[k].end == Some(p.hops[c].src));
            }
            assert(!opened(p, k, c)) by {
                if opened(p, k, c) {
                    let a = choose|a: int|
                        0 <= a < k && (#[trigger] p.hops[a]).fold && p.hops[a].tgt is None
                            && p.hops[a].end == Some(p.hops[c].src);
                    lemma_one_binder(p, a, k);
                }
            }
            assert(ks == before.push(c));
            assert(kids(p, u)[ks.len() - 1] == c) by {
                assert(ks[ks.len() - 1] == c);
            }
            assert(level_count(p, u, ks.len(), bind, used, bind[u]) == y * z);
            assert(factor(p, k, c, bind, used) == 1);
            assert(open_prod(p, k, k + 1, m, bind, used) == x) by {
                assert(x * 1 == x) by (nonlinear_arith);
            }
            assert(open_prod(p, k + 1, k + 1, m, bind, used) == (x * y) * z);
            assert((x * y) * z == x * (y * z)) by (nonlinear_arith);
        } else {
            assert(opened(p, k + 1, c) == opened(p, k, c)) by {
                if opened(p, k + 1, c) {
                    let a = choose|a: int|
                        0 <= a < k + 1 && (#[trigger] p.hops[a]).fold && p.hops[a].tgt is None
                            && p.hops[a].end == Some(p.hops[c].src);
                    assert(a != k);
                }
            }
            assert(ks == before);
            assert(factor(p, k, c, bind, used) == z);
            assert(open_prod(p, k, k + 1, m, bind, used) == x * z);
            assert(open_prod(p, k + 1, k + 1, m, bind, used) == (x * y) * z);
            assert((x * y) * z == (x * z) * y) by (nonlinear_arith);
        }
    }
}

/// Every step up to `k` of the path that it ends in is taken row by row.
spec fn clear(p: FoldV, k: int) -> bool
    decreases k,
{
    k <= 0 || (p.hops[k - 1].track && !p.hops[k - 1].fold && (p.hops[k - 1].reset || clear(
        p,
        k - 1,
    )))
}

proof fn lemma_clear(p: FoldV, k: int)
    requires
        orderly(p),
        0 <= k < p.hops.len(),
        p.hops[k].track,
        !p.hops[k].reset,
        !is_folded(p, p.hops[k].src),
    ensures
        clear(p, k),
    decreases k,
{
    if k > 0 {
        assert(step_orderly(p, k));
        assert(step_orderly(p, k - 1));
        assert(!p.hops[k - 1].fold);
        if !p.hops[k - 1].reset {
            lemma_clear(p, k - 1);
        }
    }
}

/// One binding holds everything; another holds the same but for what is
/// counted.
spec fn related(p: FoldV, k: int, b: Seq<u64>, u: Seq<u64>, z: Seq<u64>, w: Seq<u64>) -> bool {
    &&& b.len() == p.width
    &&& z.len() == p.width
    &&& forall|v: int| 0 <= v < p.width && !#[trigger] is_folded(p, v) ==> b[v] == z[v]
    &&& clear(p, k) ==> u == w
}

/// The matches of the steps from `k` on are what they stand for, times what is
/// counted below what is bound.
proof fn lemma_walks(p: FoldV, k: int, b: Seq<u64>, u: Seq<u64>, z: Seq<u64>, w: Seq<u64>, keep: spec_fn(Seq<u64>) -> bool)
    requires
        orderly(p),
        tells_uncounted(p, keep),
        0 <= k <= p.hops.len(),
        related(p, k, b, u, z, w),
    ensures
        walks_kept(p, k, b, u, keep) == weighted_kept(p, k, z, w, keep) * open_prod(
            p,
            k,
            k,
            p.hops.len() as int,
            b,
            u,
        ),
    decreases p.hops.len() - k, 1nat, 0nat,
{
    let n = p.hops.len() as int;
    if k < n {
        let h = p.hops[k];
        assert(step_orderly(p, k));
        lemma_prod_first(p, k, k, n, b, u);
        let rest = open_prod(p, k, k + 1, n, b, u);
        let es = p.g.adj(b[h.src], h.dir, h.tokens);
        let base = hop_base(h, u);
        if !h.fold {
            if h.track && !h.reset {
                lemma_clear(p, k);
            }
            assert(z[h.src] == b[h.src]);
            assert(hop_base(h, w) == base);
            lemma_edges_apart(p, k, b, u, z, w, es, keep);
            assert(factor(p, k, k, b, u) == 1);
            assert(1 * rest == rest) by (nonlinear_arith);
            assert(open_prod(p, k, k, n, b, u) == rest);
            assert(weighted_kept(p, k, z, w, keep) == edge_weighted_kept(p, k, z, base, es, keep));
        } else {
            lemma_edges_counted(p, k, b, u, z, w, es, keep);
            let x = hop_count(p, k, b, u, b[h.src]);
            let y = weighted_kept(p, k + 1, z, w, keep);
            assert(walks_kept(p, k, b, u, keep) == y * rest * x);
            if is_folded(p, h.src) {
                assert(opened(p, k, k)) by {
                    let a = choose|a: int|
                        0 <= a < p.hops.len() && (#[trigger] p.hops[a]).fold && p.hops[a].tgt is None
                            && p.hops[a].end == Some(h.src);
                    assert(p.hops[a].end == Some(p.hops[k].src));
                    assert(a < k);
                }
                assert(open_prod(p, k, k, n, b, u) == x * rest);
                assert(weighted_kept(p, k, z, w, keep) == y);
                assert(y * rest * x == y * (x * rest)) by (nonlinear_arith);
            } else {
                assert(!opened(p, k, k)) by {
                    if opened(p, k, k) {
                        let a = choose|a: int|
                            0 <= a < k && (#[trigger] p.hops[a]).fold && p.hops[a].tgt is None
                                && p.hops[a].end == Some(p.hops[k].src);
                        assert(is_folded(p, h.src));
                    }
                }
                if h.track && !h.reset {
                    lemma_clear(p, k);
                }
                assert(agree(p, k, b, z)) by {
                    assert forall|t: int| 0 <= t < p.width && #[trigger] below(
                        p,
                        t,
                        h.src,
                    ) implies b[t] == z[t] by {
                        assert(t == h.src);
                    }
                }
                lemma_agree_hop(p, k, b, z, u, w, b[h.src]);
                assert(z[h.src] == b[h.src]);
                assert(factor(p, k, k, b, u) == 1);
                assert(1 * rest == rest) by (nonlinear_arith);
                assert(open_prod(p, k, k, n, b, u) == rest);
                assert(weighted_kept(p, k, z, w, keep) == x * y);
                assert(y * rest * x == (x * y) * rest) by (nonlinear_arith);
            }
        }
    } else {
        assert(keep(b) == keep(z));
        assert(1nat * 1nat == 1 && 0nat * 1nat == 0) by (nonlinear_arith);
    }
}

/// [`lemma_walks`] over the edges of a step that is not counted.
proof fn lemma_edges_apart(
    p: FoldV,
    k: int,
    b: Seq<u64>,
    u: Seq<u64>,
    z: Seq<u64>,
    w: Seq<u64>,
    es: Seq<Adj>, keep: spec_fn(Seq<u64>) -> bool)
    requires
        orderly(p),
        tells_uncounted(p, keep),
        0 <= k < p.hops.len(),
        !p.hops[k].fold,
        related(p, k, b, u, z, w),
        hop_base(p.hops[k], u) == hop_base(p.hops[k], w),
    ensures
        edge_walks_kept(p, k, b, hop_base(p.hops[k], u), es, keep) == edge_weighted_kept(
            p,
            k,
            z,
            hop_base(p.hops[k], w),
            es, keep) * open_prod(p, k, k + 1, p.hops.len() as int, b, u),
    decreases p.hops.len() - k, 0nat, es.len(),
{
    let n = p.hops.len() as int;
    let h = p.hops[k];
    let base = hop_base(h, u);
    let rest = open_prod(p, k, k + 1, n, b, u);
    assert(step_orderly(p, k));
    if es.len() == 0 {
        assert(0 * rest == 0) by (nonlinear_arith);
    } else {
        lemma_edges_apart(p, k, b, u, z, w, es.drop_last(), keep);
        let e = es.last();
        assert(edge_taken(p, k, b, base, e) == edge_taken(p, k, z, base, e)) by {
            match h.tgt {
                Some(t) => {
                    assert(b[t] == z[t]);
                },
                None => {},
            }
        }
        let x = edge_weighted_kept(p, k, z, base, es.drop_last(), keep);
        if edge_taken(p, k, b, base, e) {
            let b1 = edge_bound(p, k, b, e);
            let z1 = edge_bound(p, k, z, e);
            let u1 = used_below(h, base, e);
            assert(related(p, k + 1, b1, u1, z1, u1));
            lemma_walks(p, k + 1, b1, u1, z1, u1, keep);
            lemma_prod_closed(p, k, n, b1, u1);
            lemma_prod_kept(p, k, n, b, u, e, u1);
            let y = weighted_kept(p, k + 1, z1, u1, keep);
            assert((x + y) * rest == x * rest + y * rest) by (nonlinear_arith);
        }
    }
}

/// [`lemma_walks`] over the edges of a step that is counted.
proof fn lemma_edges_counted(
    p: FoldV,
    k: int,
    b: Seq<u64>,
    u: Seq<u64>,
    z: Seq<u64>,
    w: Seq<u64>,
    es: Seq<Adj>, keep: spec_fn(Seq<u64>) -> bool)
    requires
        orderly(p),
        tells_uncounted(p, keep),
        0 <= k < p.hops.len(),
        p.hops[k].fold,
        related(p, k, b, u, z, w),
    ensures
        edge_walks_kept(p, k, b, hop_base(p.hops[k], u), es, keep) == weighted_kept(p, k + 1, z, w, keep) * open_prod(
            p,
            k,
            k + 1,
            p.hops.len() as int,
            b,
            u,
        ) * match p.hops[k].tgt {
            Some(t) => graph::closing(es, b[t], hop_base(p.hops[k], u)),
            None => edges_count(p, k, b, hop_base(p.hops[k], u), es),
        },
    decreases p.hops.len() - k, 0nat, es.len(),
{
    let n = p.hops.len() as int;
    let h = p.hops[k];
    let base = hop_base(h, u);
    let rest = open_prod(p, k, k + 1, n, b, u);
    let y = weighted_kept(p, k + 1, z, w, keep);
    assert(step_orderly(p, k));
    if es.len() == 0 {
        assert(y * rest * 0 == 0) by (nonlinear_arith);
    } else {
        lemma_edges_counted(p, k, b, u, z, w, es.drop_last(), keep);
        let e = es.last();
        let x = match h.tgt {
            Some(t) => graph::closing(es.drop_last(), b[t], base),
            None => edges_count(p, k, b, base, es.drop_last()),
        };
        if edge_taken(p, k, b, base, e) {
            let b1 = edge_bound(p, k, b, e);
            let u1 = used_below(h, base, e);
            if h.tgt is None {
                assert(h.end == Some(h.end->0));
                assert(is_folded(p, h.end->0));
            }
            assert(!clear(p, k + 1));
            assert(related(p, k + 1, b1, u1, z, w));
            lemma_walks(p, k + 1, b1, u1, z, w, keep);
            lemma_prod_kept(p, k, n, b, u, e, u1);
            match h.tgt {
                Some(t) => {
                    lemma_prod_closed(p, k, n, b1, u1);
                    assert(y * rest * (x + 1) == y * rest * x + y * rest) by (nonlinear_arith);
                },
                None => {
                    let v = h.end->0;
                    lemma_prod_split(p, k, n, b1, u1);
                    let l = level_count(p, v, kids(p, v).len(), b1, u1, b1[v]);
                    assert(b1[v] == e.peer);
                    assert(y * rest * (x + l) == y * rest * x + y * (rest * l)) by (nonlinear_arith);
                },
            }
        }
    }
}

/// Counting is expanding: what the rows that are kept stand for, counted steps
/// multiplying by what they count, is the number of matches that are kept of those
/// that taking every step row by row finds, as long as what is not counted tells
/// what is kept.
pub proof fn law_counting_keeps_what_expanding_keeps(
    p: FoldV,
    bind: Seq<u64>,
    keep: spec_fn(Seq<u64>) -> bool,
)
    requires
        orderly(p),
        bind.len() == p.width,
        tells_uncounted(p, keep),
    ensures
        weighted_kept(p, 0, bind, Seq::empty(), keep) == walks_kept(
            p,
            0,
            bind,
            Seq::empty(),
            keep,
        ),
{
    let n = p.hops.len() as int;
    let none = Seq::<u64>::empty();
    lemma_walks(p, 0, bind, none, bind, none, keep);
    lemma_prod_unopened(p, n, bind);
    let x = weighted_kept(p, 0, bind, none, keep);
    assert(x * 1 == x);
}

/// Counting is expanding: what the steps of a chain stand for, counted steps
/// multiplying by what they count, is the number of matches that taking every
/// step row by row finds.
pub proof fn law_counting_is_expanding(p: FoldV, bind: Seq<u64>)
    requires
        orderly(p),
        bind.len() == p.width,
    ensures
        weighted(p, 0, bind, Seq::empty()) == walks(p, 0, bind, Seq::empty()),
{
    law_counting_keeps_what_expanding_keeps(p, bind, any_bind());
}

proof fn lemma_prod_unopened(p: FoldV, m: int, bind: Seq<u64>)
    requires
        0 <= m,
    ensures
        open_prod(p, 0, 0, m, bind, Seq::empty()) == 1,
    decreases m,
{
    if m > 0 {
        lemma_prod_unopened(p, m - 1, bind);
        assert(factor(p, 0, m - 1, bind, Seq::empty()) == 1);
        assert(1nat * 1nat == 1) by (nonlinear_arith);
    }
}

} // verus!
