//! Taking steps row by row finds every match once: there are as many walks as
//! there are ways to give each variable a node and each hop a relationship.

use vstd::prelude::*;

use crate::fold_law::{any_bind, edge_bound, edge_taken, edge_walks_kept, walks, walks_kept};
use crate::fold_model::{hop_base, pred_holds, pred_var, preds_hold, used_below, FoldV};
use crate::graph;
use crate::graph::{row_of, strip, typed, Adj, Dir, Graph};
use crate::seqs;

verus! {

/// A step reads what is bound before it, and later steps bind later variables.
pub open spec fn step_ordered(p: FoldV, k: int) -> bool {
    let h = p.hops[k];
    &&& 0 <= h.src < p.width
    &&& match h.tgt {
        Some(t) => 0 <= t < p.width && h.end is None,
        None => h.end matches Some(e) && h.src < e < p.width && forall|i: int|
            0 <= i < h.preds.len() ==> 0 <= pred_var(#[trigger] h.preds[i]) <= e,
    }
}

/// The steps of a chain are in binding order.
pub open spec fn ordered(p: FoldV) -> bool {
    &&& p.g.wf()
    &&& forall|k: int| 0 <= k < p.hops.len() ==> #[trigger] step_ordered(p, k)
    &&& forall|k: int, j: int|
        #![trigger p.hops[k], p.hops[j]]
        0 <= k < j < p.hops.len() && p.hops[j].tgt is None ==> p.hops[k].src < p.hops[j].end->0 && (
        match p.hops[k].tgt {
            Some(t) => t < p.hops[j].end->0,
            None => p.hops[k].end->0 < p.hops[j].end->0,
        })
}

/// The sum over all nodes of what a variable can be given.
pub open spec fn node_sum(n: nat, f: spec_fn(u64) -> nat) -> nat
    decreases n,
{
    if n == 0 {
        0
    } else {
        node_sum((n - 1) as nat, f) + f((n - 1) as u64)
    }
}

/// The sum over every way to give a node to the variables that the steps from
/// `k` on bind.
pub open spec fn bind_sum(p: FoldV, k: int, bind: Seq<u64>, f: spec_fn(Seq<u64>) -> nat) -> nat
    decreases p.hops.len() - k, 1nat, 0nat,
{
    if k < 0 || k >= p.hops.len() {
        f(bind)
    } else {
        match p.hops[k].tgt {
            Some(_) => bind_sum(p, k + 1, bind, f),
            None => bind_over(p, k, bind, f, p.g.labels@.len()),
        }
    }
}

/// [`bind_sum`] with the first `n` nodes for the end of step `k`.
pub open spec fn bind_over(
    p: FoldV,
    k: int,
    bind: Seq<u64>,
    f: spec_fn(Seq<u64>) -> nat,
    n: nat,
) -> nat
    decreases p.hops.len() - k, 0nat, n,
{
    if k < 0 || k >= p.hops.len() || n == 0 {
        0
    } else {
        bind_over(p, k, bind, f, (n - 1) as nat) + bind_sum(
            p,
            k + 1,
            bind.update(p.hops[k].end->0, (n - 1) as u64),
            f,
        )
    }
}

/// [`bind_over`] is a sum over nodes.
pub proof fn lemma_over(
    p: FoldV,
    k: int,
    bind: Seq<u64>,
    f: spec_fn(Seq<u64>) -> nat,
    n: nat,
    each: spec_fn(u64) -> nat,
)
    requires
        0 <= k < p.hops.len(),
        forall|x: u64| #[trigger]
            each(x) == bind_sum(p, k + 1, bind.update(p.hops[k].end->0, x), f),
    ensures
        bind_over(p, k, bind, f, n) == node_sum(n, each),
    decreases n,
{
    if n > 0 {
        lemma_over(p, k, bind, f, (n - 1) as nat, each);
        assert(each((n - 1) as u64) == bind_sum(
            p,
            k + 1,
            bind.update(p.hops[k].end->0, (n - 1) as u64),
            f,
        ));
    }
}

/// The node that a step leads to.
pub open spec fn reached(p: FoldV, k: int, bind: Seq<u64>) -> u64 {
    match p.hops[k].tgt {
        Some(t) => bind[t],
        None => bind[p.hops[k].end->0],
    }
}

/// Whether the node that a step binds has its labels and passes its tests.
pub open spec fn node_fits(p: FoldV, k: int, bind: Seq<u64>) -> bool {
    let h = p.hops[k];
    h.tgt is None ==> graph::is_member(h.members, reached(p, k, bind)) && preds_hold(
        p.g,
        bind,
        reached(p, k, bind),
        h.preds,
    )
}

/// In how many ways the steps from `k` on can be given relationships, once every
/// variable has a node.
pub open spec fn rel_choices(p: FoldV, k: int, bind: Seq<u64>, used: Seq<u64>) -> nat
    decreases p.hops.len() - k, 1nat, 0nat,
{
    if k < 0 || k >= p.hops.len() {
        1
    } else if !node_fits(p, k, bind) {
        0
    } else {
        let h = p.hops[k];
        edge_choices(p, k, bind, hop_base(h, used), p.g.adj(bind[h.src], h.dir, h.tokens))
    }
}

/// [`rel_choices`] with the relationship of step `k` among edges.
pub open spec fn edge_choices(
    p: FoldV,
    k: int,
    bind: Seq<u64>,
    base: Seq<u64>,
    es: Seq<Adj>,
) -> nat
    decreases p.hops.len() - k, 0nat, es.len(),
{
    if k < 0 || k >= p.hops.len() || es.len() == 0 {
        0
    } else {
        let e = es.last();
        edge_choices(p, k, bind, base, es.drop_last()) + if e.peer == reached(p, k, bind)
            && !base.contains(e.rel) {
            rel_choices(p, k + 1, bind, used_below(p.hops[k], base, e))
        } else {
            0
        }
    }
}

/// Bindings agree on what the steps from `k` on do not bind.
pub open spec fn agree_before(p: FoldV, k: int, a: Seq<u64>, b: Seq<u64>) -> bool {
    &&& a.len() == b.len()
    &&& forall|v: int|
        0 <= v < a.len() && (forall|j: int|
            k <= j < p.hops.len() && (#[trigger] p.hops[j]).tgt is None ==> p.hops[j].end != Some(v))
            ==> a[v] == b[v]
}

pub proof fn lemma_nodes_same(n: nat, f: spec_fn(u64) -> nat, h: spec_fn(u64) -> nat)
    requires
        forall|x: u64| #[trigger] f(x) == h(x),
    ensures
        node_sum(n, f) == node_sum(n, h),
    decreases n,
{
    if n > 0 {
        lemma_nodes_same((n - 1) as nat, f, h);
        assert(f((n - 1) as u64) == h((n - 1) as u64));
    }
}

pub proof fn lemma_nodes_add(n: nat, f: spec_fn(u64) -> nat, h: spec_fn(u64) -> nat)
    ensures
        node_sum(n, |x: u64| f(x) + h(x)) == node_sum(n, f) + node_sum(n, h),
    decreases n,
{
    if n > 0 {
        lemma_nodes_add((n - 1) as nat, f, h);
    }
}

/// A sum in which only one node counts.
proof fn lemma_nodes_one(n: nat, at: u64, f: spec_fn(u64) -> nat)
    requires
        n <= u64::MAX,
        forall|x: u64| x != at ==> #[trigger] f(x) == 0,
    ensures
        node_sum(n, f) == if at < n {
            f(at)
        } else {
            0
        },
    decreases n,
{
    if n > 0 {
        lemma_nodes_one((n - 1) as nat, at, f);
        let x = (n - 1) as u64;
        if x != at {
            assert(f(x) == 0);
        }
    }
}

/// The sum depends only on what is summed over extensions of the binding.
pub proof fn lemma_bind_same(
    p: FoldV,
    k: int,
    bind: Seq<u64>,
    f: spec_fn(Seq<u64>) -> nat,
    h: spec_fn(Seq<u64>) -> nat,
)
    requires
        ordered(p),
        bind.len() == p.width,
        0 <= k <= p.hops.len(),
        forall|b: Seq<u64>| agree_before(p, k, bind, b) ==> #[trigger] f(b) == h(b),
    ensures
        bind_sum(p, k, bind, f) == bind_sum(p, k, bind, h),
    decreases p.hops.len() - k,
{
    if k == p.hops.len() {
        assert(agree_before(p, k, bind, bind));
        assert(f(bind) == h(bind));
    } else {
        match p.hops[k].tgt {
            Some(_) => {
                assert forall|b: Seq<u64>| agree_before(p, k + 1, bind, b) implies #[trigger] f(b)
                    == h(b) by {
                    lemma_agree_weaker(p, k, bind, bind, 0, b);
                }
                lemma_bind_same(p, k + 1, bind, f, h);
            },
            None => {
                assert(step_ordered(p, k));
                let u = p.hops[k].end->0;
                let n = p.g.labels@.len();
                let x1 = |x: u64| bind_sum(p, k + 1, bind.update(u, x), f);
                let x2 = |x: u64| bind_sum(p, k + 1, bind.update(u, x), h);
                assert forall|x: u64| #[trigger] x1(x) == x2(x) by {
                    assert forall|b: Seq<u64>|
                        agree_before(p, k + 1, bind.update(u, x), b) implies #[trigger] f(b) == h(
                        b,
                    ) by {
                        lemma_agree_weaker(p, k, bind, bind.update(u, x), x, b);
                    }
                    lemma_bind_same(p, k + 1, bind.update(u, x), f, h);
                }
                lemma_nodes_same(n, x1, x2);
                lemma_over(p, k, bind, f, n, x1);
                lemma_over(p, k, bind, h, n, x2);
            },
        }
    }
}

/// What agrees after step `k` has bound its end agrees before it.
proof fn lemma_agree_weaker(p: FoldV, k: int, bind: Seq<u64>, next: Seq<u64>, x: u64, b: Seq<u64>)
    requires
        ordered(p),
        bind.len() == p.width,
        0 <= k < p.hops.len(),
        agree_before(p, k + 1, next, b),
        next == match p.hops[k].tgt {
            Some(_) => bind,
            None => bind.update(p.hops[k].end->0, x),
        },
    ensures
        agree_before(p, k, bind, b),
{
    assert(step_ordered(p, k));
    assert forall|v: int|
        0 <= v < bind.len() && (forall|j: int|
            k <= j < p.hops.len() && (#[trigger] p.hops[j]).tgt is None ==> p.hops[j].end != Some(
                v,
            )) implies bind[v] == b[v] by {
        if p.hops[k].tgt is None {
            assert(p.hops[k].end != Some(v));
        }
        assert(next[v] == bind[v]);
        assert(next[v] == b[v]);
    }
}

proof fn lemma_bind_add(
    p: FoldV,
    k: int,
    bind: Seq<u64>,
    f: spec_fn(Seq<u64>) -> nat,
    h: spec_fn(Seq<u64>) -> nat,
)
    requires
        ordered(p),
        bind.len() == p.width,
        0 <= k <= p.hops.len(),
    ensures
        bind_sum(p, k, bind, |b: Seq<u64>| f(b) + h(b)) == bind_sum(p, k, bind, f) + bind_sum(
            p,
            k,
            bind,
            h,
        ),
    decreases p.hops.len() - k,
{
    let both = |b: Seq<u64>| f(b) + h(b);
    if k < p.hops.len() {
        match p.hops[k].tgt {
            Some(_) => {
                lemma_bind_add(p, k + 1, bind, f, h);
            },
            None => {
                assert(step_ordered(p, k));
                let u = p.hops[k].end->0;
                let n = p.g.labels@.len();
                let x1 = |x: u64| bind_sum(p, k + 1, bind.update(u, x), f);
                let x2 = |x: u64| bind_sum(p, k + 1, bind.update(u, x), h);
                let x3 = |x: u64| bind_sum(p, k + 1, bind.update(u, x), both);
                let x4 = |x: u64| x1(x) + x2(x);
                assert forall|x: u64| #[trigger] x3(x) == x4(x) by {
                    lemma_bind_add(p, k + 1, bind.update(u, x), f, h);
                }
                lemma_nodes_same(n, x3, x4);
                lemma_nodes_add(n, x1, x2);
                lemma_over(p, k, bind, f, n, x1);
                lemma_over(p, k, bind, h, n, x2);
                lemma_over(p, k, bind, both, n, x3);
            },
        }
    }
}

pub proof fn lemma_bind_zero(p: FoldV, k: int, bind: Seq<u64>, f: spec_fn(Seq<u64>) -> nat)
    requires
        ordered(p),
        bind.len() == p.width,
        0 <= k <= p.hops.len(),
        forall|b: Seq<u64>| agree_before(p, k, bind, b) ==> #[trigger] f(b) == 0,
    ensures
        bind_sum(p, k, bind, f) == 0,
    decreases p.hops.len() - k,
{
    if k == p.hops.len() {
        assert(agree_before(p, k, bind, bind));
        assert(f(bind) == 0);
    } else {
        match p.hops[k].tgt {
            Some(_) => {
                assert forall|b: Seq<u64>| agree_before(p, k + 1, bind, b) implies #[trigger] f(b)
                    == 0 by {
                    lemma_agree_weaker(p, k, bind, bind, 0, b);
                }
                lemma_bind_zero(p, k + 1, bind, f);
            },
            None => {
                assert(step_ordered(p, k));
                let u = p.hops[k].end->0;
                let n = p.g.labels@.len();
                let x1 = |x: u64| bind_sum(p, k + 1, bind.update(u, x), f);
                let zero = |x: u64| 0nat;
                assert forall|x: u64| #[trigger] x1(x) == zero(x) by {
                    assert forall|b: Seq<u64>|
                        agree_before(p, k + 1, bind.update(u, x), b) implies #[trigger] f(b) == 0 by {
                        lemma_agree_weaker(p, k, bind, bind.update(u, x), x, b);
                    }
                    lemma_bind_zero(p, k + 1, bind.update(u, x), f);
                }
                lemma_nodes_same(n, x1, zero);
                lemma_nodes_zero(n, zero);
                lemma_over(p, k, bind, f, n, x1);
            },
        }
    }
}

pub proof fn lemma_nodes_zero(n: nat, f: spec_fn(u64) -> nat)
    requires
        forall|x: u64| #[trigger] f(x) == 0,
    ensures
        node_sum(n, f) == 0,
    decreases n,
{
    if n > 0 {
        lemma_nodes_zero((n - 1) as nat, f);
        assert(f((n - 1) as u64) == 0);
    }
}

proof fn lemma_strip_holds(row: Seq<Adj>, i: int)
    requires
        0 <= i < row.len(),
    ensures
        strip(row, row[i].peer).len() > 0,
    decreases row.len(),
{
    if i < row.len() - 1 {
        lemma_strip_holds(row.drop_last(), i);
        assert(row.drop_last()[i] == row[i]);
    }
}

/// Every edge leads to a node.
pub proof fn lemma_peer_in(g: Graph, node: u64, dir: Dir, t: Option<Seq<u32>>, i: int)
    requires
        g.wf(),
        0 <= i < g.adj(node, dir, t).len(),
    ensures
        g.adj(node, dir, t)[i].peer < g.labels@.len(),
{
    let e = g.adj(node, dir, t)[i];
    let o = row_of(g.out@, node);
    let n = row_of(g.into@, node);
    let p = |e: Adj| graph::admits(t, e.typ);
    let q = |e: Adj| e.peer != node;
    let es = g.adj(node, dir, t);
    assert(o.contains(e) || n.contains(e)) by {
        if dir == Dir::Out || (dir == Dir::Both && i < typed(o, t).len()) {
            assert(typed(o, t)[i] == e);
            seqs::lemma_filter_contains(o, p, e);
        } else if dir == Dir::In {
            assert(typed(n, t)[i] == e);
            seqs::lemma_filter_contains(n, p, e);
        } else {
            let j = i - typed(o, t).len();
            assert(typed(n, t).filter(q)[j] == e);
            seqs::lemma_filter_contains(typed(n, t), q, e);
            seqs::lemma_filter_contains(n, p, e);
        }
    }
    if o.contains(e) {
        let k = choose|k: int| 0 <= k < o.len() && o[k] == e;
        lemma_strip_holds(o, k);
        assert(strip(row_of(g.out@, node), e.peer) == strip(row_of(g.into@, e.peer), node));
    } else {
        let k = choose|k: int| 0 <= k < n.len() && n[k] == e;
        lemma_strip_holds(n, k);
        assert(strip(row_of(g.out@, e.peer), node) == strip(row_of(g.into@, node), e.peer));
    }
}

/// The walks from `k` on that are kept are the matches that are.
proof fn lemma_matches(
    p: FoldV,
    k: int,
    bind: Seq<u64>,
    used: Seq<u64>,
    keep: spec_fn(Seq<u64>) -> bool,
)
    requires
        ordered(p),
        p.g.labels@.len() <= u64::MAX,
        0 <= k <= p.hops.len(),
        bind.len() == p.width,
    ensures
        walks_kept(p, k, bind, used, keep) == bind_sum(
            p,
            k,
            bind,
            |b: Seq<u64>|
                if keep(b) {
                    rel_choices(p, k, b, used)
                } else {
                    0
                },
        ),
    decreases p.hops.len() - k, 1nat, 0nat,
{
    let f = |b: Seq<u64>|
        if keep(b) {
            rel_choices(p, k, b, used)
        } else {
            0
        };
    if k < p.hops.len() {
        let h = p.hops[k];
        assert(step_ordered(p, k));
        let base = hop_base(h, used);
        let es = p.g.adj(bind[h.src], h.dir, h.tokens);
        assert forall|i: int| 0 <= i < es.len() implies (#[trigger] es[i]).peer
            < p.g.labels@.len() by {
            lemma_peer_in(p.g, bind[h.src], h.dir, h.tokens, i);
        }
        lemma_edge_matches(p, k, bind, base, es, keep);
        let g = |b: Seq<u64>|
            if keep(b) && node_fits(p, k, b) {
                edge_choices(p, k, b, base, es)
            } else {
                0
            };
        assert forall|b: Seq<u64>| agree_before(p, k, bind, b) implies #[trigger] f(b) == g(b) by {
            lemma_source_kept(p, k, bind, b);
        }
        lemma_bind_same(p, k, bind, f, g);
    } else {
        assert(f(bind) == if keep(bind) {
            1nat
        } else {
            0
        });
    }
}

/// What a step reads is not bound from it on.
proof fn lemma_source_kept(p: FoldV, k: int, bind: Seq<u64>, b: Seq<u64>)
    requires
        ordered(p),
        0 <= k < p.hops.len(),
        bind.len() == p.width,
        agree_before(p, k, bind, b),
    ensures
        b[p.hops[k].src] == bind[p.hops[k].src],
        p.hops[k].tgt matches Some(t) ==> b[t] == bind[t],
{
    assert(step_ordered(p, k));
    let h = p.hops[k];
    assert forall|j: int| k <= j < p.hops.len() && (#[trigger] p.hops[j]).tgt is None implies p.hops[j].end
        != Some(h.src) by {
        assert(step_ordered(p, j));
    }
    match h.tgt {
        Some(t) => {
            assert forall|j: int|
                k <= j < p.hops.len() && (#[trigger] p.hops[j]).tgt is None implies p.hops[j].end
                != Some(t) by {
                assert(step_ordered(p, j));
            }
        },
        None => {},
    }
}

/// What a step binds and tests is not bound after it.
proof fn lemma_end_kept(p: FoldV, k: int, next: Seq<u64>, b: Seq<u64>)
    requires
        ordered(p),
        0 <= k < p.hops.len(),
        p.hops[k].tgt is None,
        next.len() == p.width,
        agree_before(p, k + 1, next, b),
    ensures
        reached(p, k, b) == reached(p, k, next),
        node_fits(p, k, b) == node_fits(p, k, next),
{
    assert(step_ordered(p, k));
    let h = p.hops[k];
    let u = h.end->0;
    assert forall|v: int| 0 <= v <= u implies b[v] == next[v] by {
        assert forall|j: int|
            k + 1 <= j < p.hops.len() && (#[trigger] p.hops[j]).tgt is None implies p.hops[j].end
            != Some(v) by {
            assert(step_ordered(p, j));
            assert(p.hops[k].end->0 < p.hops[j].end->0);
        }
    }
    let x = reached(p, k, next);
    assert forall|i: int| 0 <= i < h.preds.len() implies pred_holds(
        p.g,
        b,
        x,
        #[trigger] h.preds[i],
    ) == pred_holds(p.g, next, x, h.preds[i]) by {
        assert(0 <= pred_var(h.preds[i]) <= u);
    }
    if preds_hold(p.g, b, x, h.preds) {
        assert forall|i: int| 0 <= i < h.preds.len() implies pred_holds(
            p.g,
            next,
            x,
            #[trigger] h.preds[i],
        ) by {
            assert(pred_holds(p.g, b, x, h.preds[i]));
        }
    }
    if preds_hold(p.g, next, x, h.preds) {
        assert forall|i: int| 0 <= i < h.preds.len() implies pred_holds(
            p.g,
            b,
            x,
            #[trigger] h.preds[i],
        ) by {
            assert(pred_holds(p.g, next, x, h.preds[i]));
        }
    }
}

/// [`lemma_matches`] over edges of step `k`.
proof fn lemma_edge_matches(p: FoldV, k: int, bind: Seq<u64>, base: Seq<u64>, es: Seq<Adj>, keep: spec_fn(Seq<u64>) -> bool)
    requires
        ordered(p),
        p.g.labels@.len() <= u64::MAX,
        0 <= k < p.hops.len(),
        bind.len() == p.width,
        forall|i: int| 0 <= i < es.len() ==> (#[trigger] es[i]).peer < p.g.labels@.len(),
        p.hops[k].track || base.len() == 0,
    ensures
        edge_walks_kept(p, k, bind, base, es, keep) == bind_sum(
            p,
            k,
            bind,
            |b: Seq<u64>|
                if keep(b) && node_fits(p, k, b) {
                    edge_choices(p, k, b, base, es)
                } else {
                    0
                },
        ),
    decreases p.hops.len() - k, 0nat, es.len(),
{
    let h = p.hops[k];
    assert(step_ordered(p, k));
    let all = |b: Seq<u64>|
        if keep(b) && node_fits(p, k, b) {
            edge_choices(p, k, b, base, es)
        } else {
            0
        };
    if es.len() == 0 {
        lemma_bind_zero(p, k, bind, all);
    } else {
        let rest = es.drop_last();
        let e = es.last();
        assert(es[es.len() - 1] == e);
        assert forall|i: int| 0 <= i < rest.len() implies (#[trigger] rest[i]).peer
            < p.g.labels@.len() by {
            assert(rest[i] == es[i]);
        }
        lemma_edge_matches(p, k, bind, base, rest, keep);
        let used1 = used_below(h, base, e);
        let fresh = !base.contains(e.rel);
        let before = |b: Seq<u64>|
            if keep(b) && node_fits(p, k, b) {
                edge_choices(p, k, b, base, rest)
            } else {
                0
            };
        let last = |b: Seq<u64>|
            if keep(b) && node_fits(p, k, b) && e.peer == reached(p, k, b) && fresh {
                rel_choices(p, k + 1, b, used1)
            } else {
                0
            };
        let both = |b: Seq<u64>| before(b) + last(b);
        assert forall|b: Seq<u64>| agree_before(p, k, bind, b) implies #[trigger] all(b) == both(b) by {}
        lemma_bind_same(p, k, bind, all, both);
        lemma_bind_add(p, k, bind, before, last);
        let next = edge_bound(p, k, bind, e);
        let inner = |b: Seq<u64>|
            if keep(b) {
                rel_choices(p, k + 1, b, used1)
            } else {
                0
            };
        lemma_matches(p, k + 1, next, used1, keep);
        match h.tgt {
            Some(t) => {
                assert(bind_sum(p, k, bind, last) == bind_sum(p, k + 1, bind, last));
                if edge_taken(p, k, bind, base, e) {
                    assert forall|b: Seq<u64>| agree_before(p, k + 1, bind, b) implies #[trigger] last(b)
                        == inner(b) by {
                        lemma_agree_weaker(p, k, bind, bind, 0, b);
                        lemma_source_kept(p, k, bind, b);
                    }
                    lemma_bind_same(p, k + 1, bind, last, inner);
                } else {
                    assert forall|b: Seq<u64>| agree_before(p, k + 1, bind, b) implies #[trigger] last(b)
                        == 0 by {
                        lemma_agree_weaker(p, k, bind, bind, 0, b);
                        lemma_source_kept(p, k, bind, b);
                    }
                    lemma_bind_zero(p, k + 1, bind, last);
                }
            },
            None => {
                let u = h.end->0;
                let n = p.g.labels@.len();
                let x1 = |x: u64| bind_sum(p, k + 1, bind.update(u, x), last);
                lemma_over(p, k, bind, last, n, x1);
                assert(bind_sum(p, k, bind, last) == node_sum(n, x1));
                assert forall|x: u64| x != e.peer implies #[trigger] x1(x) == 0 by {
                    assert forall|b: Seq<u64>|
                        agree_before(p, k + 1, bind.update(u, x), b) implies #[trigger] last(b) == 0 by {
                        lemma_end_kept(p, k, bind.update(u, x), b);
                    }
                    lemma_bind_zero(p, k + 1, bind.update(u, x), last);
                }
                lemma_nodes_one(n, e.peer, x1);
                assert(x1(e.peer) == bind_sum(p, k + 1, next, last));
                assert(reached(p, k, next) == e.peer);
                assert(edge_taken(p, k, bind, base, e) == (node_fits(p, k, next) && fresh));
                if edge_taken(p, k, bind, base, e) {
                    assert forall|b: Seq<u64>| agree_before(p, k + 1, next, b) implies #[trigger] last(b)
                        == inner(b) by {
                        lemma_end_kept(p, k, next, b);
                    }
                    lemma_bind_same(p, k + 1, next, last, inner);
                } else {
                    assert forall|b: Seq<u64>| agree_before(p, k + 1, next, b) implies #[trigger] last(b)
                        == 0 by {
                        lemma_end_kept(p, k, next, b);
                    }
                    lemma_bind_zero(p, k + 1, next, last);
                }
            },
        }
    }
}

/// Taking steps row by row finds every match once: from a start there are as many
/// walks as ways to give each variable a node, with its labels and its tests, and
/// each step a relationship, none twice on a path that keeps them apart.
pub proof fn law_walks_are_matches(p: FoldV, bind: Seq<u64>)
    requires
        ordered(p),
        p.g.labels@.len() <= u64::MAX,
        bind.len() == p.width,
    ensures
        walks(p, 0, bind, Seq::empty()) == bind_sum(
            p,
            0,
            bind,
            |b: Seq<u64>| rel_choices(p, 0, b, Seq::empty()),
        ),
{
    let f = |b: Seq<u64>| rel_choices(p, 0, b, Seq::empty());
    let g = |b: Seq<u64>|
        if any_bind()(b) {
            rel_choices(p, 0, b, Seq::empty())
        } else {
            0
        };
    lemma_matches(p, 0, bind, Seq::empty(), any_bind());
    assert forall|b: Seq<u64>| agree_before(p, 0, bind, b) implies #[trigger] f(b) == g(b) by {}
    lemma_bind_same(p, 0, bind, f, g);
}

/// What is kept of the walks from a start is what is kept of the matches there.
pub proof fn law_kept_walks_are_matches(
    p: FoldV,
    bind: Seq<u64>,
    keep: spec_fn(Seq<u64>) -> bool,
)
    requires
        ordered(p),
        p.g.labels@.len() <= u64::MAX,
        bind.len() == p.width,
    ensures
        walks_kept(p, 0, bind, Seq::empty(), keep) == bind_sum(
            p,
            0,
            bind,
            |b: Seq<u64>|
                if keep(b) {
                    rel_choices(p, 0, b, Seq::empty())
                } else {
                    0
                },
        ),
{
    lemma_matches(p, 0, bind, Seq::empty(), keep);
}

} // verus!
