//! A pattern counts the same in whatever order its paths are walked, and from
//! whichever end.

use vstd::prelude::*;

use crate::fold_law::walks_kept;
use crate::fold_model::{hop_base, preds_hold, used_below, CountHop, FoldV};
use crate::graph;
use crate::graph::{Adj, Graph};
use crate::match_law;
use crate::match_law::{
    agree_before,
    bind_sum,
    edge_choices,
    node_fits,
    node_sum,
    ordered,
    reached,
    rel_choices,
    step_ordered,
};
use crate::nest_law;
use crate::nest_law::{apart, nest, same_nodes};
use crate::turn_law;
use crate::turn_law::{path_lists, path_walks, picks, picks_from, rels_to, turned, LegV};

verus! {

/// A path of a pattern: its hops, and the variables along it.
pub struct RouteV {
    pub legs: Seq<LegV>,
    pub at: Seq<int>,
}

/// The variable that a step leads to.
pub open spec fn led_to(h: CountHop) -> int {
    match h.tgt {
        Some(t) => t,
        None => h.end->0,
    }
}

/// The steps from `k` on walk a path, keeping its relationships apart from each
/// other and from no others.
pub open spec fn walked(p: FoldV, k: int, r: RouteV) -> bool {
    let m = r.legs.len() as int;
    &&& m > 0
    &&& r.at.len() == m + 1
    &&& 0 <= k
    &&& k + m <= p.hops.len()
    &&& forall|i: int|
        0 <= i < m ==> {
            let h = p.hops[k + i];
            &&& h.dir == (#[trigger] r.legs[i]).dir
            &&& h.tokens == r.legs[i].tokens
            &&& h.src == r.at[i]
            &&& led_to(h) == r.at[i + 1]
            &&& i == 0 ==> k == 0 || h.reset || !h.track
            &&& i > 0 ==> !h.reset
            &&& m > 1 ==> h.track
        }
}

/// The steps from `k` on walk the paths of a pattern one after the other.
pub open spec fn routed(p: FoldV, k: int, routes: Seq<RouteV>) -> bool
    decreases routes.len(),
{
    if routes.len() == 0 {
        k == p.hops.len()
    } else {
        walked(p, k, routes[0]) && routed(p, k + routes[0].legs.len(), routes.skip(1))
    }
}

/// The nodes along a path.
pub open spec fn nodes_of(r: RouteV, bind: Seq<u64>) -> Seq<u64> {
    Seq::new(r.at.len(), |i: int| bind[r.at[i]])
}

/// In how many ways a path can be walked between the nodes of its variables.
pub open spec fn route_count(g: Graph, r: RouteV, bind: Seq<u64>) -> nat {
    path_walks(g, r.legs, nodes_of(r, bind))
}

/// The product of a list.
pub open spec fn product(s: Seq<nat>) -> nat
    decreases s.len(),
{
    if s.len() == 0 {
        1
    } else {
        s[0] * product(s.skip(1))
    }
}

/// In how many ways each path can be walked.
pub open spec fn route_counts(g: Graph, routes: Seq<RouteV>, bind: Seq<u64>) -> Seq<nat> {
    Seq::new(routes.len(), |i: int| route_count(g, routes[i], bind))
}

/// Every node that the steps from `k` on bind has its labels.
pub open spec fn all_fit(p: FoldV, k: int, bind: Seq<u64>) -> bool {
    forall|j: int| k <= j < p.hops.len() ==> #[trigger] node_fits(p, j, bind)
}

/// Walking on along a path from its hop `i`.
proof fn lemma_walked(p: FoldV, k: int, r: RouteV, i: int, bind: Seq<u64>, used: Seq<u64>, rest: nat)
    requires
        walked(p, k, r),
        0 <= i <= r.legs.len(),
        k + i == 0 ==> used.len() == 0,
        all_fit(p, k, bind),
        forall|u: Seq<u64>| #[trigger] rel_choices(p, k + r.legs.len(), bind, u) == rest,
    ensures
        rel_choices(p, k + i, bind, used) == picks(
            path_lists(p.g, r.legs, nodes_of(r, bind)).skip(i),
            if i == 0 {
                Seq::empty()
            } else {
                used
            },
        ) * rest,
    decreases r.legs.len() - i, 1nat, 0nat,
{
    let lists = path_lists(p.g, r.legs, nodes_of(r, bind));
    if i == r.legs.len() {
        assert(lists.skip(i).len() == 0);
        assert(rel_choices(p, k + i, bind, used) == rest);
        assert(1 * rest == rest);
    } else {
        let h = p.hops[k + i];
        assert(h.dir == r.legs[i].dir);
        let base = hop_base(h, used);
        assert(base =~= if i == 0 {
            Seq::empty()
        } else {
            used
        });
        let es = p.g.adj(bind[h.src], h.dir, h.tokens);
        assert(node_fits(p, k + i, bind));
        lemma_walked_edges(p, k, r, i, bind, base, rest, es);
        assert(lists.skip(i)[0] == lists[i]);
        assert(lists.skip(i).skip(1) =~= lists.skip(i + 1));
        assert(nodes_of(r, bind)[i] == bind[h.src]);
        assert(nodes_of(r, bind)[i + 1] == bind[r.at[i + 1]]);
    }
}

/// [`lemma_walked`] over edges of hop `i`.
proof fn lemma_walked_edges(
    p: FoldV,
    k: int,
    r: RouteV,
    i: int,
    bind: Seq<u64>,
    base: Seq<u64>,
    rest: nat,
    es: Seq<Adj>,
)
    requires
        walked(p, k, r),
        0 <= i < r.legs.len(),
        all_fit(p, k, bind),
        forall|u: Seq<u64>| #[trigger] rel_choices(p, k + r.legs.len(), bind, u) == rest,
    ensures
        edge_choices(p, k + i, bind, base, es) == picks_from(
            rels_to(es, bind[r.at[i + 1]]),
            path_lists(p.g, r.legs, nodes_of(r, bind)).skip(i + 1),
            base,
        ) * rest,
    decreases r.legs.len() - i, 0nat, es.len(),
{
    let lists = path_lists(p.g, r.legs, nodes_of(r, bind));
    let h = p.hops[k + i];
    assert(h.dir == r.legs[i].dir);
    let to = bind[r.at[i + 1]];
    let after = lists.skip(i + 1);
    assert(reached(p, k + i, bind) == to);
    if es.len() == 0 {
        assert(0 * rest == 0);
    } else {
        let e = es.last();
        let less = es.drop_last();
        lemma_walked_edges(p, k, r, i, bind, base, rest, less);
        let a = picks_from(rels_to(less, to), after, base);
        if e.peer == to {
            assert(rels_to(es, to).drop_last() =~= rels_to(less, to));
            assert(rels_to(es, to).last() == e.rel);
            if !base.contains(e.rel) {
                let b = picks(after, base.push(e.rel));
                lemma_walked(p, k, r, i + 1, bind, used_below(h, base, e), rest);
                if !h.track {
                    assert(r.legs.len() == 1);
                    assert(after.len() == 0);
                }
                assert((a + b) * rest == a * rest + b * rest) by (nonlinear_arith);
            }
        }
    }
}

/// Given nodes with their labels, the paths are walked apart from each other.
proof fn lemma_routed(p: FoldV, k: int, routes: Seq<RouteV>, bind: Seq<u64>, used: Seq<u64>)
    requires
        0 <= k,
        k == 0 ==> used.len() == 0,
        routed(p, k, routes),
        all_fit(p, k, bind),
    ensures
        rel_choices(p, k, bind, used) == product(route_counts(p.g, routes, bind)),
    decreases routes.len(),
{
    if routes.len() > 0 {
        let r = routes[0];
        let next = k + r.legs.len();
        let rest = product(route_counts(p.g, routes.skip(1), bind));
        assert forall|u: Seq<u64>| #[trigger] rel_choices(p, next, bind, u) == rest by {
            lemma_routed(p, next, routes.skip(1), bind, u);
        }
        lemma_walked(p, k, r, 0, bind, used, rest);
        let lists = path_lists(p.g, r.legs, nodes_of(r, bind));
        assert(lists.skip(0) =~= lists);
        assert(route_counts(p.g, routes, bind).skip(1) =~= route_counts(
            p.g,
            routes.skip(1),
            bind,
        ));
    }
}

/// A node without its labels leaves nothing to choose.
proof fn lemma_misfit(p: FoldV, k: int, j: int, bind: Seq<u64>, used: Seq<u64>)
    requires
        0 <= k <= j < p.hops.len(),
        !node_fits(p, j, bind),
    ensures
        rel_choices(p, k, bind, used) == 0,
    decreases j - k, 1nat, 0nat,
{
    if k < j && node_fits(p, k, bind) {
        let h = p.hops[k];
        lemma_misfit_edges(
            p,
            k,
            j,
            bind,
            hop_base(h, used),
            p.g.adj(bind[h.src], h.dir, h.tokens),
        );
    }
}

/// [`lemma_misfit`] over edges of step `k`.
proof fn lemma_misfit_edges(p: FoldV, k: int, j: int, bind: Seq<u64>, base: Seq<u64>, es: Seq<Adj>)
    requires
        0 <= k < j < p.hops.len(),
        !node_fits(p, j, bind),
    ensures
        edge_choices(p, k, bind, base, es) == 0,
    decreases j - k, 0nat, es.len(),
{
    if es.len() > 0 {
        lemma_misfit_edges(p, k, j, bind, base, es.drop_last());
        lemma_misfit(p, k + 1, j, bind, used_below(p.hops[k], base, es.last()));
    }
}

/// Any factor may be taken first.
proof fn lemma_product_front(s: Seq<nat>, i: int)
    requires
        0 <= i < s.len(),
    ensures
        product(s) == s[i] * product(s.remove(i)),
    decreases i,
{
    if i == 0 {
        assert(s.remove(0) =~= s.skip(1));
    } else {
        let rest = s.skip(1);
        lemma_product_front(rest, i - 1);
        let less = s.remove(i);
        assert(less[0] == s[0]);
        assert(less.skip(1) =~= rest.remove(i - 1));
        let a = s[0];
        let b = s[i];
        let c = product(rest.remove(i - 1));
        assert(rest[i - 1] == b);
        assert(a * (b * c) == b * (a * c)) by (nonlinear_arith);
    }
}

/// An arrangement names every index below `m` once.
pub open spec fn arrangement(perm: Seq<int>, m: int) -> bool {
    &&& perm.len() == m
    &&& perm.no_duplicates()
    &&& forall|x: int| #[trigger] perm.contains(x) <==> 0 <= x < m
}

/// A product is the same in any arrangement.
proof fn lemma_product_arranged(s: Seq<nat>, t: Seq<nat>, perm: Seq<int>)
    requires
        arrangement(perm, s.len() as int),
        t.len() == s.len(),
        forall|i: int| 0 <= i < t.len() ==> #[trigger] t[i] == s[perm[i]],
    ensures
        product(t) == product(s),
    decreases s.len(),
{
    if s.len() > 0 {
        assert(perm.contains(0));
        let j = choose|j: int| 0 <= j < perm.len() && perm[j] == 0;
        lemma_product_front(t, j);
        let less = perm.remove(j);
        let q = Seq::new(less.len(), |i: int| less[i] - 1);
        let s1 = s.skip(1);
        let t1 = t.remove(j);
        assert forall|i: int| 0 <= i < q.len() implies 0 <= #[trigger] q[i] < s1.len() by {
            let ii = if i < j { i } else { i + 1 };
            assert(perm[ii] != perm[j]);
            assert(perm.contains(perm[ii]));
        }
        assert(q.no_duplicates()) by {
            assert forall|a: int, b: int|
                0 <= a < q.len() && 0 <= b < q.len() && a != b implies q[a] != q[b] by {
                let aa = if a < j { a } else { a + 1 };
                let bb = if b < j { b } else { b + 1 };
                assert(perm[aa] != perm[bb]);
            }
        }
        assert forall|x: int| #[trigger] q.contains(x) <==> 0 <= x < s1.len() by {
            if 0 <= x < s1.len() {
                assert(perm.contains(x + 1));
                let a = choose|a: int| 0 <= a < perm.len() && perm[a] == x + 1;
                let aa = if a < j { a } else { a - 1 };
                assert(q[aa] == x);
            }
        }
        assert forall|i: int| 0 <= i < t1.len() implies #[trigger] t1[i] == s1[q[i]] by {
            let ii = if i < j { i } else { i + 1 };
            assert(t1[i] == t[ii]);
            assert(t[ii] == s[perm[ii]]);
            assert(0 <= q[i] < s1.len());
        }
        lemma_product_arranged(s1, t1, q);
    }
}

/// The variables that the steps from `k` on bind, in order.
pub open spec fn ends_from(p: FoldV, k: int) -> Seq<int>
    decreases p.hops.len() - k,
{
    if k < 0 || k >= p.hops.len() {
        Seq::empty()
    } else if p.hops[k].tgt is None {
        seq![p.hops[k].end->0] + ends_from(p, k + 1)
    } else {
        ends_from(p, k + 1)
    }
}

/// The node variables of a chain, in binding order.
pub open spec fn vars_of(p: FoldV) -> Seq<int> {
    seq![0int] + ends_from(p, 0)
}

/// What is bound from `k` on.
pub proof fn lemma_ends(p: FoldV, k: int)
    requires
        ordered(p),
        0 <= k <= p.hops.len(),
    ensures
        apart(ends_from(p, k), p.width as nat),
        forall|v: int| #[trigger]
            ends_from(p, k).contains(v) <==> exists|j: int|
                k <= j < p.hops.len() && (#[trigger] p.hops[j]).tgt is None && p.hops[j].end == Some(v),
    decreases p.hops.len() - k,
{
    let ends = ends_from(p, k);
    if k < p.hops.len() {
        lemma_ends(p, k + 1);
        assert(step_ordered(p, k));
        let rest = ends_from(p, k + 1);
        let h = p.hops[k];
        if h.tgt is None {
            let e = h.end->0;
            assert(!rest.contains(e)) by {
                if rest.contains(e) {
                    let j = choose|j: int|
                        k + 1 <= j < p.hops.len() && (#[trigger] p.hops[j]).tgt is None
                            && p.hops[j].end == Some(e);
                    assert(p.hops[k].end->0 < p.hops[j].end->0);
                }
            }
            assert forall|a: int, b: int|
                0 <= a < ends.len() && 0 <= b < ends.len() && a != b implies ends[a] != ends[b] by {
                if a == 0 {
                    assert(rest.contains(rest[b - 1]));
                } else if b == 0 {
                    assert(rest.contains(rest[a - 1]));
                }
            }
            assert forall|i: int| 0 <= i < ends.len() implies 0 <= #[trigger] ends[i] < p.width by {
                if i > 0 {
                    assert(ends[i] == rest[i - 1]);
                }
            }
        }
        assert forall|v: int| #[trigger]
            ends.contains(v) <==> exists|j: int|
                k <= j < p.hops.len() && (#[trigger] p.hops[j]).tgt is None && p.hops[j].end == Some(
                    v,
                ) by {
            if ends.contains(v) {
                let i = choose|i: int| 0 <= i < ends.len() && ends[i] == v;
                if h.tgt is None && i == 0 {
                    assert(p.hops[k].end == Some(v));
                } else {
                    let ii = if h.tgt is None { i - 1 } else { i };
                    assert(rest[ii] == v);
                    assert(rest.contains(v));
                }
            }
            if exists|j: int|
                k <= j < p.hops.len() && (#[trigger] p.hops[j]).tgt is None && p.hops[j].end == Some(
                    v,
                ) {
                let j = choose|j: int|
                    k <= j < p.hops.len() && (#[trigger] p.hops[j]).tgt is None && p.hops[j].end
                        == Some(v);
                if j == k {
                    assert(ends[0] == v);
                } else {
                    assert(rest.contains(v));
                    let i = choose|i: int| 0 <= i < rest.len() && rest[i] == v;
                    let ii = if h.tgt is None { i + 1 } else { i };
                    assert(ends[ii] == v);
                }
            }
        }
    }
}

/// A chain binds its start and then later variables.
pub proof fn lemma_vars(p: FoldV)
    requires
        ordered(p),
        0 < p.width,
    ensures
        apart(vars_of(p), p.width as nat),
        !ends_from(p, 0).contains(0),
{
    lemma_ends(p, 0);
    let ends = ends_from(p, 0);
    let vs = vars_of(p);
    assert(!ends.contains(0)) by {
        if ends.contains(0) {
            let j = choose|j: int|
                0 <= j < p.hops.len() && (#[trigger] p.hops[j]).tgt is None && p.hops[j].end == Some(
                    0int,
                );
            assert(step_ordered(p, j));
        }
    }
    assert forall|a: int, b: int|
        0 <= a < vs.len() && 0 <= b < vs.len() && a != b implies vs[a] != vs[b] by {
        if a == 0 {
            assert(ends.contains(ends[b - 1]));
        } else if b == 0 {
            assert(ends.contains(ends[a - 1]));
        }
    }
    assert forall|i: int| 0 <= i < vs.len() implies 0 <= #[trigger] vs[i] < p.width by {
        if i > 0 {
            assert(vs[i] == ends[i - 1]);
        }
    }
}

/// A sum over what the steps bind is a sum over their variables.
proof fn lemma_bind_nest(p: FoldV, k: int, bind: Seq<u64>, f: spec_fn(Seq<u64>) -> nat)
    requires
        0 <= k <= p.hops.len(),
    ensures
        bind_sum(p, k, bind, f) == nest(p.g.labels@.len(), ends_from(p, k), bind, f),
    decreases p.hops.len() - k,
{
    let n = p.g.labels@.len();
    if k < p.hops.len() {
        if p.hops[k].tgt is None {
            let u = p.hops[k].end->0;
            let rest = ends_from(p, k + 1);
            let ends = ends_from(p, k);
            assert(ends[0] == u);
            assert(ends.skip(1) =~= rest);
            let x1 = |x: u64| bind_sum(p, k + 1, bind.update(u, x), f);
            assert forall|x: u64| #[trigger] x1(x) == nest(n, rest, bind.update(u, x), f) by {
                lemma_bind_nest(p, k + 1, bind.update(u, x), f);
            }
            match_law::lemma_over(p, k, bind, f, n, x1);
            nest_law::lemma_nest_sum(n, u, rest, bind, f, n, x1);
        } else {
            lemma_bind_nest(p, k + 1, bind, f);
        }
    }
}

/// How many matches that are kept a chain finds from every start that qualifies.
pub open spec fn total_kept(
    p: FoldV,
    seed: spec_fn(u64) -> bool,
    bind: Seq<u64>,
    keep: spec_fn(Seq<u64>) -> bool,
) -> nat {
    node_sum(
        p.g.labels@.len(),
        |x: u64|
            if seed(x) {
                walks_kept(p, 0, bind.update(0, x), Seq::empty(), keep)
            } else {
                0
            },
    )
}

/// In how many ways given nodes make a match.
spec fn weight(
    p: FoldV,
    seed: spec_fn(u64) -> bool,
    keep: spec_fn(Seq<u64>) -> bool,
) -> spec_fn(Seq<u64>) -> nat {
    |b: Seq<u64>|
        if seed(b[0]) && keep(b) {
            rel_choices(p, 0, b, Seq::empty())
        } else {
            0
        }
}

/// What a chain finds is a sum over its variables.
proof fn lemma_total(
    p: FoldV,
    seed: spec_fn(u64) -> bool,
    bind: Seq<u64>,
    keep: spec_fn(Seq<u64>) -> bool,
)
    requires
        ordered(p),
        0 < p.width,
        p.g.labels@.len() <= u64::MAX,
        bind.len() == p.width,
    ensures
        total_kept(p, seed, bind, keep) == nest(
            p.g.labels@.len(),
            vars_of(p),
            bind,
            weight(p, seed, keep),
        ),
{
    let n = p.g.labels@.len();
    let f = weight(p, seed, keep);
    let ends = ends_from(p, 0);
    let vs = vars_of(p);
    assert(vs[0] == 0);
    assert(vs.skip(1) =~= ends);
    lemma_ends(p, 0);
    lemma_vars(p);
    let x1 = |x: u64|
        if seed(x) {
            walks_kept(p, 0, bind.update(0, x), Seq::empty(), keep)
        } else {
            0
        };
    assert forall|x: u64| #[trigger] x1(x) == nest(n, ends, bind.update(0, x), f) by {
        let b0 = bind.update(0, x);
        lemma_bind_nest(p, 0, b0, f);
        let inner = |b: Seq<u64>|
            if keep(b) {
                rel_choices(p, 0, b, Seq::empty())
            } else {
                0
            };
        assert forall|b: Seq<u64>| agree_before(p, 0, b0, b) implies b[0] == x by {
            assert forall|j: int|
                0 <= j < p.hops.len() && (#[trigger] p.hops[j]).tgt is None implies p.hops[j].end
                != Some(0int) by {
                assert(step_ordered(p, j));
            }
            assert(b0[0] == b[0]);
        }
        if seed(x) {
            match_law::law_kept_walks_are_matches(p, b0, keep);
            assert forall|b: Seq<u64>| agree_before(p, 0, b0, b) implies #[trigger] f(b) == inner(
                b,
            ) by {
                assert(b[0] == x);
            }
            match_law::lemma_bind_same(p, 0, b0, f, inner);
        } else {
            assert forall|b: Seq<u64>| agree_before(p, 0, b0, b) implies #[trigger] f(b) == 0 by {
                assert(b[0] == x);
            }
            match_law::lemma_bind_zero(p, 0, b0, f);
        }
    }
    nest_law::lemma_nest_sum(n, 0, ends, bind, f, n, x1);
}

/// What a variable asks of its node.
pub open spec fn asks(p: FoldV, seed: spec_fn(u64) -> bool, v: int, x: u64) -> bool {
    &&& v == 0 ==> seed(x)
    &&& forall|k: int|
        0 <= k < p.hops.len() && (#[trigger] p.hops[k]).tgt is None && p.hops[k].end == Some(v)
            ==> graph::is_member(p.hops[k].members, x)
}

/// Whether nodes pass every test of the steps.
pub open spec fn tests_pass(p: FoldV, bind: Seq<u64>) -> bool {
    forall|k: int|
        0 <= k < p.hops.len() && (#[trigger] p.hops[k]).tgt is None ==> preds_hold(
            p.g,
            bind,
            reached(p, k, bind),
            p.hops[k].preds,
        )
}

/// Nodes match where each is what its variable asks for and the tests pass.
proof fn lemma_asks(p: FoldV, seed: spec_fn(u64) -> bool, bind: Seq<u64>)
    requires
        ordered(p),
        0 < p.width,
    ensures
        (seed(bind[0]) && all_fit(p, 0, bind)) <==> tests_pass(p, bind) && forall|i: int|
            0 <= i < vars_of(p).len() ==> asks(p, seed, #[trigger] vars_of(p)[i], bind[vars_of(p)[i]]),
{
    lemma_ends(p, 0);
    lemma_vars(p);
    let vs = vars_of(p);
    let ends = ends_from(p, 0);
    assert(vs[0] == 0);
    if seed(bind[0]) && all_fit(p, 0, bind) {
        assert forall|i: int| 0 <= i < vs.len() implies asks(p, seed, #[trigger] vs[i], bind[vs[i]]) by {
            assert forall|k: int|
                0 <= k < p.hops.len() && (#[trigger] p.hops[k]).tgt is None && p.hops[k].end == Some(
                    vs[i],
                ) implies graph::is_member(p.hops[k].members, bind[vs[i]]) by {
                assert(node_fits(p, k, bind));
            }
        }
        assert forall|k: int| 0 <= k < p.hops.len() && (#[trigger] p.hops[k]).tgt is None implies preds_hold(
            p.g,
            bind,
            reached(p, k, bind),
            p.hops[k].preds,
        ) by {
            assert(node_fits(p, k, bind));
        }
    }
    if tests_pass(p, bind) && forall|i: int|
        0 <= i < vs.len() ==> asks(p, seed, #[trigger] vs[i], bind[vs[i]]) {
        assert(asks(p, seed, vs[0], bind[vs[0]]));
        assert forall|k: int| 0 <= k < p.hops.len() implies #[trigger] node_fits(p, k, bind) by {
            let h = p.hops[k];
            if h.tgt is None {
                assert(step_ordered(p, k));
                let e = h.end->0;
                assert(ends.contains(e));
                let i = choose|i: int| 0 <= i < ends.len() && ends[i] == e;
                assert(vs[i + 1] == e);
                assert(asks(p, seed, vs[i + 1], bind[vs[i + 1]]));
            }
        }
    }
}

/// A variable is named as another.
pub open spec fn named_as(vs: Seq<int>, ws: Seq<int>, v: int, w: int) -> bool {
    exists|i: int| 0 <= i < vs.len() && #[trigger] vs[i] == v && ws[i] == w
}

/// A path with its variables renamed.
pub open spec fn renamed(r: RouteV, s: RouteV, vs: Seq<int>, ws: Seq<int>) -> bool {
    &&& s.legs == r.legs
    &&& s.at.len() == r.at.len()
    &&& forall|j: int|
        0 <= j < r.at.len() ==> named_as(vs, ws, #[trigger] r.at[j], s.at[j])
}

/// A path from its end.
pub open spec fn turned_route(r: RouteV) -> RouteV {
    RouteV { legs: turned(r.legs), at: r.at.reverse() }
}

/// A path with its variables renamed, from its start or from its end.
pub open spec fn same_route(r: RouteV, s: RouteV, vs: Seq<int>, ws: Seq<int>) -> bool {
    renamed(r, s, vs, ws) || renamed(turned_route(r), s, vs, ws)
}

/// A path walked from its other end, under other names, counts the same.
proof fn lemma_same_route(
    g: Graph,
    r: RouteV,
    s: RouteV,
    vs: Seq<int>,
    ws: Seq<int>,
    b: Seq<u64>,
    c: Seq<u64>,
)
    requires
        g.wf(),
        r.at.len() == r.legs.len() + 1,
        same_route(r, s, vs, ws),
        same_nodes(vs, ws, vs.len() as int, b, c),
    ensures
        route_count(g, s, c) == route_count(g, r, b),
{
    let t = if renamed(r, s, vs, ws) {
        r
    } else {
        turned_route(r)
    };
    assert forall|j: int| 0 <= j < t.at.len() implies b[#[trigger] t.at[j]] == c[s.at[j]] by {
        assert(named_as(vs, ws, t.at[j], s.at[j]));
        let i = choose|i: int|
            0 <= i < vs.len() && #[trigger] vs[i] == t.at[j] && ws[i] == s.at[j];
        assert(b[vs[i]] == c[ws[i]]);
    }
    assert(nodes_of(s, c) =~= nodes_of(t, b)) by {
        assert forall|j: int| 0 <= j < t.at.len() implies nodes_of(s, c)[j] == nodes_of(t, b)[j] by {
            assert(b[t.at[j]] == c[s.at[j]]);
        }
    }
    if t != r {
        assert(nodes_of(t, b) =~= nodes_of(r, b).reverse());
        turn_law::law_turned_path_counts_same(g, r.legs, nodes_of(r, b));
    }
}

/// Every path of a chain has a variable at each of its ends.
proof fn lemma_route_wf(p: FoldV, k: int, routes: Seq<RouteV>, i: int)
    requires
        routed(p, k, routes),
        0 <= i < routes.len(),
    ensures
        routes[i].at.len() == routes[i].legs.len() + 1,
    decreases routes.len(),
{
    if i > 0 {
        lemma_route_wf(p, k + routes[0].legs.len(), routes.skip(1), i - 1);
        assert(routes.skip(1)[i - 1] == routes[i]);
    }
}

/// Two chains walk the same pattern: the paths of the second are those of the
/// first, arranged by `perm`, each from its start or its end, with variable
/// `vars_of(p)[i]` named `ws[i]`, and each variable asks the same of its node.
pub open spec fn same_pattern(
    p: FoldV,
    seed: spec_fn(u64) -> bool,
    routes: Seq<RouteV>,
    q: FoldV,
    other: spec_fn(u64) -> bool,
    turns: Seq<RouteV>,
    perm: Seq<int>,
    ws: Seq<int>,
) -> bool {
    let vs = vars_of(p);
    &&& p.g == q.g
    &&& routed(p, 0, routes)
    &&& routed(q, 0, turns)
    &&& turns.len() == routes.len()
    &&& arrangement(perm, routes.len() as int)
    &&& forall|i: int|
        0 <= i < turns.len() ==> same_route(routes[perm[i]], #[trigger] turns[i], vs, ws)
    &&& ws.len() == vs.len()
    &&& ws.no_duplicates()
    &&& forall|v: int| #[trigger] ws.contains(v) <==> vars_of(q).contains(v)
    &&& forall|i: int, x: u64|
        0 <= i < vs.len() ==> asks(p, seed, #[trigger] vs[i], x) == #[trigger] asks(q, other, ws[i], x)
}

/// Two chains that walk the same pattern pass the same nodes: what the tests of
/// each let pass and it keeps, the other does.
pub open spec fn same_passes(
    p: FoldV,
    keep: spec_fn(Seq<u64>) -> bool,
    q: FoldV,
    save: spec_fn(Seq<u64>) -> bool,
    ws: Seq<int>,
) -> bool {
    forall|b: Seq<u64>, c: Seq<u64>|
        #![trigger keep(b), save(c)]
        b.len() == p.width && c.len() == q.width && same_nodes(
            vars_of(p),
            ws,
            vars_of(p).len() as int,
            b,
            c,
        ) ==> (keep(b) && tests_pass(p, b)) == (save(c) && tests_pass(q, c))
}

/// Matching nodes weigh the same in both chains.
proof fn lemma_weight(
    p: FoldV,
    seed: spec_fn(u64) -> bool,
    keep: spec_fn(Seq<u64>) -> bool,
    routes: Seq<RouteV>,
    q: FoldV,
    other: spec_fn(u64) -> bool,
    save: spec_fn(Seq<u64>) -> bool,
    turns: Seq<RouteV>,
    perm: Seq<int>,
    ws: Seq<int>,
    b: Seq<u64>,
    c: Seq<u64>,
)
    requires
        ordered(p),
        ordered(q),
        same_passes(p, keep, q, save, ws),
        b.len() == p.width,
        c.len() == q.width,
        0 < p.width,
        0 < q.width,
        same_pattern(p, seed, routes, q, other, turns, perm, ws),
        same_nodes(vars_of(p), ws, vars_of(p).len() as int, b, c),
    ensures
        weight(p, seed, keep)(b) == weight(q, other, save)(c),
{
    let vs = vars_of(p);
    let us = vars_of(q);
    lemma_asks(p, seed, b);
    lemma_asks(q, other, c);
    assert(keep(b) || !keep(b));
    assert(save(c) || !save(c));
    let here = keep(b) && seed(b[0]) && all_fit(p, 0, b);
    let there = save(c) && other(c[0]) && all_fit(q, 0, c);
    assert(here == there) by {
        if here {
            assert forall|i: int| 0 <= i < us.len() implies asks(
                q,
                other,
                #[trigger] us[i],
                c[us[i]],
            ) by {
                assert(us.contains(us[i]));
                assert(ws.contains(us[i]));
                let j = choose|j: int| 0 <= j < ws.len() && ws[j] == us[i];
                assert(asks(p, seed, vs[j], b[vs[j]]));
                assert(asks(p, seed, vs[j], c[ws[j]]) == asks(q, other, ws[j], c[ws[j]]));
                assert(b[vs[j]] == c[ws[j]]);
            }
        }
        if there {
            assert forall|i: int| 0 <= i < vs.len() implies asks(
                p,
                seed,
                #[trigger] vs[i],
                b[vs[i]],
            ) by {
                assert(ws.contains(ws[i]));
                assert(us.contains(ws[i]));
                let j = choose|j: int| 0 <= j < us.len() && us[j] == ws[i];
                assert(asks(q, other, us[j], c[us[j]]));
                assert(asks(p, seed, vs[i], b[vs[i]]) == asks(q, other, ws[i], b[vs[i]]));
                assert(b[vs[i]] == c[ws[i]]);
            }
        }
    }
    if here {
        lemma_routed(p, 0, routes, b, Seq::empty());
        lemma_routed(q, 0, turns, c, Seq::empty());
        let s = route_counts(p.g, routes, b);
        let t = route_counts(q.g, turns, c);
        assert forall|i: int| 0 <= i < t.len() implies #[trigger] t[i] == s[perm[i]] by {
            assert(perm.contains(perm[i]));
            lemma_route_wf(p, 0, routes, perm[i]);
            assert(same_route(routes[perm[i]], turns[i], vs, ws));
            lemma_same_route(p.g, routes[perm[i]], turns[i], vs, ws, b, c);
        }
        lemma_product_arranged(s, t, perm);
    } else {
        if keep(b) && seed(b[0]) {
            let j = choose|j: int| 0 <= j < p.hops.len() && !#[trigger] node_fits(p, j, b);
            lemma_misfit(p, 0, j, b, Seq::empty());
        }
        if save(c) && other(c[0]) {
            let j = choose|j: int| 0 <= j < q.hops.len() && !#[trigger] node_fits(q, j, c);
            lemma_misfit(q, 0, j, c, Seq::empty());
        }
    }
}

/// A pattern counts the same in whatever order its paths are walked, and from
/// whichever end each is: chains that walk the same pattern and pass the same
/// nodes find the same number of matches that are kept.
pub proof fn law_reordered_pattern_counts_same(
    p: FoldV,
    seed: spec_fn(u64) -> bool,
    keep: spec_fn(Seq<u64>) -> bool,
    routes: Seq<RouteV>,
    bind: Seq<u64>,
    q: FoldV,
    other: spec_fn(u64) -> bool,
    save: spec_fn(Seq<u64>) -> bool,
    turns: Seq<RouteV>,
    bound: Seq<u64>,
    perm: Seq<int>,
    ws: Seq<int>,
)
    requires
        ordered(p),
        ordered(q),
        0 < p.width,
        0 < q.width,
        p.g.labels@.len() <= u64::MAX,
        bind.len() == p.width,
        bound.len() == q.width,
        same_pattern(p, seed, routes, q, other, turns, perm, ws),
        same_passes(p, keep, q, save, ws),
    ensures
        total_kept(p, seed, bind, keep) == total_kept(q, other, bound, save),
{
    let n = p.g.labels@.len();
    let vs = vars_of(p);
    let us = vars_of(q);
    let f = weight(p, seed, keep);
    let h = weight(q, other, save);
    lemma_total(p, seed, bind, keep);
    lemma_total(q, other, bound, save);
    lemma_vars(p);
    lemma_vars(q);
    assert forall|i: int| 0 <= i < ws.len() implies 0 <= #[trigger] ws[i] < bound.len() by {
        assert(ws.contains(ws[i]));
        assert(us.contains(ws[i]));
        let j = choose|j: int| 0 <= j < us.len() && us[j] == ws[i];
        assert(0 <= us[j] < q.width);
    }
    assert forall|x: Seq<u64>, y: Seq<u64>|
        x.len() == bind.len() && y.len() == bound.len() && same_nodes(
            vs,
            ws,
            vs.len() as int,
            x,
            y,
        ) implies #[trigger] f(x) == #[trigger] h(y) by {
        lemma_weight(p, seed, keep, routes, q, other, save, turns, perm, ws, x, y);
    }
    nest_law::lemma_renumbered(n, vs, ws, 0, bind, bound, f, h);
    assert(vs.skip(0) =~= vs);
    assert(ws.skip(0) =~= ws);
    nest_law::lemma_any_order(n, ws, us, bound, h);
}

/// Two chains take the same steps, whatever each tests on the way.
pub open spec fn same_but_tests(p: FoldV, q: FoldV) -> bool {
    &&& p.g == q.g
    &&& p.width == q.width
    &&& p.hops.len() == q.hops.len()
    &&& forall|k: int|
        0 <= k < p.hops.len() ==> {
            let a = #[trigger] p.hops[k];
            let b = q.hops[k];
            &&& a.src == b.src
            &&& a.dir == b.dir
            &&& a.tokens == b.tokens
            &&& a.members == b.members
            &&& a.track == b.track
            &&& a.reset == b.reset
            &&& a.tgt == b.tgt
            &&& a.end == b.end
        }
}

/// Where every test passes, the tests do not matter.
proof fn lemma_choices_same(p: FoldV, q: FoldV, k: int, bind: Seq<u64>, used: Seq<u64>)
    requires
        same_but_tests(p, q),
        tests_pass(p, bind),
        tests_pass(q, bind),
        0 <= k,
    ensures
        rel_choices(p, k, bind, used) == rel_choices(q, k, bind, used),
    decreases p.hops.len() - k, 1nat, 0nat,
{
    if k < p.hops.len() {
        let h = p.hops[k];
        assert(q.hops[k].tgt == h.tgt);
        assert(node_fits(p, k, bind) == node_fits(q, k, bind));
        lemma_choice_edges_same(
            p,
            q,
            k,
            bind,
            hop_base(h, used),
            p.g.adj(bind[h.src], h.dir, h.tokens),
        );
    }
}

/// [`lemma_choices_same`] over edges of step `k`.
proof fn lemma_choice_edges_same(
    p: FoldV,
    q: FoldV,
    k: int,
    bind: Seq<u64>,
    base: Seq<u64>,
    es: Seq<Adj>,
)
    requires
        same_but_tests(p, q),
        tests_pass(p, bind),
        tests_pass(q, bind),
        0 <= k < p.hops.len(),
    ensures
        edge_choices(p, k, bind, base, es) == edge_choices(q, k, bind, base, es),
    decreases p.hops.len() - k, 0nat, es.len(),
{
    if es.len() > 0 {
        let h = p.hops[k];
        lemma_choice_edges_same(p, q, k, bind, base, es.drop_last());
        lemma_choices_same(p, q, k + 1, bind, used_below(h, base, es.last()));
        assert(used_below(q.hops[k], base, es.last()) == used_below(h, base, es.last()));
    }
}

/// The variables that steps bind do not depend on what they test.
proof fn lemma_bind_sum_same(
    p: FoldV,
    q: FoldV,
    k: int,
    bind: Seq<u64>,
    f: spec_fn(Seq<u64>) -> nat,
)
    requires
        same_but_tests(p, q),
        0 <= k,
    ensures
        bind_sum(p, k, bind, f) == bind_sum(q, k, bind, f),
    decreases p.hops.len() - k,
{
    if k < p.hops.len() {
        assert(p.hops[k].tgt == q.hops[k].tgt);
        if p.hops[k].tgt is Some {
            lemma_bind_sum_same(p, q, k + 1, bind, f);
        } else {
            let n = p.g.labels@.len();
            let u = p.hops[k].end->0;
            let each = |x: u64| bind_sum(p, k + 1, bind.update(u, x), f);
            assert forall|x: u64| #[trigger] each(x) == bind_sum(
                q,
                k + 1,
                bind.update(q.hops[k].end->0, x),
                f,
            ) by {
                lemma_bind_sum_same(p, q, k + 1, bind.update(u, x), f);
            }
            match_law::lemma_over(p, k, bind, f, n, each);
            match_law::lemma_over(q, k, bind, f, n, each);
        }
    }
}

/// A condition may be tested on the way or at the end: chains that take the same
/// steps and pass the same bindings find the same number of matches that are kept.
pub proof fn law_tests_may_move(
    p: FoldV,
    keep: spec_fn(Seq<u64>) -> bool,
    q: FoldV,
    save: spec_fn(Seq<u64>) -> bool,
    seed: spec_fn(u64) -> bool,
    bind: Seq<u64>,
)
    requires
        ordered(p),
        ordered(q),
        same_but_tests(p, q),
        0 < p.width,
        p.g.labels@.len() <= u64::MAX,
        bind.len() == p.width,
        forall|b: Seq<u64>|
            #![trigger keep(b)]
            #![trigger save(b)]
            b.len() == p.width ==> (keep(b) && tests_pass(p, b)) == (save(b) && tests_pass(q, b)),
    ensures
        total_kept(p, seed, bind, keep) == total_kept(q, seed, bind, save),
{
    let x1 = |x: u64|
        if seed(x) {
            walks_kept(p, 0, bind.update(0, x), Seq::empty(), keep)
        } else {
            0
        };
    let x2 = |x: u64|
        if seed(x) {
            walks_kept(q, 0, bind.update(0, x), Seq::empty(), save)
        } else {
            0
        };
    assert forall|x: u64| #[trigger] x1(x) == x2(x) by {
        let b0 = bind.update(0, x);
        let f = |b: Seq<u64>|
            if keep(b) {
                rel_choices(p, 0, b, Seq::empty())
            } else {
                0
            };
        let h = |b: Seq<u64>|
            if save(b) {
                rel_choices(q, 0, b, Seq::empty())
            } else {
                0
            };
        match_law::law_kept_walks_are_matches(p, b0, keep);
        match_law::law_kept_walks_are_matches(q, b0, save);
        assert forall|b: Seq<u64>| agree_before(q, 0, b0, b) implies #[trigger] f(b) == h(b) by {
            assert(keep(b) || !keep(b));
            if keep(b) && tests_pass(p, b) {
                lemma_choices_same(p, q, 0, b, Seq::empty());
            } else {
                if keep(b) {
                    lemma_untested(p, b);
                }
                if save(b) {
                    lemma_untested(q, b);
                }
            }
        }
        match_law::lemma_bind_same(q, 0, b0, f, h);
        lemma_bind_sum_same(p, q, 0, b0, f);
    }
    match_law::lemma_nodes_same(p.g.labels@.len(), x1, x2);
}

/// Nodes that fail a test leave nothing to choose.
proof fn lemma_untested(p: FoldV, bind: Seq<u64>)
    requires
        !tests_pass(p, bind),
    ensures
        rel_choices(p, 0, bind, Seq::empty()) == 0,
{
    let k = choose|k: int|
        0 <= k < p.hops.len() && (#[trigger] p.hops[k]).tgt is None && !preds_hold(
            p.g,
            bind,
            reached(p, k, bind),
            p.hops[k].preds,
        );
    assert(!node_fits(p, k, bind));
    lemma_misfit(p, 0, k, bind, Seq::empty());
}

} // verus!
