//! Reordering the paths of a pattern keeps its count.

use vstd::prelude::*;

use crate::aggregate::pattern_fits;
use crate::chain;
use crate::chain::{Allow, HopsV};
use crate::chain_rows;
use crate::fold_model::FoldV;
use crate::graph::Graph;
use crate::hop::Hop;
use crate::labels;
use crate::layout;
use crate::nest_law::same_nodes;
use crate::order_law;
use crate::order_law::{
    arrangement,
    asks,
    named_as,
    renamed,
    same_passes,
    same_pattern,
    same_route,
    tests_pass,
    total_kept,
    turned_route,
    vars_of,
};
use crate::ordering::same_paths;
use crate::query::{NodeV, PathV, PatternV};
use crate::read_law;
use crate::read_law::{at_of, carries, occurs, read, route_of, routes_from, same_node};
use crate::reorder::{
    absorbed,
    all_nodes,
    kept_paths,
    label_union,
    labels_at,
    path_nodes,
    seeded,
    stamp_node,
    stamp_path,
    stamped,
    touches,
    walkable,
};
use crate::reroot::{flip_rel, node_at, reversed};
use crate::seqs;
use crate::table;
use crate::traced;
use crate::traced::{bound_by, denotes, hop_traced, own_name, plainly_named, rel_named};
use crate::turn_law::turned;

verus! {

/// A pattern and a reordering of it, each with its steps.
pub struct TwoV {
    pub ps: Seq<PathV>,
    pub hp: HopsV,
    pub qs: Seq<PathV>,
    pub hq: HopsV,
    pub order: Seq<usize>,
}

/// The first path with a hop.
pub open spec fn first_kept(ps: Seq<PathV>) -> int {
    if ps[0].hops.len() == 0 {
        1
    } else {
        0
    }
}

/// The path that path `i` of the reordering was.
spec fn path_was(c: TwoV, i: int) -> int {
    c.order[i] + first_kept(c.ps)
}

/// Path `i` of the reordering is walked from its end.
spec fn is_turned(c: TwoV, i: int) -> bool {
    c.qs[i] != stamp_path(c.ps[path_was(c, i)], c.ps)
}

/// The node that node `t` of path `i` of the reordering was.
spec fn node_was(c: TwoV, i: int, t: int) -> int {
    if is_turned(c, i) {
        c.qs[i].hops.len() - t
    } else {
        t
    }
}

/// The reordering holds each path with hops once, with every label of its
/// variables, as written or from its end.
spec fn paired(c: TwoV) -> bool {
    &&& read(c.hp, c.ps)
    &&& read(c.hq, c.qs)
    &&& c.ps.len() == c.qs.len() + first_kept(c.ps)
    &&& c.order.len() == c.qs.len()
    &&& c.order.no_duplicates()
    &&& forall|i: int| 0 <= i < c.order.len() ==> (#[trigger] c.order[i]) < c.qs.len()
    &&& forall|i: int|
        0 <= i < c.qs.len() ==> (#[trigger] c.qs[i]) == stamp_path(c.ps[path_was(c, i)], c.ps)
            || c.qs[i] == reversed(stamp_path(c.ps[path_was(c, i)], c.ps))
    &&& c.ps[0].hops.len() == 0 ==> absorbed(c.ps[0], c.ps)
}

proof fn lemma_pair(c: TwoV, i: int, t: int)
    requires
        paired(c),
        0 <= i < c.qs.len(),
        0 <= t <= c.qs[i].hops.len(),
    ensures
        occurs(c.qs, i, t),
        occurs(c.ps, path_was(c, i), node_was(c, i, t)),
        c.qs[i].hops.len() == c.ps[path_was(c, i)].hops.len(),
        node_at(c.qs[i], t) == stamp_node(
            node_at(c.ps[path_was(c, i)], node_was(c, i, t)),
            c.ps,
        ),
{
    let j = path_was(c, i);
    let p = c.ps[j];
    let s = stamp_path(p, c.ps);
    assert(c.order[i] < c.qs.len());
    assert(j >= first_kept(c.ps));
    assert(p.hops.len() > 0);
    assert(s.hops.len() == p.hops.len());
    assert forall|u: int| 0 <= u <= p.hops.len() implies #[trigger] node_at(s, u) == stamp_node(
        node_at(p, u),
        c.ps,
    ) by {
        if u > 0 {
            assert(s.hops[u - 1] == (p.hops[u - 1].0, stamp_node(p.hops[u - 1].1, c.ps)));
        }
    }
    if is_turned(c, i) {
        let r = reversed(s);
        assert(c.qs[i] == r);
        let k = s.hops.len();
        assert(node_at(r, t) == node_at(s, k - t)) by {
            if t > 0 {
                assert(r.hops[t - 1].1 == node_at(s, k - 1 - (t - 1)));
            }
        }
    }
}

/// Every path with hops stands in the reordering.
proof fn lemma_onto(c: TwoV, j: int) -> (i: int)
    requires
        paired(c),
        first_kept(c.ps) <= j < c.ps.len(),
    ensures
        0 <= i < c.qs.len(),
        path_was(c, i) == j,
{
    let perm = Seq::new(c.qs.len(), |i: int| c.order[i] as int);
    lemma_arranged(c);
    let x = j - first_kept(c.ps);
    assert(perm.contains(x));
    let i = choose|i: int| 0 <= i < perm.len() && perm[i] == x;
    i
}

/// The order is an arrangement of the paths.
proof fn lemma_arranged(c: TwoV)
    requires
        paired(c),
    ensures
        arrangement(Seq::new(c.qs.len(), |i: int| c.order[i] as int), c.qs.len() as int),
{
    let m = c.qs.len() as int;
    let perm = Seq::new(c.qs.len(), |i: int| c.order[i] as int);
    assert(perm.no_duplicates()) by {
        assert forall|a: int, b: int|
            0 <= a < perm.len() && 0 <= b < perm.len() && a != b implies perm[a] != perm[b] by {
            assert(c.order[a] != c.order[b]);
        }
    }
    perm.unique_seq_to_set();
    vstd::set_lib::lemma_int_range(0, m);
    let all = vstd::set_lib::set_int_range(0, m);
    assert(perm.to_set().subset_of(all)) by {
        assert forall|x: int| perm.to_set().contains(x) implies all.contains(x) by {
            let a = choose|a: int| 0 <= a < perm.len() && perm[a] == x;
            assert(c.order[a] < c.qs.len());
        }
    }
    vstd::seq_lib::seq_to_set_is_finite(perm);
    vstd::set_lib::lemma_subset_equality(perm.to_set(), all);
    assert forall|x: int| #[trigger] perm.contains(x) <==> 0 <= x < m by {
        assert(perm.to_set().contains(x) <==> all.contains(x));
    }
}

/// Nodes are one in the reordering where they were one.
proof fn lemma_same_both(c: TwoV, i: int, t: int, k: int, s: int)
    requires
        paired(c),
        occurs(c.qs, i, t),
        occurs(c.qs, k, s),
    ensures
        same_node(c.ps, path_was(c, i), node_was(c, i, t), path_was(c, k), node_was(c, k, s))
            <==> same_node(c.qs, i, t, k, s),
{
    lemma_pair(c, i, t);
    lemma_pair(c, k, s);
    if i != k {
        assert(c.order[i] != c.order[k]);
    }
}

/// The start of a first path with hops is the first variable.
proof fn lemma_zero(h: HopsV, ps: Seq<PathV>)
    requires
        read(h, ps),
        ps[0].hops.len() > 0,
    ensures
        at_of(h.hops, ps, 0, 0) == 0,
{
    read_law::lemma_at(h, ps, 0, 0);
    assert(node_at(ps[0], 0) == ps[0].start);
    let v = at_of(h.hops, ps, 0, 0);
    if ps[0].start.var is Some {
        assert(h.vars[v] == h.vars[0]);
    }
}

/// A bound variable of the pattern is that of a node of the reordering.
proof fn lemma_var_at(c: TwoV, v: int) -> (r: (int, int))
    requires
        paired(c),
        v == 0 || bound_by(c.hp.hops, v),
    ensures
        occurs(c.qs, r.0, r.1),
        at_of(c.hp.hops, c.ps, path_was(c, r.0), node_was(c, r.0, r.1)) == v,
{
    let (j, t) = if v != 0 {
        read_law::lemma_bound_at(c.hp, c.ps, v)
    } else if c.ps[0].hops.len() > 0 {
        lemma_zero(c.hp, c.ps);
        (0, 0)
    } else {
        let x = c.ps[0].start.var->0;
        let k = choose|k: int|
            0 <= k < c.ps.len() && (#[trigger] c.ps[k]).hops.len() > 0 && touches(c.ps[k], x);
        let t = choose|t: int|
            0 <= t <= c.ps[k].hops.len() && (#[trigger] node_at(c.ps[k], t)).var == Some(x);
        read_law::lemma_at(c.hp, c.ps, k, t);
        assert(c.hp.vars[at_of(c.hp.hops, c.ps, k, t)] == c.hp.vars[0]);
        (k, t)
    };
    assert(occurs(c.ps, j, t));
    assert(at_of(c.hp.hops, c.ps, j, t) == v);
    assert(j >= first_kept(c.ps));
    let i = lemma_onto(c, j);
    let s = if is_turned(c, i) {
        c.ps[j].hops.len() - t
    } else {
        t
    };
    lemma_pair(c, i, 0);
    assert(node_was(c, i, s) == t);
    (i, s)
}

/// A label is written on a named node.
pub open spec fn written(ps: Seq<PathV>, x: Seq<char>, l: Seq<char>) -> bool {
    exists|j: int, t: int|
        0 <= j < ps.len() && 0 <= t <= ps[j].hops.len() && (#[trigger] node_at(ps[j], t)).var == Some(x)
            && node_at(ps[j], t).labels.contains(l)
}

proof fn lemma_labels_at(ns: Seq<NodeV>, x: Seq<char>, l: Seq<char>)
    ensures
        labels_at(ns, x).contains(l) <==> exists|i: int|
            0 <= i < ns.len() && (#[trigger] ns[i]).var == Some(x) && ns[i].labels.contains(l),
    decreases ns.len(),
{
    if ns.len() > 0 {
        let rest = ns.drop_last();
        lemma_labels_at(rest, x, l);
        let a = labels_at(rest, x);
        let b = ns.last().labels;
        assert((a + b).contains(l) <==> a.contains(l) || b.contains(l)) by {
            if a.contains(l) {
                let i = choose|i: int| 0 <= i < a.len() && a[i] == l;
                assert((a + b)[i] == l);
            }
            if b.contains(l) {
                let i = choose|i: int| 0 <= i < b.len() && b[i] == l;
                assert((a + b)[a.len() + i] == l);
            }
            if (a + b).contains(l) {
                let i = choose|i: int| 0 <= i < (a + b).len() && (a + b)[i] == l;
                if i < a.len() {
                    assert(a[i] == l);
                } else {
                    assert(b[i - a.len()] == l);
                }
            }
        }
        if exists|i: int|
            0 <= i < rest.len() && (#[trigger] rest[i]).var == Some(x) && rest[i].labels.contains(l) {
            let i = choose|i: int|
                0 <= i < rest.len() && (#[trigger] rest[i]).var == Some(x) && rest[i].labels.contains(l);
            assert(ns[i] == rest[i]);
        }
        if exists|i: int|
            0 <= i < ns.len() && (#[trigger] ns[i]).var == Some(x) && ns[i].labels.contains(l) {
            let i = choose|i: int|
                0 <= i < ns.len() && (#[trigger] ns[i]).var == Some(x) && ns[i].labels.contains(l);
            if i < rest.len() {
                assert(rest[i] == ns[i]);
            }
        }
        assert(ns[ns.len() - 1] == ns.last());
    }
}

proof fn lemma_all_nodes(ps: Seq<PathV>, n: NodeV)
    ensures
        all_nodes(ps).contains(n) <==> exists|j: int, t: int|
            0 <= j < ps.len() && 0 <= t <= ps[j].hops.len() && #[trigger] node_at(ps[j], t) == n,
    decreases ps.len(),
{
    if ps.len() > 0 {
        let rest = ps.drop_last();
        lemma_all_nodes(rest, n);
        let a = all_nodes(rest);
        let b = path_nodes(ps.last());
        let last = ps.len() - 1;
        if all_nodes(ps).contains(n) {
            let i = choose|i: int| 0 <= i < (a + b).len() && (a + b)[i] == n;
            if i < a.len() {
                assert(a[i] == n);
                assert(a.contains(n));
                let (j, t) = choose|j: int, t: int|
                    0 <= j < rest.len() && 0 <= t <= rest[j].hops.len() && #[trigger] node_at(
                        rest[j],
                        t,
                    ) == n;
                assert(node_at(ps[j], t) == n);
            } else {
                assert(b[i - a.len()] == n);
                assert(node_at(ps[last], i - a.len()) == n);
            }
        }
        if exists|j: int, t: int|
            0 <= j < ps.len() && 0 <= t <= ps[j].hops.len() && #[trigger] node_at(ps[j], t) == n {
            let (j, t) = choose|j: int, t: int|
                0 <= j < ps.len() && 0 <= t <= ps[j].hops.len() && #[trigger] node_at(ps[j], t) == n;
            if j < last {
                assert(node_at(rest[j], t) == n);
                assert(a.contains(n));
                let i = choose|i: int| 0 <= i < a.len() && a[i] == n;
                assert((a + b)[i] == n);
            } else {
                assert(b[t] == n);
                assert((a + b)[a.len() + t] == n);
            }
        }
    }
}

/// The labels of a variable are those written on it.
proof fn lemma_union(ps: Seq<PathV>, x: Seq<char>, l: Seq<char>)
    ensures
        label_union(ps, x).contains(l) <==> written(ps, x, l),
{
    let ns = all_nodes(ps);
    table::law_first_seen_same(labels_at(ns, x));
    lemma_labels_at(ns, x, l);
    assert(label_union(ps, x).contains(l) <==> labels_at(ns, x).contains(l));
    if labels_at(ns, x).contains(l) {
        let i = choose|i: int|
            0 <= i < ns.len() && (#[trigger] ns[i]).var == Some(x) && ns[i].labels.contains(l);
        lemma_all_nodes(ps, ns[i]);
        assert(ns.contains(ns[i]));
        let (j, t) = choose|j: int, t: int|
            0 <= j < ps.len() && 0 <= t <= ps[j].hops.len() && #[trigger] node_at(ps[j], t) == ns[i];
        assert(node_at(ps[j], t).var == Some(x));
    }
    if written(ps, x, l) {
        let (j, t) = choose|j: int, t: int|
            0 <= j < ps.len() && 0 <= t <= ps[j].hops.len() && (#[trigger] node_at(ps[j], t)).var
                == Some(x) && node_at(ps[j], t).labels.contains(l);
        lemma_all_nodes(ps, node_at(ps[j], t));
        let i = choose|i: int| 0 <= i < ns.len() && ns[i] == node_at(ps[j], t);
        assert(ns[i].var == Some(x));
    }
}

/// What is written on a named node is known of its variable.
proof fn lemma_written(h: HopsV, ps: Seq<PathV>, j: int, t: int, l: Seq<char>)
    requires
        read(h, ps),
        0 <= j < ps.len(),
        0 <= t <= ps[j].hops.len(),
        node_at(ps[j], t).var is Some,
        node_at(ps[j], t).labels.contains(l),
    ensures
        labels::known(h.labels, node_at(ps[j], t).var->0).contains(l),
{
    reveal(hop_traced);
    let n = node_at(ps[j], t);
    let x = n.var->0;
    let i = choose|i: int| 0 <= i < n.labels.len() && n.labels[i] == l;
    if ps[j].hops.len() == 0 {
        assert(j == 0 && t == 0);
        assert(denotes(h.vars, 0, ps[0].start));
        assert(h.vars[0] == x);
    } else {
        read_law::lemma_at(h, ps, j, t);
        assert(labels::all_known(h.labels, x, n.labels));
        assert(labels::known(h.labels, x).contains(n.labels[i]));
    }
}

/// The node that a named variable was first written on.
proof fn lemma_first(h: HopsV, ps: Seq<PathV>, j: int, t: int) -> (r: (int, int))
    requires
        read(h, ps),
        occurs(ps, j, t),
        node_at(ps[j], t).var is Some,
    ensures
        0 <= r.0 < ps.len(),
        0 <= r.1 <= ps[r.0].hops.len(),
        node_at(ps[r.0], r.1).var == node_at(ps[j], t).var,
        h.labels.contains_key(node_at(ps[j], t).var->0),
        h.labels[node_at(ps[j], t).var->0] == node_at(ps[r.0], r.1).labels,
{
    reveal(hop_traced);
    let x = node_at(ps[j], t).var->0;
    let v = at_of(h.hops, ps, j, t);
    read_law::lemma_at(h, ps, j, t);
    read_law::lemma_at_bound(h, ps, j, t);
    assert(own_name(x));
    assert(h.vars[v] == x);
    if v == 0 {
        assert(denotes(h.vars, 0, ps[0].start));
        assert(node_at(ps[0], 0) == ps[0].start);
        (0, 0)
    } else {
        let (k, s) = read_law::lemma_bound_hop(h, ps, v);
        assert(hop_traced(h.vars, h.labels, h.hops, ps, k, s));
        assert(node_at(ps[k], s + 1) == ps[k].hops[s].1);
        (k, s + 1)
    }
}

/// The variable of an unnamed node keeps its labels.
proof fn lemma_unnamed(h: HopsV, ps: Seq<PathV>, j: int, t: int)
    requires
        read(h, ps),
        occurs(ps, j, t),
        node_at(ps[j], t).var is None,
    ensures
        h.labels[h.vars[at_of(h.hops, ps, j, t)]] == node_at(ps[j], t).labels,
{
    reveal(hop_traced);
    read_law::lemma_at(h, ps, j, t);
}

proof fn lemma_carries_same(g: Graph, x: u64, a: Seq<Seq<char>>, b: Seq<Seq<char>>)
    requires
        forall|l: Seq<char>| #[trigger] a.contains(l) <==> b.contains(l),
    ensures
        carries(g, x, a) == carries(g, x, b),
{
    if a.len() > 0 {
        assert(a.contains(a[0]));
        assert(b.contains(a[0]));
    }
    if b.len() > 0 {
        assert(b.contains(b[0]));
        assert(a.contains(b[0]));
    }
    if a.len() > 0 {
        if g.labelled_all(x as int, a) {
            assert forall|i: int| 0 <= i < b.len() implies g.labelled(x as int, #[trigger] b[i]) by {
                assert(b.contains(b[i]));
                assert(a.contains(b[i]));
                let k = choose|k: int| 0 <= k < a.len() && a[k] == b[i];
                assert(g.labelled(x as int, a[k]));
            }
        }
        if g.labelled_all(x as int, b) {
            assert forall|i: int| 0 <= i < a.len() implies g.labelled(x as int, #[trigger] a[i]) by {
                assert(a.contains(a[i]));
                assert(b.contains(a[i]));
                let k = choose|k: int| 0 <= k < b.len() && b[k] == a[i];
                assert(g.labelled(x as int, b[k]));
            }
        }
    }
}

/// A node is asked for the same labels in both.
proof fn lemma_labels(c: TwoV, g: Graph, i: int, t: int, x: u64)
    requires
        paired(c),
        occurs(c.qs, i, t),
    ensures
        carries(
            g,
            x,
            c.hp.labels[c.hp.vars[at_of(c.hp.hops, c.ps, path_was(c, i), node_was(c, i, t))]],
        ) == carries(g, x, c.hq.labels[c.hq.vars[at_of(c.hq.hops, c.qs, i, t)]]),
{
    lemma_pair(c, i, t);
    let j = path_was(c, i);
    let s = node_was(c, i, t);
    let n = node_at(c.ps[j], s);
    read_law::lemma_at(c.hp, c.ps, j, s);
    read_law::lemma_at(c.hq, c.qs, i, t);
    match n.var {
        None => {
            lemma_unnamed(c.hp, c.ps, j, s);
            lemma_unnamed(c.hq, c.qs, i, t);
        },
        Some(y) => {
            let (j0, t0) = lemma_first(c.hp, c.ps, j, s);
            let (i0, s0) = lemma_first(c.hq, c.qs, i, t);
            lemma_pair(c, i0, s0);
            let a = c.hp.labels[y];
            let b = c.hq.labels[y];
            assert(b == label_union(c.ps, y));
            assert forall|l: Seq<char>| #[trigger] a.contains(l) <==> b.contains(l) by {
                lemma_union(c.ps, y, l);
                if a.contains(l) {
                    assert(node_at(c.ps[j0], t0).labels.contains(l));
                }
                if written(c.ps, y, l) {
                    let (k, u) = choose|k: int, u: int|
                        0 <= k < c.ps.len() && 0 <= u <= c.ps[k].hops.len() && (#[trigger] node_at(
                            c.ps[k],
                            u,
                        )).var == Some(y) && node_at(c.ps[k], u).labels.contains(l);
                    lemma_written(c.hp, c.ps, k, u, l);
                }
            }
            lemma_carries_same(g, x, a, b);
        },
    }
}

/// The variable that stands in the reordering for a variable of the pattern.
spec fn stand_in(c: TwoV, v: int) -> int {
    let (i, t) = choose|i: int, t: int| #[trigger]
        occurs(c.qs, i, t) && at_of(c.hp.hops, c.ps, path_was(c, i), node_was(c, i, t)) == v;
    at_of(c.hq.hops, c.qs, i, t)
}

/// A node's variable stands in for its variable.
proof fn lemma_stand_in(c: TwoV, i: int, t: int)
    requires
        paired(c),
        occurs(c.qs, i, t),
    ensures
        stand_in(c, at_of(c.hp.hops, c.ps, path_was(c, i), node_was(c, i, t))) == at_of(
            c.hq.hops,
            c.qs,
            i,
            t,
        ),
{
    let v = at_of(c.hp.hops, c.ps, path_was(c, i), node_was(c, i, t));
    let (k, s) = choose|k: int, s: int| #[trigger]
        occurs(c.qs, k, s) && at_of(c.hp.hops, c.ps, path_was(c, k), node_was(c, k, s)) == v;
    lemma_pair(c, i, t);
    lemma_pair(c, k, s);
    read_law::lemma_same_var(
        c.hp,
        c.ps,
        path_was(c, i),
        node_was(c, i, t),
        path_was(c, k),
        node_was(c, k, s),
    );
    lemma_same_both(c, i, t, k, s);
    read_law::lemma_same_var(c.hq, c.qs, i, t, k, s);
}

/// Stand-ins differ where their variables do.
proof fn lemma_stand_apart(c: TwoV, v: int, w: int)
    requires
        paired(c),
        v == 0 || bound_by(c.hp.hops, v),
        w == 0 || bound_by(c.hp.hops, w),
        stand_in(c, v) == stand_in(c, w),
    ensures
        v == w,
{
    let (i, t) = lemma_var_at(c, v);
    let (k, s) = lemma_var_at(c, w);
    lemma_stand_in(c, i, t);
    lemma_stand_in(c, k, s);
    read_law::lemma_same_var(c.hq, c.qs, i, t, k, s);
    lemma_same_both(c, i, t, k, s);
    lemma_pair(c, i, t);
    lemma_pair(c, k, s);
    read_law::lemma_same_var(
        c.hp,
        c.ps,
        path_was(c, i),
        node_was(c, i, t),
        path_was(c, k),
        node_was(c, k, s),
    );
}

/// The hops of a path of the reordering.
proof fn lemma_legs(c: TwoV, g: Graph, i: int)
    requires
        paired(c),
        0 <= i < c.qs.len(),
    ensures
        route_of(g, c.hq.hops, c.qs, i).legs == if is_turned(c, i) {
            turned(route_of(g, c.hp.hops, c.ps, path_was(c, i)).legs)
        } else {
            route_of(g, c.hp.hops, c.ps, path_was(c, i)).legs
        },
{
    lemma_pair(c, i, 0);
    let j = path_was(c, i);
    let p = c.ps[j];
    let s = stamp_path(p, c.ps);
    let m = p.hops.len() as int;
    let r = route_of(g, c.hp.hops, c.ps, j).legs;
    let q = route_of(g, c.hq.hops, c.qs, i).legs;
    assert(s.hops.len() == m);
    assert forall|u: int| 0 <= u < m implies #[trigger] s.hops[u] == (
        p.hops[u].0,
        stamp_node(p.hops[u].1, c.ps),
    ) by {}
    if is_turned(c, i) {
        assert(c.qs[i] == reversed(s));
        assert forall|u: int| 0 <= u < m implies q[u] == turned(r)[u] by {
            assert(c.qs[i].hops[u].0 == flip_rel(s.hops[m - 1 - u].0));
            assert(turned(r)[u].dir == r[m - 1 - u].dir.flip());
            assert(s.hops[m - 1 - u].0 == p.hops[m - 1 - u].0);
        }
        assert(q =~= turned(r));
    } else {
        assert forall|u: int| 0 <= u < m implies q[u] == r[u] by {
            assert(c.qs[i].hops[u] == s.hops[u]);
        }
        assert(q =~= r);
    }
}

/// A path of the reordering is a path of the pattern under other names.
proof fn lemma_route(
    c: TwoV,
    g: Graph,
    hops: Seq<Hop>,
    width: int,
    vs: Seq<int>,
    ws: Seq<int>,
    i: int,
)
    requires
        paired(c),
        g.wf(),
        read_law::steps_of(hops, c.hp),
        c.hp.vars.len() <= width,
        vs == vars_of(chain_rows::count_view(g, hops, width)),
        ws.len() == vs.len(),
        forall|k: int| 0 <= k < vs.len() ==> #[trigger] ws[k] == stand_in(c, vs[k]),
        0 <= i < c.qs.len(),
    ensures
        same_route(
            route_of(g, c.hp.hops, c.ps, path_was(c, i)),
            route_of(g, c.hq.hops, c.qs, i),
            vs,
            ws,
        ),
{
    let j = path_was(c, i);
    let r = route_of(g, c.hp.hops, c.ps, j);
    let q = route_of(g, c.hq.hops, c.qs, i);
    lemma_pair(c, i, 0);
    lemma_legs(c, g, i);
    let m = c.qs[i].hops.len() as int;
    let base = if is_turned(c, i) {
        turned_route(r)
    } else {
        r
    };
    assert forall|t: int| 0 <= t < base.at.len() implies named_as(
        vs,
        ws,
        #[trigger] base.at[t],
        q.at[t],
    ) by {
        lemma_pair(c, i, t);
        let s = node_was(c, i, t);
        assert(base.at[t] == at_of(c.hp.hops, c.ps, j, s));
        assert(q.at[t] == at_of(c.hq.hops, c.qs, i, t));
        read_law::lemma_at_bound(c.hp, c.ps, j, s);
        read_law::lemma_bound_vars(g, c.hp, hops, width, c.ps, base.at[t]);
        let k = choose|k: int| 0 <= k < vs.len() && vs[k] == base.at[t];
        lemma_stand_in(c, i, t);
        assert(vs[k] == base.at[t] && ws[k] == q.at[t]);
    }
    assert(renamed(base, q, vs, ws));
}

/// The chains of a pattern and of a reordering walk the same pattern.
proof fn lemma_same_pattern(
    c: TwoV,
    g: Graph,
    hp: Seq<Hop>,
    wp: int,
    hq: Seq<Hop>,
    wq: int,
    ws: Seq<int>,
)
    requires
        paired(c),
        g.wf(),
        read_law::steps_of(hp, c.hp),
        read_law::steps_of(hq, c.hq),
        c.hp.vars.len() <= wp,
        c.hq.vars.len() <= wq,
        ws == Seq::new(
            vars_of(chain_rows::count_view(g, hp, wp)).len(),
            |k: int| stand_in(c, vars_of(chain_rows::count_view(g, hp, wp))[k]),
        ),
    ensures
        same_pattern(
            chain_rows::count_view(g, hp, wp),
            |n: u64| carries(g, n, c.hp.a_labels),
            routes_from(g, c.hp.hops, c.ps, first_kept(c.ps)),
            chain_rows::count_view(g, hq, wq),
            |n: u64| carries(g, n, c.hq.a_labels),
            routes_from(g, c.hq.hops, c.qs, 0),
            Seq::new(c.qs.len(), |i: int| c.order[i] as int),
            ws,
        ),
{
    let p = chain_rows::count_view(g, hp, wp);
    let q = chain_rows::count_view(g, hq, wq);
    let vs = vars_of(p);
    let us = vars_of(q);
    let b = first_kept(c.ps);
    let perm = Seq::new(c.qs.len(), |i: int| c.order[i] as int);
    let rp = routes_from(g, c.hp.hops, c.ps, b);
    let rq = routes_from(g, c.hq.hops, c.qs, 0);
    lemma_pair(c, 0, 0);
    read_law::lemma_routes(g, c.hp, hp, wp, c.ps, b);
    read_law::lemma_routes(g, c.hq, hq, wq, c.qs, 0);
    assert(traced::offset(c.ps, b) == 0) by {
        assert(traced::offset(c.ps, 0) == 0);
    }
    lemma_arranged(c);
    read_law::lemma_read_ordered(g, c.hp, hp, wp, c.ps);
    order_law::lemma_vars(p);
    assert forall|i: int| 0 <= i < rq.len() implies same_route(
        rp[perm[i]],
        #[trigger] rq[i],
        vs,
        ws,
    ) by {
        lemma_route(c, g, hp, wp, vs, ws, i);
        assert(c.order[i] < c.qs.len());
        assert(rp[perm[i]] == route_of(g, c.hp.hops, c.ps, path_was(c, i)));
    }
    assert forall|k: int| 0 <= k < vs.len() implies #[trigger] vs[k] == 0 || bound_by(
        c.hp.hops,
        vs[k],
    ) by {
        assert(vs.contains(vs[k]));
        read_law::lemma_bound_vars(g, c.hp, hp, wp, c.ps, vs[k]);
    }
    assert(ws.no_duplicates()) by {
        assert forall|x: int, y: int|
            0 <= x < ws.len() && 0 <= y < ws.len() && x != y implies ws[x] != ws[y] by {
            assert(vs[x] != vs[y]);
            if ws[x] == ws[y] {
                lemma_stand_apart(c, vs[x], vs[y]);
            }
        }
    }
    assert forall|v: int| #[trigger] ws.contains(v) <==> us.contains(v) by {
        read_law::lemma_bound_vars(g, c.hq, hq, wq, c.qs, v);
        if ws.contains(v) {
            let k = choose|k: int| 0 <= k < ws.len() && ws[k] == v;
            let (i, t) = lemma_var_at(c, vs[k]);
            lemma_stand_in(c, i, t);
            read_law::lemma_at_bound(c.hq, c.qs, i, t);
        }
        if us.contains(v) {
            let (i, t) = if v == 0 {
                lemma_zero(c.hq, c.qs);
                (0, 0)
            } else {
                read_law::lemma_bound_at(c.hq, c.qs, v)
            };
            assert(occurs(c.qs, i, t));
            lemma_pair(c, i, t);
            let w = at_of(c.hp.hops, c.ps, path_was(c, i), node_was(c, i, t));
            read_law::lemma_at_bound(c.hp, c.ps, path_was(c, i), node_was(c, i, t));
            read_law::lemma_bound_vars(g, c.hp, hp, wp, c.ps, w);
            let k = choose|k: int| 0 <= k < vs.len() && vs[k] == w;
            lemma_stand_in(c, i, t);
            assert(ws[k] == v);
        }
    }
    let seed = |n: u64| carries(g, n, c.hp.a_labels);
    let other = |n: u64| carries(g, n, c.hq.a_labels);
    assert forall|k: int, x: u64| 0 <= k < vs.len() implies asks(p, seed, #[trigger] vs[k], x)
        == #[trigger] asks(q, other, ws[k], x) by {
        let (i, t) = lemma_var_at(c, vs[k]);
        lemma_stand_in(c, i, t);
        read_law::lemma_at_bound(c.hq, c.qs, i, t);
        read_law::lemma_asks_labels(g, c.hp, hp, wp, c.ps, vs[k], x);
        read_law::lemma_asks_labels(g, c.hq, hq, wq, c.qs, ws[k], x);
        lemma_labels(c, g, i, t, x);
    }
}

/// A path with every label of its variables, from its start or its end, has the
/// nodes and the relationships of the path.
proof fn lemma_copy(ps: Seq<PathV>, j: int, q: PathV)
    requires
        0 <= j < ps.len(),
        walkable(ps[j]),
        q == stamp_path(ps[j], ps) || q == reversed(stamp_path(ps[j], ps)),
    ensures
        q.hops.len() == ps[j].hops.len(),
        walkable(q),
        forall|t: int|
            0 <= t <= q.hops.len() ==> exists|s: int|
                0 <= s <= ps[j].hops.len() && (#[trigger] node_at(q, t)).var == (#[trigger] node_at(
                    ps[j],
                    s,
                )).var,
        forall|u: int|
            0 <= u < q.hops.len() ==> exists|v: int|
                0 <= v < ps[j].hops.len() && (#[trigger] q.hops[u]).0.var == (#[trigger] ps[j].hops[v]).0.var,
{
    let p = ps[j];
    let s = stamp_path(p, ps);
    let m = p.hops.len() as int;
    assert forall|u: int| 0 <= u < m implies #[trigger] s.hops[u] == (
        p.hops[u].0,
        stamp_node(p.hops[u].1, ps),
    ) by {}
    assert forall|u: int| 0 <= u <= m implies #[trigger] node_at(s, u) == stamp_node(
        node_at(p, u),
        ps,
    ) by {
        if u > 0 {
            assert(s.hops[u - 1] == (p.hops[u - 1].0, stamp_node(p.hops[u - 1].1, ps)));
        }
    }
    assert forall|u: int| 0 <= u <= m implies (#[trigger] node_at(p, u)).props is None by {
        if u > 0 {
            assert(p.hops[u - 1].1.props is None);
        }
    }
    let straight = q == s;
    assert(q.hops.len() == m);
    assert forall|t: int| 0 <= t <= m implies #[trigger] node_at(q, t) == node_at(
        s,
        if straight {
            t
        } else {
            m - t
        },
    ) by {
        if !straight && t > 0 {
            assert(q.hops[t - 1].1 == node_at(s, m - 1 - (t - 1)));
        }
    }
    assert forall|t: int| 0 <= t <= q.hops.len() implies exists|w: int|
        0 <= w <= ps[j].hops.len() && (#[trigger] node_at(q, t)).var == (#[trigger] node_at(
            ps[j],
            w,
        )).var by {
        let w = if straight {
            t
        } else {
            m - t
        };
        assert(node_at(s, w) == stamp_node(node_at(p, w), ps));
        assert(node_at(q, t).var == node_at(ps[j], w).var);
    }
    assert forall|u: int| 0 <= u < q.hops.len() implies exists|v: int|
        0 <= v < ps[j].hops.len() && (#[trigger] q.hops[u]).0.var == (#[trigger] ps[j].hops[v]).0.var by {
        let v = if straight {
            u
        } else {
            m - 1 - u
        };
        assert(s.hops[v].0 == p.hops[v].0);
        assert(q.hops[u].0.var == ps[j].hops[v].0.var);
    }
    assert(walkable(q)) by {
        assert(node_at(q, 0) == q.start);
        assert(node_at(p, if straight { 0 } else { m }).props is None);
        assert forall|u: int| 0 <= u < q.hops.len() implies (#[trigger] q.hops[u]).0.length is None
            && q.hops[u].1.props is None by {
            let v = if straight {
                u
            } else {
                m - 1 - u
            };
            assert(s.hops[v].0 == p.hops[v].0);
            assert(p.hops[v].0.length is None);
            assert(node_at(q, u + 1) == q.hops[u].1);
            let w = if straight {
                u + 1
            } else {
                m - (u + 1)
            };
            assert(node_at(s, w) == stamp_node(node_at(p, w), ps));
            assert(node_at(p, w).props is None);
        }
    }
}

/// The paths with hops of a pattern that was read.
proof fn lemma_kept(h: HopsV, ps: Seq<PathV>, kept: Seq<PathV>)
    requires
        read(h, ps),
        kept_paths(stamped(ps)) == Some(kept),
    ensures
        kept.len() > 0,
        ps.len() == kept.len() + first_kept(ps),
        forall|i: int|
            0 <= i < kept.len() ==> #[trigger] kept[i] == stamp_path(ps[i + first_kept(ps)], ps),
        ps[0].hops.len() == 0 ==> absorbed(ps[0], ps),
{
    let all = stamped(ps);
    let b = first_kept(ps);
    let f = |p: PathV| p.hops.len() > 0;
    assert(all.len() == ps.len());
    assert forall|i: int| 0 <= i < ps.len() implies #[trigger] all[i] == stamp_path(ps[i], ps)
        && all[i].hops.len() == ps[i].hops.len() by {}
    assert(kept == all.filter(f));
    assert forall|i: int| b <= i < all.len() implies f(#[trigger] all[i]) by {
        assert(ps[i].hops.len() > 0);
    }
    lemma_filter_from(all, f, b);
    if ps[0].hops.len() == 0 {
        assert(absorbed(all[0], all));
        let x = all[0].start.var->0;
        let k = choose|k: int|
            0 <= k < all.len() && (#[trigger] all[k]).hops.len() > 0 && touches(all[k], x);
        let t = choose|t: int|
            0 <= t <= all[k].hops.len() && (#[trigger] node_at(all[k], t)).var == Some(x);
        assert(node_at(ps[k], t).var == Some(x)) by {
            if t > 0 {
                assert(all[k].hops[t - 1] == (ps[k].hops[t - 1].0, stamp_node(ps[k].hops[t - 1].1, ps)));
            }
        }
        assert(touches(ps[k], x));
        assert(ps[k].hops.len() > 0);
        assert(ps[0].start.var == Some(x));
    }
}

/// A filter that only the first `b` elements fail, none or one.
proof fn lemma_filter_from(s: Seq<PathV>, f: spec_fn(PathV) -> bool, b: int)
    requires
        0 <= b <= 1,
        b <= s.len(),
        forall|i: int| b <= i < s.len() ==> f(#[trigger] s[i]),
        b == 1 ==> !f(s[0]),
    ensures
        s.filter(f) == s.skip(b),
    decreases s.len(),
{
    if s.len() == 0 {
        seqs::lemma_filter_empty(f);
        assert(s =~= Seq::empty());
        assert(s.skip(b) =~= Seq::empty());
    } else {
        seqs::lemma_filter_last(s, f);
        let rest = s.drop_last();
        if s.len() > b {
            assert forall|i: int| b <= i < rest.len() implies f(#[trigger] rest[i]) by {
                assert(rest[i] == s[i]);
            }
            if b == 1 && rest.len() > 0 {
                assert(rest[0] == s[0]);
            }
            lemma_filter_from(rest, f, b);
            assert(f(s[s.len() - 1]));
            assert(s.skip(b) =~= rest.skip(b).push(s.last()));
        } else {
            assert(rest =~= Seq::empty());
            seqs::lemma_filter_empty(f);
            assert(s.skip(b) =~= Seq::empty());
        }
    }
}

/// A reordering keeps names apart.
proof fn lemma_named(ps: Seq<PathV>, qs: Seq<PathV>)
    requires
        plainly_named(ps),
        forall|j: int| 0 <= j < ps.len() ==> walkable(#[trigger] ps[j]),
        forall|i: int|
            0 <= i < qs.len() ==> exists|j: int|
                0 <= j < ps.len() && (#[trigger] qs[i] == #[trigger] stamp_path(ps[j], ps) || qs[i]
                    == reversed(stamp_path(ps[j], ps))),
    ensures
        plainly_named(qs),
        forall|i: int| 0 <= i < qs.len() ==> walkable(#[trigger] qs[i]),
{
    assert forall|x: Seq<char>| rel_named(qs, x) implies #[trigger] rel_named(ps, x) by {
        let (i, u) = choose|i: int, u: int|
            0 <= i < qs.len() && 0 <= u < qs[i].hops.len() && (#[trigger] qs[i].hops[u]).0.var == Some(
                x,
            );
        let j = lemma_origin(ps, qs, i);
        lemma_copy(ps, j, qs[i]);
        let v = choose|v: int|
            0 <= v < ps[j].hops.len() && qs[i].hops[u].0.var == (#[trigger] ps[j].hops[v]).0.var;
        assert(ps[j].hops[v].0.var == Some(x));
    }
    assert forall|i: int, t: int|
        0 <= i < qs.len() && 0 <= t <= qs[i].hops.len() implies (#[trigger] node_at(qs[i], t).var matches Some(
        x,
    ) ==> own_name(x) && !rel_named(qs, x)) by {
        let j = lemma_origin(ps, qs, i);
        lemma_copy(ps, j, qs[i]);
        let s = choose|s: int|
            0 <= s <= ps[j].hops.len() && node_at(qs[i], t).var == (#[trigger] node_at(ps[j], s)).var;
        if node_at(qs[i], t).var is Some {
            let x = node_at(qs[i], t).var->0;
            assert(node_at(ps[j], s).var == Some(x));
            assert(own_name(x) && !rel_named(ps, x));
        }
    }
    assert forall|i: int, u: int|
        0 <= i < qs.len() && 0 <= u < qs[i].hops.len() implies ((#[trigger] qs[i].hops[u]).0.var matches Some(
        x,
    ) ==> own_name(x)) by {
        let j = lemma_origin(ps, qs, i);
        lemma_copy(ps, j, qs[i]);
        let v = choose|v: int|
            0 <= v < ps[j].hops.len() && qs[i].hops[u].0.var == (#[trigger] ps[j].hops[v]).0.var;
        assert(ps[j].hops[v].0.var == qs[i].hops[u].0.var);
    }
    assert forall|i: int| 0 <= i < qs.len() implies walkable(#[trigger] qs[i]) by {
        let j = lemma_origin(ps, qs, i);
        lemma_copy(ps, j, qs[i]);
    }
}

/// The path that a path was.
proof fn lemma_origin(ps: Seq<PathV>, qs: Seq<PathV>, i: int) -> (j: int)
    requires
        forall|i: int|
            0 <= i < qs.len() ==> exists|j: int|
                0 <= j < ps.len() && (#[trigger] qs[i] == #[trigger] stamp_path(ps[j], ps) || qs[i]
                    == reversed(stamp_path(ps[j], ps))),
        0 <= i < qs.len(),
    ensures
        0 <= j < ps.len(),
        qs[i] == stamp_path(ps[j], ps) || qs[i] == reversed(stamp_path(ps[j], ps)),
{
    choose|j: int|
        0 <= j < ps.len() && (qs[i] == #[trigger] stamp_path(ps[j], ps) || qs[i] == reversed(
            stamp_path(ps[j], ps),
        ))
}

/// Paths in another order fit as the pattern does.
pub proof fn lemma_other_fits(
    g: Graph,
    pattern: PatternV,
    kept: Seq<PathV>,
    seed: Seq<char>,
    rows: u64,
    order: Seq<usize>,
    other: PatternV,
    allow: Allow,
    h: HopsV,
)
    requires
        pattern_fits(pattern),
        plainly_named(pattern.paths),
        seeded(g, pattern) == Some((kept, seed, rows)),
        same_paths(kept, order, other.paths),
        order.len() == kept.len(),
        chain::scan_hops(pattern, allow) == Some(h),
    ensures
        read(h, pattern.paths),
        pattern_fits(other),
        plainly_named(other.paths),
        forall|i: int| 0 <= i < other.paths.len() ==> walkable(#[trigger] other.paths[i]),
        forall|i: int|
            0 <= i < other.paths.len() ==> (#[trigger] other.paths[i]) == stamp_path(
                pattern.paths[order[i] + first_kept(pattern.paths)],
                pattern.paths,
            ) || other.paths[i] == reversed(
                stamp_path(
                    pattern.paths[order[i] + first_kept(pattern.paths)],
                    pattern.paths,
                ),
            ),
{
    let ps = pattern.paths;
    let qs = other.paths;
    traced::law_steps_follow_paths(pattern, allow);
    layout::law_steps_are_laid_out(pattern, allow);
    assert(read(h, ps));
    lemma_kept(h, ps, kept);
    let b = first_kept(ps);
    assert forall|i: int| 0 <= i < qs.len() implies (#[trigger] qs[i]) == stamp_path(
        ps[order[i] + b],
        ps,
    ) || qs[i] == reversed(stamp_path(ps[order[i] + b], ps)) by {
        assert(order[i] < kept.len());
        assert(kept[order[i] as int] == stamp_path(ps[order[i] + b], ps));
    }
    assert forall|i: int| 0 <= i < qs.len() implies exists|j: int|
        0 <= j < ps.len() && (#[trigger] qs[i] == #[trigger] stamp_path(ps[j], ps) || qs[i]
            == reversed(stamp_path(ps[j], ps))) by {
        assert(order[i] < kept.len());
        let j = order[i] + b;
        assert(qs[i] == stamp_path(ps[j], ps) || qs[i] == reversed(stamp_path(ps[j], ps)));
    }
    lemma_named(ps, qs);
    assert(pattern_fits(other)) by {
        assert forall|i: int| 0 <= i < other.paths.len() implies (#[trigger] other.paths[i]).hops.len()
            <= usize::MAX by {
            let j = lemma_origin(ps, qs, i);
            lemma_copy(ps, j, qs[i]);
            assert(ps[j].hops.len() <= usize::MAX);
        }
    }
}

/// Bindings give each named node of two chains the same node.
pub open spec fn agree_by_name(a: HopsV, b: Seq<u64>, z: HopsV, c: Seq<u64>) -> bool {
    forall|v: int, w: int|
        #![trigger a.vars[v], z.vars[w]]
        0 <= v < a.vars.len() && 0 <= w < z.vars.len() && (v == 0 || bound_by(a.hops, v))
            && a.vars[v] == z.vars[w] && own_name(a.vars[v]) ==> b[v] == c[w]
}

/// Two chains pass the same named nodes: what the tests of each let pass and it
/// keeps, the other does.
pub open spec fn pass_alike(
    p: FoldV,
    keep: spec_fn(Seq<u64>) -> bool,
    a: HopsV,
    q: FoldV,
    save: spec_fn(Seq<u64>) -> bool,
    z: HopsV,
) -> bool {
    forall|b: Seq<u64>, c: Seq<u64>|
        #![trigger keep(b), save(c)]
        b.len() == p.width && c.len() == q.width && agree_by_name(a, b, z, c) ==> (keep(b)
            && tests_pass(p, b)) == (save(c) && tests_pass(q, c))
}

/// Nodes that are the same under other names have the same names.
proof fn lemma_by_name(c: TwoV, g: Graph, hp: Seq<Hop>, wp: int, ws: Seq<int>, x: Seq<u64>, y: Seq<u64>)
    requires
        paired(c),
        g.wf(),
        read_law::steps_of(hp, c.hp),
        c.hp.vars.len() <= wp,
        ws == Seq::new(
            vars_of(chain_rows::count_view(g, hp, wp)).len(),
            |k: int| stand_in(c, vars_of(chain_rows::count_view(g, hp, wp))[k]),
        ),
        same_nodes(
            vars_of(chain_rows::count_view(g, hp, wp)),
            ws,
            vars_of(chain_rows::count_view(g, hp, wp)).len() as int,
            x,
            y,
        ),
    ensures
        agree_by_name(c.hp, x, c.hq, y),
{
    let vs = vars_of(chain_rows::count_view(g, hp, wp));
    assert forall|v: int, w: int|
        #![trigger c.hp.vars[v], c.hq.vars[w]]
        0 <= v < c.hp.vars.len() && 0 <= w < c.hq.vars.len() && (v == 0 || bound_by(c.hp.hops, v))
            && c.hp.vars[v] == c.hq.vars[w] && own_name(c.hp.vars[v]) implies x[v] == y[w] by {
        read_law::lemma_bound_vars(g, c.hp, hp, wp, c.ps, v);
        let k = choose|k: int| 0 <= k < vs.len() && vs[k] == v;
        let (i, t) = lemma_var_at(c, v);
        lemma_pair(c, i, t);
        lemma_stand_in(c, i, t);
        read_law::lemma_at(c.hp, c.ps, path_was(c, i), node_was(c, i, t));
        read_law::lemma_at(c.hq, c.qs, i, t);
        let u = at_of(c.hq.hops, c.qs, i, t);
        assert(ws[k] == u);
        assert(node_at(c.ps[path_was(c, i)], node_was(c, i, t)).var is Some);
        assert(c.hq.vars[u] == c.hp.vars[v]);
        assert(u == w);
        assert(x[vs[k]] == y[ws[k]]);
    }
}

/// Reordering keeps the count: where a pattern and its paths in another order,
/// each as written or from its end, both have steps that pass the same named
/// nodes, their steps find the same number of matches that are kept from all the
/// nodes that they may start at. Names that are given to unnamed nodes may not be
/// written, and a relationship may not have the name of a node.
pub proof fn law_reordering_keeps_count(
    g: Graph,
    pattern: PatternV,
    kept: Seq<PathV>,
    seed: Seq<char>,
    rows: u64,
    order: Seq<usize>,
    other: PatternV,
    allow: Allow,
    h: HopsV,
    hops: Seq<Hop>,
    width: int,
    bind: Seq<u64>,
    keep: spec_fn(Seq<u64>) -> bool,
    h2: HopsV,
    hops2: Seq<Hop>,
    width2: int,
    bind2: Seq<u64>,
    save: spec_fn(Seq<u64>) -> bool,
)
    requires
        g.wf(),
        g.labels@.len() <= u64::MAX,
        pattern_fits(pattern),
        plainly_named(pattern.paths),
        seeded(g, pattern) == Some((kept, seed, rows)),
        same_paths(kept, order, other.paths),
        order.len() == kept.len(),
        chain::scan_hops(pattern, allow) == Some(h),
        read_law::steps_of(hops, h),
        h.vars.len() <= width,
        bind.len() == width,
        chain::scan_hops(other, allow) == Some(h2),
        read_law::steps_of(hops2, h2),
        h2.vars.len() <= width2,
        bind2.len() == width2,
        pass_alike(
            chain_rows::count_view(g, hops, width),
            keep,
            h,
            chain_rows::count_view(g, hops2, width2),
            save,
            h2,
        ),
    ensures
        total_kept(
            chain_rows::count_view(g, hops, width),
            |n: u64| carries(g, n, h.a_labels),
            bind,
            keep,
        ) == total_kept(
            chain_rows::count_view(g, hops2, width2),
            |n: u64| carries(g, n, h2.a_labels),
            bind2,
            save,
        ),
{
    let ps = pattern.paths;
    let qs = other.paths;
    lemma_other_fits(g, pattern, kept, seed, rows, order, other, allow, h);
    lemma_kept(h, ps, kept);
    let b = first_kept(ps);
    layout::law_steps_are_laid_out(pattern, allow);
    traced::law_steps_follow_paths(other, allow);
    layout::law_steps_are_laid_out(other, allow);
    assert(read(h2, qs));
    let c = TwoV { ps, hp: h, qs, hq: h2, order };
    assert(paired(c)) by {
        assert forall|i: int| 0 <= i < c.qs.len() implies (#[trigger] c.qs[i]) == stamp_path(
            c.ps[path_was(c, i)],
            c.ps,
        ) || c.qs[i] == reversed(stamp_path(c.ps[path_was(c, i)], c.ps)) by {
            assert(path_was(c, i) == order[i] + b);
        }
        assert forall|i: int| 0 <= i < c.order.len() implies (#[trigger] c.order[i]) < c.qs.len() by {}
    }
    let p = chain_rows::count_view(g, hops, width);
    let q = chain_rows::count_view(g, hops2, width2);
    let ws = Seq::new(vars_of(p).len(), |i: int| stand_in(c, vars_of(p)[i]));
    lemma_same_pattern(c, g, hops, width, hops2, width2, ws);
    read_law::lemma_read_ordered(g, h, hops, width, ps);
    read_law::lemma_read_ordered(g, h2, hops2, width2, qs);
    layout::lemma_width(h.hops, 1, 0, h.hops.len() as int);
    layout::lemma_width(h2.hops, 1, 0, h2.hops.len() as int);
    assert(same_passes(p, keep, q, save, ws)) by {
        assert forall|x: Seq<u64>, y: Seq<u64>|
            #![trigger keep(x), save(y)]
            x.len() == p.width && y.len() == q.width && same_nodes(
                vars_of(p),
                ws,
                vars_of(p).len() as int,
                x,
                y,
            ) implies (keep(x) && tests_pass(p, x)) == (save(y) && tests_pass(q, y)) by {
            lemma_by_name(c, g, hops, width, ws, x, y);
        }
    }
    order_law::law_reordered_pattern_counts_same(
        p,
        |n: u64| carries(g, n, h.a_labels),
        keep,
        routes_from(g, h.hops, ps, b),
        bind,
        q,
        |n: u64| carries(g, n, h2.a_labels),
        save,
        routes_from(g, h2.hops, qs, 0),
        bind2,
        Seq::new(qs.len(), |i: int| order[i] as int),
        ws,
    );
}

} // verus!
