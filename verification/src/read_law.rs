//! What a chain asks of the nodes of its pattern: which of its variables stand
//! for the same node, which paths it walks, and which labels it asks for.

use vstd::prelude::*;

use crate::chain::HopsV;
use crate::chain_rows;
use crate::fold_model::pred_var;
use crate::graph;
use crate::graph::Graph;
use crate::hop;
use crate::hop::{Hop, InlinePred, StepHop};
use crate::layout;
use crate::layout::{laid_out, step_laid, width_at};
use crate::match_law::{ordered, step_ordered};
use crate::order_law;
use crate::order_law::{asks, ends_from, routed, vars_of, walked, RouteV};
use crate::query;
use crate::query::PathV;
use crate::reroot::node_at;
use crate::seeds;
use crate::traced::{
    bound_by,
    denotes,
    hop_traced,
    led,
    offset,
    own_name,
    plainly_named,
    rel_named,
    traced,
};
use crate::turn_law::LegV;

verus! {

/// The steps of paths, read to the end.
pub open spec fn read(h: HopsV, ps: Seq<PathV>) -> bool {
    &&& ps.len() > 0
    &&& traced(h, ps, ps.len() as int, 0)
    &&& plainly_named(ps)
    &&& laid_out(h.hops, 1)
    &&& h.vars.len() == width_at(h.hops, 1, h.hops.len() as int)
}

/// Node `t` of a path with hops.
pub open spec fn occurs(ps: Seq<PathV>, j: int, t: int) -> bool {
    0 <= j < ps.len() && ps[j].hops.len() > 0 && 0 <= t <= ps[j].hops.len()
}

/// The variable of node `t` of path `j`.
pub open spec fn at_of(hops: Seq<StepHop>, ps: Seq<PathV>, j: int, t: int) -> int {
    let k = offset(ps, j) as int;
    if t == 0 {
        hops[k].src
    } else {
        led(hops[k + t - 1])
    }
}

/// Two nodes of a pattern are one: they have one name, or they are one unnamed
/// node.
pub open spec fn same_node(ps: Seq<PathV>, j: int, t: int, i: int, s: int) -> bool {
    match (node_at(ps[j], t).var, node_at(ps[i], s).var) {
        (Some(x), Some(y)) => x == y,
        (None, None) => j == i && t == s,
        _ => false,
    }
}

proof fn lemma_offset(ps: Seq<PathV>, a: int, b: int)
    requires
        0 <= a <= b,
    ensures
        offset(ps, a) <= offset(ps, b),
        a < b ==> offset(ps, a) + ps[a].hops.len() <= offset(ps, b),
    decreases b - a,
{
    if a < b {
        lemma_offset(ps, a, b - 1);
    }
}

/// The hop that a step follows.
proof fn lemma_find(ps: Seq<PathV>, n: int, k: int) -> (r: (int, int))
    requires
        0 <= n,
        0 <= k < offset(ps, n),
    ensures
        0 <= r.0 < n,
        0 <= r.1 < ps[r.0].hops.len(),
        offset(ps, r.0) + r.1 == k,
    decreases n,
{
    if k >= offset(ps, n - 1) {
        (n - 1, k - offset(ps, n - 1))
    } else {
        lemma_find(ps, n - 1, k)
    }
}

/// What is known of the variable of a node.
pub proof fn lemma_at(h: HopsV, ps: Seq<PathV>, j: int, t: int)
    requires
        read(h, ps),
        occurs(ps, j, t),
    ensures
        denotes(h.vars, at_of(h.hops, ps, j, t), node_at(ps[j], t)),
        offset(ps, j) < h.hops.len(),
        offset(ps, j) + t <= h.hops.len(),
        node_at(ps[j], t).var is None ==> if t == 0 {
            j == 0 && at_of(h.hops, ps, j, t) == 0
        } else {
            h.hops[offset(ps, j) + t - 1].tgt is None
        },
        t > 0 ==> hop_traced(h.vars, h.labels, h.hops, ps, j, t - 1),
        t == 0 ==> hop_traced(h.vars, h.labels, h.hops, ps, j, 0),
{
    reveal(hop_traced);
    let i = if t == 0 { 0 } else { t - 1 };
    assert(hop_traced(h.vars, h.labels, h.hops, ps, j, i));
    if t > 0 {
        assert(node_at(ps[j], t) == ps[j].hops[t - 1].1);
    }
}

/// Two nodes have one variable where they are one node.
pub proof fn lemma_same_var(h: HopsV, ps: Seq<PathV>, j: int, t: int, i: int, s: int)
    requires
        read(h, ps),
        occurs(ps, j, t),
        occurs(ps, i, s),
    ensures
        at_of(h.hops, ps, j, t) == at_of(h.hops, ps, i, s) <==> same_node(ps, j, t, i, s),
{
    lemma_at(h, ps, j, t);
    lemma_at(h, ps, i, s);
    let v = at_of(h.hops, ps, j, t);
    let w = at_of(h.hops, ps, i, s);
    let a = node_at(ps[j], t).var;
    let b = node_at(ps[i], s).var;
    if a is Some && b is None {
        assert(own_name(a->0));
    } else if a is None && b is Some {
        assert(own_name(b->0));
    } else if a is None && b is None && !(j == i && t == s) {
        let k = offset(ps, j) + t - 1;
        let l = offset(ps, i) + s - 1;
        if j < i {
            lemma_offset(ps, j, i);
        } else if i < j {
            lemma_offset(ps, i, j);
        }
        if t > 0 {
            assert(step_laid(h.hops, 1, k));
            layout::lemma_width(h.hops, 1, 0, k);
        }
        if s > 0 {
            assert(step_laid(h.hops, 1, l));
            layout::lemma_width(h.hops, 1, 0, l);
        }
        if t > 0 && s > 0 {
            if k < l {
                layout::lemma_width(h.hops, 1, k, l);
            } else {
                assert(l < k);
                layout::lemma_width(h.hops, 1, l, k);
            }
        }
    }
}

/// The path that the steps of path `j` walk.
pub open spec fn route_of(g: Graph, hops: Seq<StepHop>, ps: Seq<PathV>, j: int) -> RouteV {
    RouteV {
        legs: Seq::new(
            ps[j].hops.len(),
            |i: int|
                LegV {
                    dir: query::dir_of(ps[j].hops[i].0.dir),
                    tokens: g.type_tokens(ps[j].hops[i].0.types),
                },
        ),
        at: Seq::new(ps[j].hops.len() + 1, |t: int| at_of(hops, ps, j, t)),
    }
}

/// The paths that the steps from path `j` on walk.
pub open spec fn routes_from(g: Graph, hops: Seq<StepHop>, ps: Seq<PathV>, j: int) -> Seq<RouteV> {
    Seq::new((ps.len() - j) as nat, |i: int| route_of(g, hops, ps, j + i))
}

/// The variable that a test reads.
pub open spec fn test_var(p: InlinePred) -> int {
    match p {
        InlinePred::NeBound(o) => o as int,
        InlinePred::EqBound(o) => o as int,
        InlinePred::EdgeToBound { vi, .. } => vi as int,
    }
}

/// Steps are those that were read, with tests of what is bound by then.
pub open spec fn steps_of(hops: Seq<Hop>, h: HopsV) -> bool {
    &&& hops.len() == h.hops.len()
    &&& forall|k: int|
        0 <= k < hops.len() ==> h.hops[k] == (StepHop {
            inline: h.hops[k].inline,
            ..(#[trigger] hops[k]).v()
        })
    &&& forall|k: int, i: int|
        0 <= k < hops.len() && 0 <= i < hops[k].inline@.len() && hops[k].tgt is None ==> (
        hops[k].end_vi matches Some(e) && test_var(#[trigger] hops[k].inline@[i]) <= e)
}

/// The steps of a chain as counting reads them.
proof fn lemma_step(g: Graph, hops: Seq<Hop>, width: int, k: int)
    requires
        0 <= k < hops.len(),
    ensures
        ({
            let p = chain_rows::count_view(g, hops, width);
            let s = hop::steps_v(hops)[k];
            &&& p.hops.len() == hops.len() == hop::steps_v(hops).len()
            &&& p.hops[k].src == s.src
            &&& p.hops[k].dir == s.dir
            &&& p.hops[k].tokens == g.type_tokens(s.types)
            &&& p.hops[k].members == seeds::end_members(g, s.labels)
            &&& p.hops[k].track == s.track
            &&& p.hops[k].reset == s.reset
            &&& p.hops[k].tgt == s.tgt
            &&& p.hops[k].end == s.end_vi
            &&& p.hops[k].preds.len() == s.inline.len()
        }),
{
}

/// One hop of a path as counting reads it.
proof fn lemma_leg(g: Graph, h: HopsV, hops: Seq<Hop>, width: int, ps: Seq<PathV>, j: int, i: int)
    requires
        read(h, ps),
        steps_of(hops, h),
        0 <= j < ps.len(),
        0 <= i < ps[j].hops.len(),
    ensures
        ({
            let k = offset(ps, j) as int;
            let c = chain_rows::count_view(g, hops, width).hops[k + i];
            let r = route_of(g, h.hops, ps, j);
            &&& k + i < hops.len()
            &&& c.dir == r.legs[i].dir
            &&& c.tokens == r.legs[i].tokens
            &&& c.src == r.at[i]
            &&& order_law::led_to(c) == r.at[i + 1]
            &&& i == 0 ==> k == 0 || c.reset || !c.track
            &&& i > 0 ==> !c.reset
            &&& ps[j].hops.len() > 1 ==> c.track
        }),
{
    reveal(hop_traced);
    assert(hop::steps_v(hops).len() == hops.len());
    lemma_at(h, ps, j, i + 1);
    let k = offset(ps, j) as int;
    lemma_step(g, hops, width, k + i);
    let s = h.hops[k + i];
    assert(s == StepHop { inline: s.inline, ..hops[k + i].v() });
    let r = route_of(g, h.hops, ps, j);
    assert(r.at[i + 1] == led(s));
    assert(r.at[i] == s.src);
}

/// The steps of a path walk it.
proof fn lemma_walks(g: Graph, h: HopsV, hops: Seq<Hop>, width: int, ps: Seq<PathV>, j: int)
    requires
        read(h, ps),
        steps_of(hops, h),
        0 <= j < ps.len(),
        ps[j].hops.len() > 0,
    ensures
        walked(
            chain_rows::count_view(g, hops, width),
            offset(ps, j) as int,
            route_of(g, h.hops, ps, j),
        ),
{
    let p = chain_rows::count_view(g, hops, width);
    let r = route_of(g, h.hops, ps, j);
    let k = offset(ps, j) as int;
    let m = ps[j].hops.len() as int;
    lemma_leg(g, h, hops, width, ps, j, m - 1);
    assert forall|i: int| 0 <= i < m implies {
        let c = p.hops[k + i];
        &&& c.dir == (#[trigger] r.legs[i]).dir
        &&& c.tokens == r.legs[i].tokens
        &&& c.src == r.at[i]
        &&& order_law::led_to(c) == r.at[i + 1]
        &&& i == 0 ==> k == 0 || c.reset || !c.track
        &&& i > 0 ==> !c.reset
        &&& m > 1 ==> c.track
    } by {
        lemma_leg(g, h, hops, width, ps, j, i);
    }
}

/// A chain walks the paths of its pattern one after the other.
pub proof fn lemma_routes(g: Graph, h: HopsV, hops: Seq<Hop>, width: int, ps: Seq<PathV>, j: int)
    requires
        read(h, ps),
        steps_of(hops, h),
        0 <= j <= ps.len(),
        j == 0 ==> ps[0].hops.len() > 0,
    ensures
        routed(
            chain_rows::count_view(g, hops, width),
            offset(ps, j) as int,
            routes_from(g, h.hops, ps, j),
        ),
    decreases ps.len() - j,
{
    let rs = routes_from(g, h.hops, ps, j);
    assert(hop::steps_v(hops).len() == hops.len());
    if j < ps.len() {
        assert(ps[j].hops.len() > 0);
        lemma_routes(g, h, hops, width, ps, j + 1);
        assert(rs.skip(1) =~= routes_from(g, h.hops, ps, j + 1));
        assert(rs[0] == route_of(g, h.hops, ps, j));
        lemma_walks(g, h, hops, width, ps, j);
    }
}

/// A chain that was read is in binding order.
pub proof fn lemma_read_ordered(g: Graph, h: HopsV, hops: Seq<Hop>, width: int, ps: Seq<PathV>)
    requires
        read(h, ps),
        steps_of(hops, h),
        g.wf(),
        h.vars.len() <= width,
    ensures
        ordered(chain_rows::count_view(g, hops, width)),
{
    reveal(hop_traced);
    let p = chain_rows::count_view(g, hops, width);
    let s = h.hops;
    assert(s.len() == hops.len());
    assert forall|k: int| 0 <= k < p.hops.len() implies #[trigger] step_ordered(p, k) by {
        assert(step_laid(s, 1, k));
        layout::lemma_width(s, 1, k, s.len() as int);
        lemma_step(g, hops, width, k);
        assert(h.hops[k].src == hops[k].v().src);
        assert forall|i: int| 0 <= i < p.hops[k].preds.len() && p.hops[k].tgt is None implies 0
            <= pred_var(#[trigger] p.hops[k].preds[i]) <= p.hops[k].end->0 by {
            assert(test_var(hops[k].inline@[i]) <= hops[k].end_vi->0);
        }
    }
    assert forall|k: int, j: int|
        #![trigger p.hops[k], p.hops[j]]
        0 <= k < j < p.hops.len() && p.hops[j].tgt is None implies p.hops[k].src < p.hops[j].end->0
        && (match p.hops[k].tgt {
        Some(t) => t < p.hops[j].end->0,
        None => p.hops[k].end->0 < p.hops[j].end->0,
    }) by {
        assert(step_laid(s, 1, k));
        assert(step_laid(s, 1, j));
        layout::lemma_width(s, 1, k, j);
        lemma_step(g, hops, width, k);
        lemma_step(g, hops, width, j);
    }
}

/// A step that was read counts nothing and tests nothing.
pub proof fn lemma_read_plain(h: HopsV, ps: Seq<PathV>, k: int)
    requires
        read(h, ps),
        0 <= k < h.hops.len(),
    ensures
        !h.hops[k].fold,
        h.hops[k].inline.len() == 0,
{
    reveal(hop_traced);
    let (j, i) = lemma_find(ps, ps.len() as int, k);
    assert(hop_traced(h.vars, h.labels, h.hops, ps, j, i));
}

/// The variables that a chain binds.
pub proof fn lemma_bound_vars(g: Graph, h: HopsV, hops: Seq<Hop>, width: int, ps: Seq<PathV>, v: int)
    requires
        read(h, ps),
        steps_of(hops, h),
        g.wf(),
        h.vars.len() <= width,
    ensures
        vars_of(chain_rows::count_view(g, hops, width)).contains(v) <==> v == 0 || bound_by(
            h.hops,
            v,
        ),
{
    let p = chain_rows::count_view(g, hops, width);
    lemma_read_ordered(g, h, hops, width, ps);
    order_law::lemma_ends(p, 0);
    assert(h.hops.len() == hops.len());
    let vs = vars_of(p);
    let ends = ends_from(p, 0);
    if vs.contains(v) {
        let i = choose|i: int| 0 <= i < vs.len() && vs[i] == v;
        if i > 0 {
            assert(ends[i - 1] == v);
            assert(ends.contains(v));
            let k = choose|k: int|
                0 <= k < p.hops.len() && (#[trigger] p.hops[k]).tgt is None && p.hops[k].end == Some(v);
            lemma_step(g, hops, width, k);
            assert(h.hops[k].tgt is None);
        }
    }
    if v == 0 {
        assert(vs[0] == 0);
    } else if bound_by(h.hops, v) {
        let k = choose|k: int|
            0 <= k < h.hops.len() && (#[trigger] h.hops[k]).tgt is None && h.hops[k].end_vi == Some(v);
        lemma_step(g, hops, width, k);
        assert(p.hops[k].tgt is None && p.hops[k].end == Some(v));
        assert(ends.contains(v));
        let i = choose|i: int| 0 <= i < ends.len() && ends[i] == v;
        assert(vs[i + 1] == v);
    }
}

/// The variable of a node is bound.
pub proof fn lemma_at_bound(h: HopsV, ps: Seq<PathV>, j: int, t: int)
    requires
        read(h, ps),
        occurs(ps, j, t),
    ensures
        at_of(h.hops, ps, j, t) == 0 || bound_by(h.hops, at_of(h.hops, ps, j, t)),
{
    lemma_at(h, ps, j, t);
    let v = at_of(h.hops, ps, j, t);
    match node_at(ps[j], t).var {
        Some(x) => {
            assert(!rel_named(ps, x));
            assert(h.vars[v] == x);
        },
        None => {
            if t > 0 {
                assert(h.hops[offset(ps, j) + t - 1].tgt is None);
            }
        },
    }
}

/// The hop whose step binds a variable.
pub proof fn lemma_bound_hop(h: HopsV, ps: Seq<PathV>, v: int) -> (r: (int, int))
    requires
        read(h, ps),
        bound_by(h.hops, v),
    ensures
        0 <= r.0 < ps.len(),
        0 <= r.1 < ps[r.0].hops.len(),
        offset(ps, r.0) + r.1 < h.hops.len(),
        h.hops[offset(ps, r.0) + r.1].tgt is None,
        h.hops[offset(ps, r.0) + r.1].end_vi == Some(v),
{
    let k = choose|k: int|
        0 <= k < h.hops.len() && (#[trigger] h.hops[k]).tgt is None && h.hops[k].end_vi == Some(v);
    lemma_find(ps, ps.len() as int, k)
}

/// What a step binds is the variable of a node.
pub proof fn lemma_bound_at(h: HopsV, ps: Seq<PathV>, v: int) -> (r: (int, int))
    requires
        read(h, ps),
        bound_by(h.hops, v),
    ensures
        occurs(ps, r.0, r.1),
        at_of(h.hops, ps, r.0, r.1) == v,
{
    let (j, i) = lemma_bound_hop(h, ps, v);
    (j, i + 1)
}

/// Whether a node carries labels; without labels, every one does.
pub open spec fn carries(g: Graph, x: u64, ls: Seq<Seq<char>>) -> bool {
    graph::is_member(seeds::end_members(g, ls), x)
}

/// A variable asks for the labels that it was first written with.
pub proof fn lemma_asks_labels(
    g: Graph,
    h: HopsV,
    hops: Seq<Hop>,
    width: int,
    ps: Seq<PathV>,
    v: int,
    x: u64,
)
    requires
        read(h, ps),
        steps_of(hops, h),
        v == 0 || bound_by(h.hops, v),
    ensures
        0 <= v < h.vars.len(),
        asks(
            chain_rows::count_view(g, hops, width),
            |n: u64| carries(g, n, h.a_labels),
            v,
            x,
        ) == carries(g, x, h.labels[h.vars[v]]),
{
    reveal(hop_traced);
    let p = chain_rows::count_view(g, hops, width);
    let seed = |n: u64| carries(g, n, h.a_labels);
    let ls = h.labels[h.vars[v]];
    assert(h.hops.len() == hops.len());
    assert forall|k: int|
        0 <= k < p.hops.len() && (#[trigger] p.hops[k]).tgt is None && p.hops[k].end == Some(v) implies v
        > 0 && v < h.vars.len() && p.hops[k].members == seeds::end_members(g, ls) by {
        lemma_step(g, hops, width, k);
        assert(step_laid(h.hops, 1, k));
        layout::lemma_width(h.hops, 1, 0, k);
        layout::lemma_width(h.hops, 1, k, h.hops.len() as int);
        let (j, i) = lemma_find(ps, ps.len() as int, k);
        assert(hop_traced(h.vars, h.labels, h.hops, ps, j, i));
    }
    if v == 0 {
        assert(h.vars.len() >= 1) by {
            layout::lemma_width(h.hops, 1, 0, h.hops.len() as int);
        }
        assert(h.labels[h.vars[0]] == h.a_labels);
    } else {
        let k = choose|k: int|
            0 <= k < h.hops.len() && (#[trigger] h.hops[k]).tgt is None && h.hops[k].end_vi == Some(v);
        lemma_step(g, hops, width, k);
        assert(p.hops[k].tgt is None && p.hops[k].end == Some(v));
        if carries(g, x, ls) {
            assert(asks(p, seed, v, x));
        }
    }
}

} // verus!
