//! The orders in which the paths of a pattern can be walked.

use vstd::prelude::*;

use crate::aggregate;
use crate::aggregate::{aggregate_of, recognise_aggregate};
use crate::ast;
use crate::graph::{Dir, Graph};
use crate::hop;
use crate::hop::{Hop, StepHop};
use crate::levers;
use crate::levers::{count_only_reorder_enabled, order_peak_search_enabled, Levers};
use crate::multistage::{as_match, as_return, get_match, get_return};
use crate::names;
use crate::names::{copy_names, has_index, has_name, name_index};
use crate::query;
use crate::query::{hop_dir, Clause, ClauseV, NodePattern, NodeV, PathPattern, PathV, Pattern, PatternV, SingleQuery};
use crate::reorder::{count_only, count_star_only_return, path_nodes};
use crate::reroot::{node_at, query_opt, reverse_path, reversed};
use crate::seqs;
use crate::sizes::{label_set_count, set_count};

verus! {

/// Where a variable is bound, if it is.
pub open spec fn bound_at(bound: Seq<Seq<char>>, x: Option<Seq<char>>) -> Option<int> {
    match x {
        Some(x) => names::position(bound, x),
        None => None,
    }
}

/// The variable at the end of a path.
pub open spec fn end_var(p: PathV) -> Option<Seq<char>> {
    if p.hops.len() > 0 {
        p.hops.last().1.var
    } else {
        None
    }
}

/// A path turned so that it starts at a bound variable, the later bound one if
/// both of its ends are, and whether both are.
pub open spec fn attach(bound: Seq<Seq<char>>, p: PathV) -> Option<(PathV, bool)> {
    match (bound_at(bound, p.start.var), bound_at(bound, end_var(p))) {
        (Some(s), Some(e)) => Some(
            (
                if e > s {
                    reversed(p)
                } else {
                    p
                },
                true,
            ),
        ),
        (Some(_), None) => Some((p, false)),
        (None, Some(_)) => Some((reversed(p), false)),
        (None, None) => None,
    }
}

/// The bound variables once a node is.
pub open spec fn bind_node(bound: Seq<Seq<char>>, n: NodeV) -> Seq<Seq<char>> {
    match n.var {
        Some(x) => if bound.contains(x) {
            bound
        } else {
            bound.push(x)
        },
        None => bound,
    }
}

/// The bound variables once nodes are.
pub open spec fn bind_nodes(bound: Seq<Seq<char>>, ns: Seq<NodeV>) -> Seq<Seq<char>>
    decreases ns.len(),
{
    if ns.len() == 0 {
        bound
    } else {
        bind_node(bind_nodes(bound, ns.drop_last()), ns.last())
    }
}

/// Whether a node is a bound variable.
pub open spec fn is_bound(bound: Seq<Seq<char>>, n: NodeV) -> bool {
    n.var matches Some(x) && bound.contains(x)
}

/// Whether no inner node of a path is bound.
pub open spec fn interior_free(bound: Seq<Seq<char>>, p: PathV) -> bool {
    forall|i: int| 0 <= i < p.hops.len() - 1 ==> !is_bound(bound, (#[trigger] p.hops[i]).1)
}

/// The bound variables and the turned paths once one more path is walked.
pub open spec fn lay_one(st: (Seq<Seq<char>>, Seq<PathV>), p: PathV) -> Option<
    (Seq<Seq<char>>, Seq<PathV>),
> {
    match attach(st.0, p) {
        Some((o, _)) => if interior_free(st.0, o) {
            Some((bind_nodes(st.0, path_nodes(o)), st.1.push(o)))
        } else {
            None
        },
        None => None,
    }
}

/// The bound variables and the turned paths once paths are walked in an order.
pub open spec fn lay_out(kept: Seq<PathV>, seed: Seq<char>, order: Seq<usize>) -> Option<
    (Seq<Seq<char>>, Seq<PathV>),
>
    decreases order.len(),
{
    if order.len() == 0 {
        Some((seq![seed], Seq::empty()))
    } else {
        match lay_out(kept, seed, order.drop_last()) {
            Some(st) => lay_one(st, kept[order.last() as int]),
            None => None,
        }
    }
}

/// The turned paths of every order that begins as given and keeps each path
/// attached, in the order of the paths' numbers.
pub open spec fn orderings(kept: Seq<PathV>, seed: Seq<char>, order: Seq<usize>) -> Seq<Seq<PathV>>
    decreases kept.len() - order.len(), kept.len() + 1,
{
    if order.len() >= kept.len() {
        match lay_out(kept, seed, order) {
            Some((_, ps)) => seq![ps],
            None => Seq::empty(),
        }
    } else {
        orderings_below(kept, seed, order, kept.len())
    }
}

/// [`orderings`] that go on with one of the first `n` paths.
pub open spec fn orderings_below(
    kept: Seq<PathV>,
    seed: Seq<char>,
    order: Seq<usize>,
    n: nat,
) -> Seq<Seq<PathV>>
    decreases kept.len() - order.len(), n,
{
    if n == 0 || order.len() >= kept.len() {
        Seq::empty()
    } else {
        let before = orderings_below(kept, seed, order, (n - 1) as nat);
        if order.contains((n - 1) as usize) {
            before
        } else {
            before + orderings(kept, seed, order.push((n - 1) as usize))
        }
    }
}

fn find_bound(bound: &Vec<String>, x: &Option<String>) -> (r: Option<usize>)
    ensures
        hop::opt_index(r) == bound_at(names::of(bound@), ast::opt_str(*x)),
{
    match x {
        Some(x) => name_index(bound, x),
        None => None,
    }
}

fn end_name(p: &PathPattern) -> (r: Option<String>)
    ensures
        ast::opt_str(r) == end_var(p.v()),
{
    if p.hops.len() == 0 {
        return None;
    }
    let k: usize = p.hops.len() - 1;
    assert(p.v().hops[k as int] == (p.hops@[k as int].0.v(), p.hops@[k as int].1.v()));
    ast::copy_opt_name(&p.hops[k].1.var)
}

/// A path turned so that it starts at a bound variable, and whether both of
/// its ends are bound.
pub fn orient(bound: &Vec<String>, p: &PathPattern) -> (r: Option<(PathPattern, bool)>)
    ensures
        match r {
            Some((o, both)) => attach(names::of(bound@), p.v()) == Some((o.v(), both)),
            None => attach(names::of(bound@), p.v()) is None,
        },
{
    let end = end_name(p);
    match (find_bound(bound, &p.start.var), find_bound(bound, &end)) {
        (Some(s), Some(e)) => {
            if e > s {
                Some((reverse_path(p), true))
            } else {
                Some((p.copy(), true))
            }
        },
        (Some(_), None) => Some((p.copy(), false)),
        (None, Some(_)) => Some((reverse_path(p), false)),
        (None, None) => None,
    }
}

fn bind_one(bound: &mut Vec<String>, n: &NodePattern)
    ensures
        names::of(final(bound)@) == bind_node(names::of(old(bound)@), n.v()),
{
    match &n.var {
        Some(x) => {
            if !has_name(bound, x) {
                let ghost b0 = names::of(bound@);
                bound.push(x.clone());
                assert(names::of(bound@) =~= b0.push(x@));
            }
        },
        None => {},
    }
}

/// Binds the nodes of a path.
pub fn bind_path(bound: &mut Vec<String>, p: &PathPattern)
    ensures
        names::of(final(bound)@) == bind_nodes(names::of(old(bound)@), path_nodes(p.v())),
{
    let ghost b0 = names::of(bound@);
    let ghost ns = path_nodes(p.v());
    proof {
        assert(ns.take(1).drop_last() =~= Seq::empty());
        assert(ns.take(1).last() == p.start.v());
        assert(bind_nodes(b0, ns.take(1).drop_last()) == b0);
    }
    bind_one(bound, &p.start);
    assert(names::of(bound@) == bind_nodes(b0, ns.take(1)));
    let mut i: usize = 0;
    while i < p.hops.len()
        invariant
            i <= p.hops@.len(),
            ns == path_nodes(p.v()),
            names::of(bound@) == bind_nodes(b0, ns.take(i + 1)),
        decreases p.hops.len() - i,
    {
        proof {
            assert(p.v().hops[i as int] == (p.hops@[i as int].0.v(), p.hops@[i as int].1.v()));
            seqs::lemma_take_last(ns, i + 1);
            assert(ns[i + 1] == p.hops@[i as int].1.v());
        }
        bind_one(bound, &p.hops[i].1);
        i = i + 1;
    }
    assert(ns.take(i + 1) =~= ns);
}

fn node_bound(bound: &Vec<String>, n: &NodePattern) -> (b: bool)
    ensures
        b == is_bound(names::of(bound@), n.v()),
{
    match &n.var {
        Some(x) => has_name(bound, x),
        None => false,
    }
}

fn inner_free(bound: &Vec<String>, p: &PathPattern) -> (b: bool)
    ensures
        b == interior_free(names::of(bound@), p.v()),
{
    if p.hops.len() == 0 {
        return true;
    }
    let n: usize = p.hops.len() - 1;
    let mut i: usize = 0;
    while i < n
        invariant
            i <= n,
            n == p.hops@.len() - 1,
            forall|j: int|
                0 <= j < i ==> !is_bound(names::of(bound@), (#[trigger] p.v().hops[j]).1),
        decreases n - i,
    {
        assert(p.v().hops[i as int] == (p.hops@[i as int].0.v(), p.hops@[i as int].1.v()));
        if node_bound(bound, &p.hops[i].1) {
            return false;
        }
        i = i + 1;
    }
    true
}

fn seed_bound(seed: &String) -> (r: Vec<String>)
    ensures
        names::of(r@) == seq![seed@],
{
    let mut r: Vec<String> = Vec::new();
    r.push(seed.clone());
    assert(names::of(r@) =~= seq![seed@]);
    r
}

proof fn lemma_lay_none(kept: Seq<PathV>, seed: Seq<char>, order: Seq<usize>, n: int)
    requires
        0 <= n <= order.len(),
        lay_out(kept, seed, order.take(n)) is None,
    ensures
        lay_out(kept, seed, order) is None,
    decreases order.len() - n,
{
    if n == order.len() {
        assert(order.take(n) =~= order);
    } else {
        seqs::lemma_take_last(order, n);
        lemma_lay_none(kept, seed, order, n + 1);
    }
}

fn lay(kept: &Vec<PathPattern>, seed: &String, order: &Vec<usize>) -> (r: Option<Vec<PathPattern>>)
    requires
        forall|i: int| 0 <= i < order@.len() ==> #[trigger] order@[i] < kept@.len(),
    ensures
        match r {
            Some(ps) => lay_out(query::paths_v(kept@), seed@, order@) matches Some((_, out)) && out
                == query::paths_v(ps@),
            None => lay_out(query::paths_v(kept@), seed@, order@) is None,
        },
{
    let ghost kv = query::paths_v(kept@);
    let mut bound = seed_bound(seed);
    let mut out: Vec<PathPattern> = Vec::new();
    let mut i: usize = 0;
    proof {
        assert(order@.take(0) =~= Seq::empty());
        assert(query::paths_v(out@) =~= Seq::empty());
    }
    while i < order.len()
        invariant
            i <= order@.len(),
            kv == query::paths_v(kept@),
            forall|i: int| 0 <= i < order@.len() ==> #[trigger] order@[i] < kept@.len(),
            lay_out(kv, seed@, order@.take(i as int)) == Some(
                (names::of(bound@), query::paths_v(out@)),
            ),
        decreases order.len() - i,
    {
        proof {
            seqs::lemma_take_last(order@, i as int);
            assert(order@[i as int] < kept@.len());
            assert(kv[order@[i as int] as int] == kept@[order@[i as int] as int].v());
        }
        let ghost out0 = out@;
        let o = match orient(&bound, &kept[order[i]]) {
            Some((o, _)) => o,
            None => {
                proof {
                    lemma_lay_none(kv, seed@, order@, i + 1);
                }
                return None;
            },
        };
        if !inner_free(&bound, &o) {
            proof {
                lemma_lay_none(kv, seed@, order@, i + 1);
            }
            return None;
        }
        bind_path(&mut bound, &o);
        out.push(o);
        assert(query::paths_v(out@) =~= query::paths_v(out0).push(o.v()));
        i = i + 1;
    }
    assert(order@.take(i as int) =~= order@);
    Some(out)
}

/// Paths in several orders.
pub open spec fn layouts_v(s: Seq<Vec<PathPattern>>) -> Seq<Seq<PathV>> {
    s.map_values(|x: Vec<PathPattern>| query::paths_v(x@))
}

fn search_step(
    kept: &Vec<PathPattern>,
    seed: &String,
    order: &mut Vec<usize>,
    out: &mut Vec<Vec<PathPattern>>,
)
    requires
        old(order)@.len() <= kept@.len(),
        forall|i: int| 0 <= i < old(order)@.len() ==> #[trigger] old(order)@[i] < kept@.len(),
    ensures
        final(order)@ == old(order)@,
        layouts_v(final(out)@) == layouts_v(old(out)@) + orderings(
            query::paths_v(kept@),
            seed@,
            old(order)@,
        ),
    decreases kept@.len() - old(order)@.len(),
{
    let ghost kv = query::paths_v(kept@);
    let ghost o0 = order@;
    let ghost out0 = layouts_v(out@);
    if order.len() == kept.len() {
        match lay(kept, seed, order) {
            Some(ps) => {
                out.push(ps);
                assert(layouts_v(out@) =~= out0 + seq![query::paths_v(ps@)]);
            },
            None => {
                assert(out0 + Seq::empty() =~= out0);
            },
        }
        return;
    }
    let mut i: usize = 0;
    assert(out0 + Seq::empty() =~= out0);
    while i < kept.len()
        invariant
            i <= kept@.len(),
            kv == query::paths_v(kept@),
            o0 == old(order)@,
            order@ == o0,
            o0.len() < kept@.len(),
            forall|i: int| 0 <= i < o0.len() ==> #[trigger] o0[i] < kept@.len(),
            layouts_v(out@) == out0 + orderings_below(kv, seed@, o0, i as nat),
        decreases kept.len() - i,
    {
        let ghost before = orderings_below(kv, seed@, o0, i as nat);
        if !has_index(order, i) {
            order.push(i);
            proof {
                assert forall|k: int| 0 <= k < order@.len() implies #[trigger] order@[k]
                    < kept@.len() by {
                    if k < o0.len() {
                        assert(o0[k] < kept@.len());
                    }
                }
            }
            search_step(kept, seed, order, out);
            order.pop();
            proof {
                assert(order@ =~= o0);
                let more = orderings(kv, seed@, o0.push(i));
                assert((out0 + before) + more =~= out0 + (before + more));
            }
        }
        i = i + 1;
    }
}

/// The turned paths of every order that keeps each path attached to what is
/// bound before it and closes onto a bound variable only at its end.
pub fn search_ordering(kept: &Vec<PathPattern>, seed: &String) -> (r: Vec<Vec<PathPattern>>)
    ensures
        layouts_v(r@) == orderings(query::paths_v(kept@), seed@, Seq::empty()),
{
    let mut order: Vec<usize> = Vec::new();
    let mut out: Vec<Vec<PathPattern>> = Vec::new();
    proof {
        assert(order@ =~= Seq::empty());
    }
    search_step(kept, seed, &mut order, &mut out);
    assert(layouts_v(out@) =~= orderings(query::paths_v(kept@), seed@, Seq::empty()));
    out
}

/// One hop of an ordering, as far as its cost goes.
#[derive(Debug)]
pub struct CostStep {
    /// The labels of the node that the hop leaves.
    pub from: Vec<String>,
    pub dir: Dir,
    pub types: Vec<String>,
    /// The labels of the node that it reaches.
    pub to: Vec<String>,
    /// How many nodes those labels admit, at least one, if the node is bound.
    pub space: Option<u64>,
}

/// A [`CostStep`].
pub struct CostV {
    pub from: Seq<Seq<char>>,
    pub dir: Dir,
    pub types: Seq<Seq<char>>,
    pub to: Seq<Seq<char>>,
    pub space: Option<u64>,
}

impl CostStep {
    pub open spec fn v(self) -> CostV {
        CostV {
            from: names::of(self.from@),
            dir: self.dir,
            types: names::of(self.types@),
            to: names::of(self.to@),
            space: self.space,
        }
    }
}

/// The hops of an ordering.
pub open spec fn costs_v(s: Seq<CostStep>) -> Seq<CostV> {
    s.map_values(|c: CostStep| c.v())
}

/// How many nodes labels admit, at least one.
pub open spec fn space_of(g: Graph, labels: Seq<Seq<char>>) -> u64 {
    if set_count(g, labels) == 0 {
        1
    } else {
        set_count(g, labels)
    }
}

/// The cost of a path's hop once variables are bound.
pub open spec fn hop_cost(g: Graph, bound: Seq<Seq<char>>, p: PathV, i: int) -> CostV {
    CostV {
        from: node_at(p, i).labels,
        dir: query::dir_of(p.hops[i].0.dir),
        types: p.hops[i].0.types,
        to: p.hops[i].1.labels,
        space: if is_bound(bound, p.hops[i].1) {
            Some(space_of(g, p.hops[i].1.labels))
        } else {
            None
        },
    }
}

/// The costs of an ordering's hops, and what it binds.
pub open spec fn cost_steps(g: Graph, seed: Seq<char>, ps: Seq<PathV>) -> (
    Seq<CostV>,
    Seq<Seq<char>>,
)
    decreases ps.len(),
{
    if ps.len() == 0 {
        (Seq::empty(), seq![seed])
    } else {
        let (steps, bound) = cost_steps(g, seed, ps.drop_last());
        let p = ps.last();
        (
            steps + Seq::new(p.hops.len(), |i: int| hop_cost(g, bound, p, i)),
            bind_nodes(bound, path_nodes(p)),
        )
    }
}

fn path_costs(g: &Graph, bound: &Vec<String>, p: &PathPattern, out: &mut Vec<CostStep>)
    requires
        g.wf(),
    ensures
        costs_v(final(out)@) == costs_v(old(out)@) + Seq::new(
            p.v().hops.len(),
            |i: int| hop_cost(*g, names::of(bound@), p.v(), i),
        ),
{
    let ghost pv = p.v();
    let ghost bv = names::of(bound@);
    let ghost out0 = costs_v(out@);
    let ghost all = Seq::new(pv.hops.len(), |i: int| hop_cost(*g, bv, pv, i));
    let mut i: usize = 0;
    assert(out0 + all.take(0) =~= out0);
    while i < p.hops.len()
        invariant
            g.wf(),
            i <= p.hops@.len(),
            pv == p.v(),
            bv == names::of(bound@),
            all == Seq::new(pv.hops.len(), |i: int| hop_cost(*g, bv, pv, i)),
            costs_v(out@) == out0 + all.take(i as int),
        decreases p.hops.len() - i,
    {
        let ghost before = out@;
        proof {
            assert(pv.hops[i as int] == (p.hops@[i as int].0.v(), p.hops@[i as int].1.v()));
            if i > 0 {
                assert(pv.hops[i - 1] == (p.hops@[i - 1].0.v(), p.hops@[i - 1].1.v()));
            }
            seqs::lemma_take_last(all, i as int);
        }
        let from = if i == 0 {
            copy_names(&p.start.labels)
        } else {
            copy_names(&p.hops[i - 1].1.labels)
        };
        let node = &p.hops[i].1;
        let space = if node_bound(bound, node) {
            let n = label_set_count(g, &node.labels);
            if n == 0 {
                Some(1)
            } else {
                Some(n)
            }
        } else {
            None
        };
        let c = CostStep {
            from,
            dir: hop_dir(p.hops[i].0.dir),
            types: copy_names(&p.hops[i].0.types),
            to: copy_names(&node.labels),
            space,
        };
        assert(c.v() == hop_cost(*g, bv, pv, i as int));
        out.push(c);
        proof {
            assert(costs_v(out@) =~= costs_v(before).push(c.v()));
            assert((out0 + all.take(i as int)).push(c.v()) =~= out0 + all.take(i + 1));
        }
        i = i + 1;
    }
    assert(all.take(i as int) =~= all);
}

/// What the cost of an ordering is made of, hop by hop. A hop onto a bound
/// variable is a semijoin: its cost is divided by the nodes it could reach.
pub fn score_ordering(g: &Graph, seed: &String, ps: &Vec<PathPattern>) -> (r: Vec<CostStep>)
    requires
        g.wf(),
    ensures
        costs_v(r@) == cost_steps(*g, seed@, query::paths_v(ps@)).0,
{
    let ghost pv = query::paths_v(ps@);
    let mut bound = seed_bound(seed);
    let mut r: Vec<CostStep> = Vec::new();
    let mut i: usize = 0;
    proof {
        assert(pv.take(0) =~= Seq::empty());
        assert(costs_v(r@) =~= Seq::empty());
    }
    while i < ps.len()
        invariant
            g.wf(),
            i <= ps@.len(),
            pv == query::paths_v(ps@),
            cost_steps(*g, seed@, pv.take(i as int)) == (costs_v(r@), names::of(bound@)),
        decreases ps.len() - i,
    {
        proof {
            seqs::lemma_take_last(pv, i as int);
            assert(pv[i as int] == ps@[i as int].v());
        }
        path_costs(g, &bound, &ps[i], &mut r);
        bind_path(&mut bound, &ps[i]);
        i = i + 1;
    }
    assert(pv.take(i as int) =~= pv);
    r
}

/// Whether one pair of costs is less than another.
pub open spec fn less(a: (u64, u64), b: (u64, u64)) -> bool {
    a.0 < b.0 || (a.0 == b.0 && a.1 < b.1)
}

/// The first of the least pairs of costs.
pub open spec fn is_least(keys: Seq<(u64, u64)>, i: int) -> bool {
    &&& 0 <= i < keys.len()
    &&& forall|j: int| 0 <= j < keys.len() ==> !less(#[trigger] keys[j], keys[i])
    &&& forall|j: int| 0 <= j < i ==> less(keys[i], #[trigger] keys[j])
}

/// The first of the least pairs of costs. A later ordering displaces an earlier
/// one only by a smaller cost.
pub fn first_least(keys: &Vec<(u64, u64)>) -> (r: Option<usize>)
    ensures
        match r {
            Some(i) => is_least(keys@, i as int),
            None => keys@.len() == 0,
        },
{
    if keys.len() == 0 {
        return None;
    }
    let mut best: usize = 0;
    let mut i: usize = 1;
    while i < keys.len()
        invariant
            best < i <= keys@.len(),
            forall|j: int| 0 <= j < i ==> !less(#[trigger] keys@[j], keys@[best as int]),
            forall|j: int| 0 <= j < best ==> less(keys@[best as int], #[trigger] keys@[j]),
        decreases keys.len() - i,
    {
        let a = keys[i];
        let b = keys[best];
        if a.0 < b.0 || (a.0 == b.0 && a.1 < b.1) {
            best = i;
        }
        i = i + 1;
    }
    Some(best)
}

/// A path that can be walked next.
#[derive(Debug)]
pub struct Choice {
    pub index: usize,
    /// Whether both of its ends are bound.
    pub both: bool,
    pub path: PathPattern,
}

/// A [`Choice`].
pub struct ChoiceV {
    pub index: int,
    pub both: bool,
    pub path: PathV,
}

impl Choice {
    pub open spec fn v(self) -> ChoiceV {
        ChoiceV { index: self.index as int, both: self.both, path: self.path.v() }
    }
}

/// Paths that can be walked next.
pub open spec fn choices_v(s: Seq<Choice>) -> Seq<ChoiceV> {
    s.map_values(|c: Choice| c.v())
}

/// The paths among the first `n` that can be walked next.
pub open spec fn choices(
    kept: Seq<PathV>,
    taken: Seq<bool>,
    bound: Seq<Seq<char>>,
    n: nat,
) -> Seq<ChoiceV>
    decreases n,
{
    if n == 0 {
        Seq::empty()
    } else {
        let before = choices(kept, taken, bound, (n - 1) as nat);
        match attach(bound, kept[n - 1]) {
            Some((path, both)) => if taken[n - 1] {
                before
            } else {
                before.push(ChoiceV { index: n - 1, both, path })
            },
            None => before,
        }
    }
}

/// The paths that can be walked next, each turned so that it starts at a bound
/// variable.
pub fn greedy_choices(kept: &Vec<PathPattern>, taken: &Vec<bool>, bound: &Vec<String>) -> (r: Vec<
    Choice,
>)
    requires
        taken@.len() == kept@.len(),
    ensures
        choices_v(r@) == choices(
            query::paths_v(kept@),
            taken@,
            names::of(bound@),
            kept@.len(),
        ),
{
    let ghost kv = query::paths_v(kept@);
    let mut r: Vec<Choice> = Vec::new();
    let mut i: usize = 0;
    assert(choices_v(r@) =~= Seq::empty());
    while i < kept.len()
        invariant
            i <= kept@.len(),
            taken@.len() == kept@.len(),
            kv == query::paths_v(kept@),
            choices_v(r@) == choices(kv, taken@, names::of(bound@), i as nat),
        decreases kept.len() - i,
    {
        assert(kv[i as int] == kept@[i as int].v());
        let ghost r0 = r@;
        if !taken[i] {
            match orient(bound, &kept[i]) {
                Some((path, both)) => {
                    let c = Choice { index: i, both, path };
                    r.push(c);
                    assert(choices_v(r@) =~= choices_v(r0).push(c.v()));
                },
                None => {},
            }
        }
        i = i + 1;
    }
    r
}

/// How a choice ranks, given its cost: one with both ends bound first.
pub open spec fn rank(c: ChoiceV, cost: u64) -> (u64, u64) {
    (
        if c.both {
            0
        } else {
            1
        },
        cost,
    )
}

/// The path to be walked next: the cheapest, the first of equals, and before
/// any other one with both ends bound.
pub fn greedy_pick(cs: &Vec<Choice>, costs: &Vec<u64>) -> (r: Option<usize>)
    requires
        costs@.len() == cs@.len(),
    ensures
        match r {
            Some(i) => is_least(
                Seq::new(cs@.len(), |k: int| rank(cs@[k].v(), costs@[k])),
                i as int,
            ),
            None => cs@.len() == 0,
        },
{
    let mut keys: Vec<(u64, u64)> = Vec::new();
    let mut i: usize = 0;
    while i < cs.len()
        invariant
            i <= cs@.len(),
            costs@.len() == cs@.len(),
            keys@.len() == i,
            forall|k: int| 0 <= k < i ==> #[trigger] keys@[k] == rank(cs@[k].v(), costs@[k]),
        decreases cs.len() - i,
    {
        let tier: u64 = if cs[i].both {
            0
        } else {
            1
        };
        keys.push((tier, costs[i]));
        i = i + 1;
    }
    assert(keys@ =~= Seq::new(cs@.len(), |k: int| rank(cs@[k].v(), costs@[k])));
    first_least(&keys)
}

/// How many paths an ordering is searched for at most.
pub const ORDER_SEARCH_MAX_PATHS: usize = 6;

/// Whether every ordering of some paths is looked at.
pub fn searches_all(levers: &Levers, paths: usize) -> (b: bool)
    ensures
        b == (levers::order_peak_search_on(*levers) && paths <= ORDER_SEARCH_MAX_PATHS),
{
    order_peak_search_enabled(levers) && paths <= ORDER_SEARCH_MAX_PATHS
}

/// A walk that takes one path after another.
#[derive(Debug)]
pub struct Greedy {
    pub kept: Vec<PathPattern>,
    pub bound: Vec<String>,
    pub taken: Vec<bool>,
    pub out: Vec<PathPattern>,
}

/// A [`Greedy`].
pub struct GreedyV {
    pub kept: Seq<PathV>,
    pub bound: Seq<Seq<char>>,
    pub taken: Seq<bool>,
    pub out: Seq<PathV>,
}

impl Greedy {
    pub open spec fn v(self) -> GreedyV {
        GreedyV {
            kept: query::paths_v(self.kept@),
            bound: names::of(self.bound@),
            taken: self.taken@,
            out: query::paths_v(self.out@),
        }
    }

    /// Each path is taken or not.
    pub open spec fn wf(self) -> bool {
        self.taken@.len() == self.kept@.len()
    }

    /// A walk from a variable that has taken no path.
    pub fn new(kept: Vec<PathPattern>, seed: &String) -> (r: Greedy)
        ensures
            r.wf(),
            r.v() == (GreedyV {
                kept: query::paths_v(kept@),
                bound: seq![seed@],
                taken: Seq::new(kept@.len(), |i: int| false),
                out: Seq::empty(),
            }),
    {
        let mut taken: Vec<bool> = Vec::new();
        while taken.len() < kept.len()
            invariant
                taken@.len() <= kept@.len(),
                forall|i: int| 0 <= i < taken@.len() ==> !(#[trigger] taken@[i]),
            decreases kept.len() - taken.len(),
        {
            taken.push(false);
        }
        assert(taken@ =~= Seq::new(kept@.len(), |i: int| false));
        let out: Vec<PathPattern> = Vec::new();
        assert(query::paths_v(out@) =~= Seq::empty());
        Greedy { kept, bound: seed_bound(seed), taken, out }
    }

    /// The paths that can be taken next.
    pub fn choices(&self) -> (r: Vec<Choice>)
        requires
            self.wf(),
        ensures
            choices_v(r@) == choices(
                self.v().kept,
                self.v().taken,
                self.v().bound,
                self.v().kept.len(),
            ),
    {
        greedy_choices(&self.kept, &self.taken, &self.bound)
    }

    /// Takes a path.
    pub fn take(&mut self, c: Choice)
        requires
            old(self).wf(),
            c.index < old(self).kept@.len(),
        ensures
            final(self).wf(),
            final(self).v() == (GreedyV {
                kept: old(self).v().kept,
                bound: bind_nodes(old(self).v().bound, path_nodes(c.v().path)),
                taken: old(self).v().taken.update(c.index as int, true),
                out: old(self).v().out.push(c.v().path),
            }),
    {
        let ghost out0 = self.out@;
        bind_path(&mut self.bound, &c.path);
        self.taken.set(c.index, true);
        self.out.push(c.path);
        assert(query::paths_v(self.out@) =~= query::paths_v(out0).push(c.path.v()));
    }
}

/// How many steps among the first `n` fold a variable.
pub open spec fn folded_vars(hops: Seq<StepHop>, n: nat) -> nat
    decreases n,
{
    if n == 0 {
        0
    } else {
        folded_vars(hops, (n - 1) as nat) + if hops[n - 1].fold && hops[n - 1].end_vi is Some {
            1nat
        } else {
            0nat
        }
    }
}

/// How many variables of a counted query are materialised, if it is planned.
pub open spec fn materialised(q: Seq<ClauseV>, on: bool) -> Option<int> {
    match aggregate_of(q, on) {
        Some(p) => Some(p.chain.vars.len() - folded_vars(p.chain.hops, p.chain.hops.len())),
        None => None,
    }
}

fn count_folded(hops: &Vec<Hop>) -> (r: usize)
    ensures
        r == folded_vars(hop::steps_v(hops@), hops@.len()),
{
    let ghost hs = hop::steps_v(hops@);
    let mut n: usize = 0;
    let mut i: usize = 0;
    while i < hops.len()
        invariant
            i <= hops@.len(),
            hs == hop::steps_v(hops@),
            n == folded_vars(hs, i as nat),
            n <= i,
        decreases hops.len() - i,
    {
        assert(hs[i as int] == hops@[i as int].v());
        if hops[i].fold && hops[i].end_vi.is_some() {
            n = n + 1;
        }
        i = i + 1;
    }
    n
}

proof fn lemma_folded_below(hops: Seq<StepHop>, n: nat, m: nat)
    requires
        n <= hops.len(),
        aggregate::ascending_ends(hops),
        forall|i: int|
            0 <= i < n ==> ((#[trigger] hops[i]).end_vi matches Some(e) ==> 0 <= e < m),
    ensures
        folded_vars(hops, n) <= m,
    decreases n,
{
    if n > 0 {
        let h = hops[n - 1];
        if h.fold && h.end_vi is Some {
            let e = h.end_vi->0;
            assert forall|i: int| 0 <= i < n - 1 implies ((#[trigger] hops[i]).end_vi matches Some(
                x,
            ) ==> 0 <= x < e) by {
                if hops[i].end_vi is Some {
                    assert(hops[i].end_vi->0 < hops[n - 1].end_vi->0);
                }
            }
            lemma_folded_below(hops, (n - 1) as nat, e as nat);
        } else {
            lemma_folded_below(hops, (n - 1) as nat, m);
        }
    }
}

proof fn lemma_planned_ends(q: Seq<ClauseV>, on: bool)
    requires
        q.len() > 0,
        q[0] matches ClauseV::Match { pattern, .. } ==> aggregate::pattern_fits(pattern),
    ensures
        aggregate_of(q, on) matches Some(p) ==> folded_vars(p.chain.hops, p.chain.hops.len())
            <= p.chain.vars.len(),
{
    match aggregate_of(q, on) {
        Some(p) => {
            aggregate::lemma_planned_steps(q, on);
            lemma_folded_below(p.chain.hops, p.chain.hops.len(), p.chain.vars.len());
        },
        None => {},
    }
}

/// How many variables of a counted query are materialised, if it is planned.
pub fn materialised_var_count(q: &SingleQuery, levers: &Levers) -> (r: Option<usize>)
    ensures
        match r {
            Some(n) => materialised(q.v(), levers::count_fold_on(*levers)) == Some(n as int),
            None => materialised(q.v(), levers::count_fold_on(*levers)) is None,
        },
{
    match recognise_aggregate(q, levers) {
        None => None,
        Some(p) => {
            let n: usize = p.chain.vars.len();
            let f = count_folded(&p.chain.hops);
            proof {
                assert(q.v()[0] == q.clauses@[0].v());
                match q.clauses@[0] {
                    Clause::Match { optional, pattern, where_ } => {
                        aggregate::lemma_pattern_fits(pattern);
                    },
                    _ => {},
                }
                lemma_planned_ends(q.v(), levers::count_fold_on(*levers));
            }
            Some(n - f)
        },
    }
}

/// The query with its paths reordered, if that differs from it and materialises
/// fewer variables.
pub open spec fn reordered_query(q: Seq<ClauseV>, p: PatternV, fold_on: bool) -> Option<
    Seq<ClauseV>,
> {
    if q.len() != 2 {
        None
    } else {
        match (as_match(q[0]), as_return(q[1])) {
            (Some((pattern, where_)), Some(proj)) => {
                let out = seq![
                    ClauseV::Match { optional: false, pattern: p, where_ },
                    ClauseV::Return { proj },
                ];
                if !count_only(proj) || p == pattern {
                    None
                } else {
                    match materialised(out, fold_on) {
                        None => None,
                        Some(after) => match materialised(q, fold_on) {
                            Some(before) => if after >= before {
                                None
                            } else {
                                Some(out)
                            },
                            None => Some(out),
                        },
                    }
                }
            },
            _ => None,
        }
    }
}

/// The match of a query whose paths may be reordered: one match, and a return
/// that only counts.
pub open spec fn counted_match(q: Seq<ClauseV>, on: bool) -> Option<PatternV> {
    if !on || q.len() != 2 {
        None
    } else {
        match (as_match(q[0]), as_return(q[1])) {
            (Some((pattern, _)), Some(proj)) => if count_only(proj) {
                Some(pattern)
            } else {
                None
            },
            _ => None,
        }
    }
}

/// The match of a query whose paths may be reordered.
pub fn reorder_candidate<'a>(q: &'a SingleQuery, levers: &Levers) -> (r: Option<&'a Pattern>)
    ensures
        match r {
            Some(p) => counted_match(q.v(), levers::count_only_reorder_on(*levers)) == Some(p.v()),
            None => counted_match(q.v(), levers::count_only_reorder_on(*levers)) is None,
        },
{
    if !count_only_reorder_enabled(levers) || q.clauses.len() != 2 {
        return None;
    }
    assert(q.v()[0] == q.clauses@[0].v());
    assert(q.v()[1] == q.clauses@[1].v());
    match (get_match(&q.clauses[0]), get_return(&q.clauses[1])) {
        (Some((pattern, _)), Some(proj)) => {
            if count_star_only_return(proj) {
                Some(pattern)
            } else {
                None
            }
        },
        _ => None,
    }
}

/// Takes a reordered pattern where it differs from the written one and
/// materialises fewer variables.
pub fn accept_reorder(q: &SingleQuery, p: Pattern, levers: &Levers) -> (r: Option<SingleQuery>)
    ensures
        query_opt(r) == reordered_query(q.v(), p.v(), levers::count_fold_on(*levers)),
{
    if q.clauses.len() != 2 {
        return None;
    }
    assert(q.v()[0] == q.clauses@[0].v());
    assert(q.v()[1] == q.clauses@[1].v());
    match (get_match(&q.clauses[0]), get_return(&q.clauses[1])) {
        (Some((pattern, where_)), Some(proj)) => {
            if !count_star_only_return(proj) || p.same(pattern) {
                return None;
            }
            let mut clauses: Vec<Clause> = Vec::new();
            clauses.push(
                Clause::Match {
                    optional: false,
                    pattern: p,
                    where_: ast::copy_opt(ast::as_opt(where_)),
                },
            );
            clauses.push(Clause::Return { proj: proj.copy() });
            let out = SingleQuery { clauses };
            proof {
                assert(out.v() =~= seq![
                    ClauseV::Match {
                        optional: false,
                        pattern: p.v(),
                        where_: ast::opt_v(*where_),
                    },
                    ClauseV::Return { proj: proj.v() },
                ]);
            }
            match materialised_var_count(&out, levers) {
                None => None,
                Some(after) => match materialised_var_count(q, levers) {
                    Some(before) => {
                        if after >= before {
                            None
                        } else {
                            Some(out)
                        }
                    },
                    None => Some(out),
                },
            }
        },
        _ => None,
    }
}

/// A reordered pattern that is the written one is not taken, so a pass that
/// comes out the same ends.
pub proof fn law_same_order_is_declined(q: Seq<ClauseV>, fold_on: bool)
    requires
        q.len() == 2,
        as_match(q[0]) is Some,
    ensures
        reordered_query(q, (as_match(q[0])->0).0, fold_on) is None,
{
}

/// A query that was reordered can be planned, and materialises fewer variables
/// than the query that it was made of, if that could be planned at all.
pub proof fn law_reorder_shrinks(q: Seq<ClauseV>, p: PatternV, fold_on: bool)
    requires
        reordered_query(q, p, fold_on) is Some,
    ensures
        materialised(reordered_query(q, p, fold_on)->0, fold_on) is Some,
        materialised(q, fold_on) matches Some(before) ==> (materialised(
            reordered_query(q, p, fold_on)->0,
            fold_on,
        )->0) < before,
{
}

/// Whether an order names paths, each once, and turned paths are those paths in
/// that order, each as written or from its end.
pub open spec fn same_paths(kept: Seq<PathV>, order: Seq<usize>, ps: Seq<PathV>) -> bool {
    &&& order.len() == ps.len()
    &&& order.no_duplicates()
    &&& forall|i: int| 0 <= i < order.len() ==> (#[trigger] order[i]) < kept.len()
    &&& forall|i: int|
        0 <= i < order.len() ==> ps[i] == kept[#[trigger] order[i] as int] || ps[i] == reversed(
            kept[order[i] as int],
        )
}

proof fn lemma_lay_same(kept: Seq<PathV>, seed: Seq<char>, order: Seq<usize>)
    requires
        order.no_duplicates(),
        forall|i: int| 0 <= i < order.len() ==> (#[trigger] order[i]) < kept.len(),
    ensures
        lay_out(kept, seed, order) matches Some((_, ps)) ==> same_paths(kept, order, ps),
    decreases order.len(),
{
    if order.len() > 0 {
        let rest = order.drop_last();
        assert forall|i: int| 0 <= i < rest.len() implies (#[trigger] rest[i]) < kept.len() by {
            assert(order[i] < kept.len());
        }
        lemma_lay_same(kept, seed, rest);
        match lay_out(kept, seed, order) {
            Some((_, ps)) => {
                let before = (lay_out(kept, seed, rest)->0).1;
                assert forall|i: int| 0 <= i < order.len() implies ps[i]
                    == kept[#[trigger] order[i] as int] || ps[i] == reversed(kept[order[i] as int]) by {
                    if i < rest.len() {
                        assert(rest[i] == order[i]);
                        assert(ps[i] == before[i]);
                    }
                }
            },
            None => {},
        }
    }
}

proof fn lemma_orderings_same(kept: Seq<PathV>, seed: Seq<char>, order: Seq<usize>, k: int)
    requires
        kept.len() <= usize::MAX,
        order.len() <= kept.len(),
        order.no_duplicates(),
        forall|i: int| 0 <= i < order.len() ==> (#[trigger] order[i]) < kept.len(),
        0 <= k < orderings(kept, seed, order).len(),
    ensures
        exists|o: Seq<usize>| #[trigger]
            same_paths(kept, o, orderings(kept, seed, order)[k]) && o.len() == kept.len(),
    decreases kept.len() - order.len(), kept.len() + 1,
{
    if order.len() >= kept.len() {
        lemma_lay_same(kept, seed, order);
        assert(same_paths(kept, order, orderings(kept, seed, order)[k]));
    } else {
        lemma_below_same(kept, seed, order, kept.len(), k);
    }
}

proof fn lemma_below_same(kept: Seq<PathV>, seed: Seq<char>, order: Seq<usize>, n: nat, k: int)
    requires
        kept.len() <= usize::MAX,
        n <= kept.len(),
        order.len() < kept.len(),
        order.no_duplicates(),
        forall|i: int| 0 <= i < order.len() ==> (#[trigger] order[i]) < kept.len(),
        0 <= k < orderings_below(kept, seed, order, n).len(),
    ensures
        exists|o: Seq<usize>| #[trigger]
            same_paths(kept, o, orderings_below(kept, seed, order, n)[k]) && o.len() == kept.len(),
    decreases kept.len() - order.len(), n,
{
    let before = orderings_below(kept, seed, order, (n - 1) as nat);
    if k < before.len() {
        lemma_below_same(kept, seed, order, (n - 1) as nat, k);
        let o = choose|o: Seq<usize>| #[trigger]
            same_paths(kept, o, before[k]) && o.len() == kept.len();
        assert(same_paths(kept, o, orderings_below(kept, seed, order, n)[k]));
    } else {
        let next = order.push((n - 1) as usize);
        assert forall|i: int, j: int|
            0 <= i < next.len() && 0 <= j < next.len() && i != j implies next[i] != next[j] by {
            if i == order.len() {
                assert(order.contains(order[j]));
            } else if j == order.len() {
                assert(order.contains(order[i]));
            }
        }
        assert forall|i: int| 0 <= i < next.len() implies (#[trigger] next[i]) < kept.len() by {
            if i < order.len() {
                assert(order[i] < kept.len());
            }
        }
        lemma_orderings_same(kept, seed, next, k - before.len());
        let o = choose|o: Seq<usize>| #[trigger]
            same_paths(kept, o, orderings(kept, seed, next)[k - before.len()]) && o.len()
                == kept.len();
        assert(same_paths(kept, o, orderings_below(kept, seed, order, n)[k]));
    }
}

/// Reordering keeps the pattern: every ordering that is looked at holds each of
/// the paths once, as written or from its end.
pub proof fn law_orderings_keep_paths(kept: Seq<PathV>, seed: Seq<char>, k: int)
    requires
        kept.len() <= usize::MAX,
        0 <= k < orderings(kept, seed, Seq::empty()).len(),
    ensures
        exists|o: Seq<usize>| #[trigger]
            same_paths(kept, o, orderings(kept, seed, Seq::empty())[k]) && o.len() == kept.len(),
{
    lemma_orderings_same(kept, seed, Seq::empty(), k);
}

/// The paths that a walk has taken, in order.
pub open spec fn has_taken(st: GreedyV, order: Seq<usize>) -> bool {
    &&& st.taken.len() == st.kept.len() <= usize::MAX
    &&& same_paths(st.kept, order, st.out)
    &&& forall|i: usize|
        (i as int) < st.kept.len() ==> (#[trigger] order.contains(i) <==> st.taken[i as int])
}

proof fn lemma_choice(
    kept: Seq<PathV>,
    taken: Seq<bool>,
    bound: Seq<Seq<char>>,
    n: nat,
    k: int,
)
    requires
        n <= kept.len(),
        0 <= k < choices(kept, taken, bound, n).len(),
    ensures
        ({
            let c = choices(kept, taken, bound, n)[k];
            &&& 0 <= c.index < n
            &&& !taken[c.index]
            &&& attach(bound, kept[c.index]) == Some((c.path, c.both))
        }),
    decreases n,
{
    if n > 0 {
        let before = choices(kept, taken, bound, (n - 1) as nat);
        if k < before.len() {
            lemma_choice(kept, taken, bound, (n - 1) as nat, k);
        }
    }
}

/// A walk that takes one path after another keeps the pattern: it takes each
/// path once, as written or from its end.
pub proof fn law_greedy_keeps_paths(st: GreedyV, order: Seq<usize>, k: int)
    requires
        has_taken(st, order),
        0 <= k < choices(st.kept, st.taken, st.bound, st.kept.len()).len(),
    ensures
        ({
            let c = choices(st.kept, st.taken, st.bound, st.kept.len())[k];
            has_taken(
                GreedyV {
                    kept: st.kept,
                    bound: bind_nodes(st.bound, path_nodes(c.path)),
                    taken: st.taken.update(c.index, true),
                    out: st.out.push(c.path),
                },
                order.push(c.index as usize),
            )
        }),
{
    lemma_choice(st.kept, st.taken, st.bound, st.kept.len(), k);
    let c = choices(st.kept, st.taken, st.bound, st.kept.len())[k];
    let i = c.index as usize;
    let next = order.push(i);
    let out = st.out.push(c.path);
    assert(!order.contains(i));
    assert(next.no_duplicates()) by {
        assert forall|a: int, b: int|
            0 <= a < next.len() && 0 <= b < next.len() && a != b implies next[a] != next[b] by {
            if a == order.len() {
                assert(order.contains(order[b]));
            } else if b == order.len() {
                assert(order.contains(order[a]));
            }
        }
    }
    assert forall|a: int| 0 <= a < next.len() implies out[a] == st.kept[#[trigger] next[a] as int]
        || out[a] == reversed(st.kept[next[a] as int]) by {
        if a < order.len() {
            assert(next[a] == order[a]);
        }
    }
    assert forall|a: int| 0 <= a < next.len() implies (#[trigger] next[a]) < st.kept.len() by {
        if a < order.len() {
            assert(next[a] == order[a]);
        }
    }
    assert forall|j: usize| (j as int) < st.kept.len() implies (#[trigger] next.contains(j)
        <==> st.taken.update(c.index, true)[j as int]) by {
        seqs::lemma_push_contains(order, i, j);
        assert(order.contains(j) <==> st.taken[j as int]);
    }
}

/// A pattern whose paths are walked in the ordering of the least cost, the first
/// of equals; `keys` holds the peak and the total cost of each ordering.
pub fn reorder_pattern(kept: &Vec<PathPattern>, seed: &String, keys: &Vec<(u64, u64)>) -> (r: Option<
    Pattern,
>)
    ensures
        ({
            let all = orderings(query::paths_v(kept@), seed@, Seq::empty());
            match r {
                Some(p) => exists|i: int| #[trigger]
                    is_least(keys@, i) && keys@.len() == all.len() && p.v().paths == all[i],
                None => all.len() == 0 || keys@.len() != all.len(),
            }
        }),
{
    let mut all = search_ordering(kept, seed);
    let ghost found = all@;
    assert(layouts_v(found).len() == found.len());
    if keys.len() != all.len() {
        return None;
    }
    match first_least(keys) {
        Some(i) => {
            let paths = all.swap_remove(i);
            proof {
                assert(layouts_v(found)[i as int] == query::paths_v(found[i as int]@));
                assert(is_least(keys@, i as int));
            }
            Some(Pattern { paths })
        },
        None => None,
    }
}

} // verus!
