//! Reordering the paths of a pattern that is only counted.

use vstd::prelude::*;

use crate::ast;
use crate::ast::reads_some;
use crate::graph::Graph;
use crate::names;
use crate::names::has_name;
use crate::plan;
use crate::plan::{plan_agg_projection, plan_items, AggItem, AggItemV};
use crate::query;
use crate::query::{NodePattern, NodeV, PathPattern, PathV, Pattern, PatternV, ProjV, Projection, RelPattern, RelV};
use crate::readset;
use crate::readset::all_sites_count_star;
use crate::reroot::{label_bound, node_at, node_size};
use crate::seqs;
use crate::table::first_seen;

verus! {

/// Whether a return makes one row that depends on nothing but how many matches
/// there are.
pub open spec fn count_only(p: ProjV) -> bool {
    let (plans, sites) = plan_items(p.items);
    &&& !p.star && !p.distinct && p.items.len() > 0 && p.order.len() == 0 && p.skip is None
        && p.limit is None
    &&& readset::only_count_star(sites)
    &&& forall|i: int| 0 <= i < plans.len() ==> is_count(#[trigger] plans[i])
}

/// Whether an item reads nothing but aggregates.
pub open spec fn is_count(p: AggItemV) -> bool {
    match p {
        AggItemV::Key => false,
        AggItemV::Agg(e) => !ast::reads_any(e),
    }
}

/// Whether a return makes one row that depends on nothing but how many matches
/// there are.
pub fn count_star_only_return(p: &Projection) -> (b: bool)
    ensures
        b == count_only(p.v()),
{
    if p.star || p.distinct || p.items.len() == 0 || p.order.len() > 0 || p.skip.is_some()
        || p.limit.is_some() {
        return false;
    }
    let (sites, plans) = plan_agg_projection(p);
    if !all_sites_count_star(&sites) {
        return false;
    }
    let ghost ps = plan::agg_items_v(plans@);
    let mut i: usize = 0;
    while i < plans.len()
        invariant
            i <= plans@.len(),
            ps == plan::agg_items_v(plans@),
            ps == plan_items(p.v().items).0,
            forall|j: int| 0 <= j < i ==> is_count(#[trigger] ps[j]),
        decreases plans.len() - i,
    {
        assert(ps[i as int] == plans@[i as int].v());
        match &plans[i] {
            AggItem::Key => {
                return false;
            },
            AggItem::Agg(e) => {
                if reads_some(e) {
                    return false;
                }
            },
        }
        i = i + 1;
    }
    true
}

/// The nodes of a path.
pub open spec fn path_nodes(p: PathV) -> Seq<NodeV> {
    Seq::new(p.hops.len() + 1, |i: int| node_at(p, i))
}

/// The nodes of paths.
pub open spec fn all_nodes(ps: Seq<PathV>) -> Seq<NodeV>
    decreases ps.len(),
{
    if ps.len() == 0 {
        Seq::empty()
    } else {
        all_nodes(ps.drop_last()) + path_nodes(ps.last())
    }
}

/// The labels written on a variable, in order.
pub open spec fn labels_at(ns: Seq<NodeV>, x: Seq<char>) -> Seq<Seq<char>>
    decreases ns.len(),
{
    if ns.len() == 0 {
        Seq::empty()
    } else if ns.last().var == Some(x) {
        labels_at(ns.drop_last(), x) + ns.last().labels
    } else {
        labels_at(ns.drop_last(), x)
    }
}

/// The labels of a variable, each once.
pub open spec fn label_union(ps: Seq<PathV>, x: Seq<char>) -> Seq<Seq<char>> {
    first_seen(labels_at(all_nodes(ps), x))
}

/// A node with every label of its variable.
pub open spec fn stamp_node(n: NodeV, ps: Seq<PathV>) -> NodeV {
    match n.var {
        Some(x) => NodeV { labels: label_union(ps, x), ..n },
        None => n,
    }
}

/// A path with every label of its variables.
pub open spec fn stamp_path(p: PathV, ps: Seq<PathV>) -> PathV {
    PathV {
        start: stamp_node(p.start, ps),
        hops: p.hops.map_values(|h: (RelV, NodeV)| (h.0, stamp_node(h.1, ps))),
        ..p
    }
}

/// Paths with every label of their variables at each occurrence.
pub open spec fn stamped(ps: Seq<PathV>) -> Seq<PathV> {
    ps.map_values(|p: PathV| stamp_path(p, ps))
}

/// Adds the labels that are not yet there.
pub(crate) fn add_labels(acc: &mut Vec<String>, more: &Vec<String>, all: Ghost<Seq<Seq<char>>>)
    requires
        names::of(old(acc)@) == first_seen(all@),
    ensures
        names::of(final(acc)@) == first_seen(all@ + names::of(more@)),
{
    let ghost ms = names::of(more@);
    let mut i: usize = 0;
    assert(all@ + ms.take(0) =~= all@);
    while i < more.len()
        invariant
            i <= more@.len(),
            ms == names::of(more@),
            names::of(acc@) == first_seen(all@ + ms.take(i as int)),
        decreases more.len() - i,
    {
        let ghost a0 = names::of(acc@);
        proof {
            seqs::lemma_take_last(ms, i as int);
            assert((all@ + ms.take(i + 1)).drop_last() =~= all@ + ms.take(i as int));
            assert((all@ + ms.take(i + 1)).last() == ms[i as int]);
            assert(ms[i as int] == more@[i as int]@);
        }
        if !has_name(acc, &more[i]) {
            acc.push(more[i].clone());
            assert(names::of(acc@) =~= a0.push(ms[i as int]));
        }
        i = i + 1;
    }
    assert(all@ + ms.take(i as int) =~= all@ + ms);
}

fn add_node(acc: &mut Vec<String>, n: &NodePattern, x: &String, ns: Ghost<Seq<NodeV>>)
    requires
        names::of(old(acc)@) == first_seen(labels_at(ns@, x@)),
    ensures
        names::of(final(acc)@) == first_seen(labels_at(ns@.push(n.v()), x@)),
{
    proof {
        assert(ns@.push(n.v()).drop_last() =~= ns@);
    }
    match &n.var {
        Some(y) => {
            if *y == *x {
                add_labels(acc, &n.labels, Ghost(labels_at(ns@, x@)));
            }
        },
        None => {},
    }
}

fn union_of(ps: &Vec<PathPattern>, x: &String) -> (r: Vec<String>)
    ensures
        names::of(r@) == label_union(query::paths_v(ps@), x@),
{
    let ghost pv = query::paths_v(ps@);
    let mut r: Vec<String> = Vec::new();
    let mut i: usize = 0;
    proof {
        assert(pv.take(0) =~= Seq::empty());
        assert(names::of(r@) =~= Seq::empty());
    }
    while i < ps.len()
        invariant
            i <= ps@.len(),
            pv == query::paths_v(ps@),
            names::of(r@) == first_seen(labels_at(all_nodes(pv.take(i as int)), x@)),
        decreases ps.len() - i,
    {
        let ghost done = all_nodes(pv.take(i as int));
        let ghost p = pv[i as int];
        proof {
            seqs::lemma_take_last(pv, i as int);
            assert(p == ps@[i as int].v());
        }
        let path = &ps[i];
        add_node(&mut r, &path.start, x, Ghost(done));
        proof {
            assert(path_nodes(p).take(1) =~= seq![p.start]);
            assert(done.push(p.start) =~= done + path_nodes(p).take(1));
        }
        let mut k: usize = 0;
        while k < path.hops.len()
            invariant
                k <= path.hops@.len(),
                p == path.v(),
                names::of(r@) == first_seen(labels_at(done + path_nodes(p).take(k + 1), x@)),
            decreases path.hops.len() - k,
        {
            proof {
                assert(p.hops[k as int] == (
                    path.hops@[k as int].0.v(),
                    path.hops@[k as int].1.v(),
                ));
                seqs::lemma_take_last(path_nodes(p), k + 1);
                assert(path_nodes(p)[k + 1] == path.hops@[k as int].1.v());
                assert((done + path_nodes(p).take(k + 1)).push(path_nodes(p)[k + 1]) =~= done
                    + path_nodes(p).take(k + 2));
            }
            add_node(&mut r, &path.hops[k].1, x, Ghost(done + path_nodes(p).take(k + 1)));
            k = k + 1;
        }
        proof {
            assert(path_nodes(p).take(k + 1) =~= path_nodes(p));
        }
        i = i + 1;
    }
    assert(pv.take(i as int) =~= pv);
    r
}

fn stamp_one(n: &NodePattern, ps: &Vec<PathPattern>) -> (r: NodePattern)
    ensures
        r.v() == stamp_node(n.v(), query::paths_v(ps@)),
{
    let mut r = n.copy();
    match &n.var {
        Some(x) => {
            r.labels = union_of(ps, x);
        },
        None => {},
    }
    r
}

fn stamp_whole(p: &PathPattern, ps: &Vec<PathPattern>) -> (r: PathPattern)
    ensures
        r.v() == stamp_path(p.v(), query::paths_v(ps@)),
{
    let ghost pv = query::paths_v(ps@);
    let mut hops: Vec<(RelPattern, NodePattern)> = Vec::new();
    let mut i: usize = 0;
    while i < p.hops.len()
        invariant
            i <= p.hops@.len(),
            pv == query::paths_v(ps@),
            hops@.len() == i,
            forall|j: int|
                0 <= j < i ==> (#[trigger] hops@[j]).0.v() == p.hops@[j].0.v() && hops@[j].1.v()
                    == stamp_node(p.hops@[j].1.v(), pv),
        decreases p.hops.len() - i,
    {
        let h = (p.hops[i].0.copy(), stamp_one(&p.hops[i].1, ps));
        hops.push(h);
        i = i + 1;
    }
    let r = PathPattern {
        var: ast::copy_opt_name(&p.var),
        shortest: p.shortest,
        start: stamp_one(&p.start, ps),
        hops,
    };
    assert(r.v().hops =~= stamp_path(p.v(), pv).hops);
    r
}

/// Restates the labels of each variable at each of its occurrences.
pub fn stamp_labels(ps: &Vec<PathPattern>) -> (r: Vec<PathPattern>)
    ensures
        query::paths_v(r@) == stamped(query::paths_v(ps@)),
{
    let mut r: Vec<PathPattern> = Vec::new();
    let mut i: usize = 0;
    while i < ps.len()
        invariant
            i <= ps@.len(),
            r@.len() == i,
            forall|j: int|
                0 <= j < i ==> (#[trigger] r@[j]).v() == stamp_path(
                    ps@[j].v(),
                    query::paths_v(ps@),
                ),
        decreases ps.len() - i,
    {
        let p = stamp_whole(&ps[i], ps);
        r.push(p);
        i = i + 1;
    }
    assert(query::paths_v(r@) =~= stamped(query::paths_v(ps@)));
    r
}

/// Whether a node of a path is a variable.
pub open spec fn touches(p: PathV, x: Seq<char>) -> bool {
    exists|i: int| 0 <= i <= p.hops.len() && (#[trigger] node_at(p, i)).var == Some(x)
}

fn is_named(n: &NodePattern, x: &String) -> (b: bool)
    ensures
        b == (n.v().var == Some(x@)),
{
    match &n.var {
        Some(y) => *y == *x,
        None => false,
    }
}

/// Whether a node of a path is a variable.
pub fn path_touches(p: &PathPattern, x: &String) -> (b: bool)
    ensures
        b == touches(p.v(), x@),
{
    let ghost pv = p.v();
    if is_named(&p.start, x) {
        assert(node_at(pv, 0).var == Some(x@));
        return true;
    }
    let mut i: usize = 0;
    while i < p.hops.len()
        invariant
            i <= p.hops@.len(),
            pv == p.v(),
            forall|j: int| 0 <= j <= i ==> (#[trigger] node_at(pv, j)).var != Some(x@),
        decreases p.hops.len() - i,
    {
        assert(pv.hops[i as int] == (p.hops@[i as int].0.v(), p.hops@[i as int].1.v()));
        assert(node_at(pv, i + 1) == p.hops@[i as int].1.v());
        if is_named(&p.hops[i].1, x) {
            return true;
        }
        i = i + 1;
    }
    false
}

/// Whether a path without a hop is a variable that a path with hops binds.
pub open spec fn absorbed(p: PathV, ps: Seq<PathV>) -> bool {
    p.hops.len() > 0 || (p.start.var is Some && exists|k: int|
        0 <= k < ps.len() && (#[trigger] ps[k]).hops.len() > 0 && touches(ps[k], p.start.var->0))
}

/// The paths with hops, if every other one is absorbed by them.
pub open spec fn kept_paths(ps: Seq<PathV>) -> Option<Seq<PathV>> {
    if forall|i: int| 0 <= i < ps.len() ==> absorbed(#[trigger] ps[i], ps) {
        let kept = ps.filter(|p: PathV| p.hops.len() > 0);
        if kept.len() > 0 {
            Some(kept)
        } else {
            None
        }
    } else {
        None
    }
}

fn is_absorbed(p: &PathPattern, ps: &Vec<PathPattern>) -> (b: bool)
    ensures
        b == absorbed(p.v(), query::paths_v(ps@)),
{
    let ghost pv = query::paths_v(ps@);
    if p.hops.len() > 0 {
        return true;
    }
    match &p.start.var {
        None => false,
        Some(x) => {
            let mut k: usize = 0;
            while k < ps.len()
                invariant
                    k <= ps@.len(),
                    pv == query::paths_v(ps@),
                    p.v().hops.len() == 0,
                    p.v().start.var == Some(x@),
                    forall|j: int|
                        0 <= j < k ==> !((#[trigger] pv[j]).hops.len() > 0 && touches(pv[j], x@)),
                decreases ps.len() - k,
            {
                assert(pv[k as int] == ps@[k as int].v());
                if ps[k].hops.len() > 0 && path_touches(&ps[k], x) {
                    return true;
                }
                k = k + 1;
            }
            false
        },
    }
}

fn keep_paths(ps: &Vec<PathPattern>) -> (r: Option<Vec<PathPattern>>)
    ensures
        match r {
            Some(k) => kept_paths(query::paths_v(ps@)) == Some(query::paths_v(k@)),
            None => kept_paths(query::paths_v(ps@)) is None,
        },
{
    let ghost pv = query::paths_v(ps@);
    let ghost walks = |p: PathV| p.hops.len() > 0;
    let mut r: Vec<PathPattern> = Vec::new();
    let mut i: usize = 0;
    proof {
        assert(pv.take(0) =~= Seq::empty());
        seqs::lemma_filter_empty(walks);
        assert(query::paths_v(r@) =~= Seq::empty());
    }
    while i < ps.len()
        invariant
            i <= ps@.len(),
            pv == query::paths_v(ps@),
            walks == (|p: PathV| p.hops.len() > 0),
            forall|j: int| 0 <= j < i ==> absorbed(#[trigger] pv[j], pv),
            query::paths_v(r@) == pv.take(i as int).filter(walks),
        decreases ps.len() - i,
    {
        let ghost r0 = r@;
        proof {
            assert(pv[i as int] == ps@[i as int].v());
            seqs::lemma_take_last(pv, i as int);
            seqs::lemma_filter_last(pv.take(i + 1), walks);
        }
        if !is_absorbed(&ps[i], ps) {
            return None;
        }
        if ps[i].hops.len() > 0 {
            let p = ps[i].copy();
            r.push(p);
            assert(walks(pv[i as int]));
            assert(query::paths_v(r@) =~= query::paths_v(r0).push(p.v()));
        } else {
            assert(!walks(pv[i as int]));
        }
        i = i + 1;
    }
    assert(pv.take(i as int) =~= pv);
    assert(query::paths_v(r@).len() == r@.len());
    if r.len() == 0 {
        return None;
    }
    Some(r)
}

/// The end nodes of paths.
pub open spec fn end_nodes(ps: Seq<PathV>) -> Seq<NodeV>
    decreases ps.len(),
{
    if ps.len() == 0 {
        Seq::empty()
    } else {
        let p = ps.last();
        let first = end_nodes(ps.drop_last()).push(p.start);
        if p.hops.len() > 0 {
            first.push(p.hops.last().1)
        } else {
            first
        }
    }
}

/// The labelled variable of the fewest nodes, the first of equals, and how many
/// those are.
pub open spec fn seed_of(g: Graph, ns: Seq<NodeV>) -> Option<(u64, Seq<char>)>
    decreases ns.len(),
{
    if ns.len() == 0 {
        None
    } else {
        better_seed(g, seed_of(g, ns.drop_last()), ns.last())
    }
}

/// The better of a seed and a node.
pub open spec fn better_seed(g: Graph, best: Option<(u64, Seq<char>)>, n: NodeV) -> Option<
    (u64, Seq<char>),
> {
    match n.var {
        Some(x) => if n.labels.len() == 0 {
            best
        } else {
            let c = node_size(g, n.labels, n.labels.len());
            match best {
                Some((b, _)) => if c < b {
                    Some((c, x))
                } else {
                    best
                },
                None => Some((c, x)),
            }
        },
        None => best,
    }
}

/// A seed that may be missing.
pub open spec fn seed_v(s: Option<(u64, String)>) -> Option<(u64, Seq<char>)> {
    match s {
        Some((n, x)) => Some((n, x@)),
        None => None,
    }
}

fn better(g: &Graph, best: Option<(u64, String)>, n: &NodePattern) -> (r: Option<(u64, String)>)
    requires
        g.wf(),
    ensures
        seed_v(r) == better_seed(*g, seed_v(best), n.v()),
{
    match &n.var {
        None => best,
        Some(x) => {
            if n.labels.len() == 0 {
                return best;
            }
            let c = label_bound(g, &n.labels);
            match best {
                None => Some((c, x.clone())),
                Some((b, y)) => {
                    if c < b {
                        Some((c, x.clone()))
                    } else {
                        Some((b, y))
                    }
                },
            }
        },
    }
}

fn find_seed(g: &Graph, ps: &Vec<PathPattern>) -> (r: Option<(u64, String)>)
    requires
        g.wf(),
    ensures
        seed_v(r) == seed_of(*g, end_nodes(query::paths_v(ps@))),
{
    let ghost pv = query::paths_v(ps@);
    let mut r: Option<(u64, String)> = None;
    let mut i: usize = 0;
    assert(pv.take(0) =~= Seq::empty());
    while i < ps.len()
        invariant
            g.wf(),
            i <= ps@.len(),
            pv == query::paths_v(ps@),
            seed_v(r) == seed_of(*g, end_nodes(pv.take(i as int))),
        decreases ps.len() - i,
    {
        let ghost done = end_nodes(pv.take(i as int));
        let ghost p = pv[i as int];
        proof {
            assert(p == ps@[i as int].v());
            seqs::lemma_take_last(pv, i as int);
            assert(done.push(p.start).drop_last() =~= done);
        }
        r = better(g, r, &ps[i].start);
        assert(seed_v(r) == seed_of(*g, done.push(p.start)));
        if ps[i].hops.len() > 0 {
            let k: usize = ps[i].hops.len() - 1;
            proof {
                assert(p.hops[k as int] == (
                    ps@[i as int].hops@[k as int].0.v(),
                    ps@[i as int].hops@[k as int].1.v(),
                ));
                assert(done.push(p.start).push(p.hops.last().1).drop_last() =~= done.push(p.start));
            }
            r = better(g, r, &ps[i].hops[k].1);
            assert(seed_v(r) == seed_of(*g, done.push(p.start).push(p.hops.last().1)));
        }
        i = i + 1;
    }
    assert(pv.take(i as int) =~= pv);
    r
}

/// Whether a path can be walked from either end: it has no name, no property
/// map and no variable length.
pub open spec fn walkable(p: PathV) -> bool {
    &&& p.var is None && !p.shortest && p.start.props is None
    &&& forall|i: int|
        0 <= i < p.hops.len() ==> (#[trigger] p.hops[i]).0.length is None && p.hops[i].1.props is None
}

fn is_walkable(p: &PathPattern) -> (b: bool)
    ensures
        b == walkable(p.v()),
{
    if p.var.is_some() || p.shortest || p.start.props.is_some() {
        return false;
    }
    let mut i: usize = 0;
    while i < p.hops.len()
        invariant
            i <= p.hops@.len(),
            forall|j: int|
                0 <= j < i ==> (#[trigger] p.v().hops[j]).0.length is None
                    && p.v().hops[j].1.props is None,
        decreases p.hops.len() - i,
    {
        assert(p.v().hops[i as int] == (p.hops@[i as int].0.v(), p.hops@[i as int].1.v()));
        if p.hops[i].0.length.is_some() || p.hops[i].1.props.is_some() {
            return false;
        }
        i = i + 1;
    }
    true
}

/// The paths to be ordered and the variable from which they are walked.
#[derive(Debug)]
pub struct Seeded {
    pub kept: Vec<PathPattern>,
    pub seed: String,
    /// How many nodes the walk starts from.
    pub rows: u64,
}

/// The paths of a pattern that can be reordered, and where their walk starts.
pub open spec fn seeded(g: Graph, p: PatternV) -> Option<(Seq<PathV>, Seq<char>, u64)> {
    if p.paths.len() == 0 || !(forall|i: int|
        0 <= i < p.paths.len() ==> walkable(#[trigger] p.paths[i])) {
        None
    } else {
        match kept_paths(stamped(p.paths)) {
            None => None,
            Some(kept) => match seed_of(g, end_nodes(kept)) {
                None => None,
                Some((rows, x)) => Some((kept, x, rows)),
            },
        }
    }
}

/// The paths of a pattern that can be reordered, and where their walk starts.
pub fn reorder_seed(g: &Graph, p: &Pattern) -> (r: Option<Seeded>)
    requires
        g.wf(),
    ensures
        match r {
            Some(s) => seeded(*g, p.v()) == Some((query::paths_v(s.kept@), s.seed@, s.rows)),
            None => seeded(*g, p.v()) is None,
        },
{
    if p.paths.len() == 0 {
        return None;
    }
    let mut i: usize = 0;
    while i < p.paths.len()
        invariant
            i <= p.paths@.len(),
            forall|j: int| 0 <= j < i ==> walkable(#[trigger] p.v().paths[j]),
        decreases p.paths.len() - i,
    {
        assert(p.v().paths[i as int] == p.paths@[i as int].v());
        if !is_walkable(&p.paths[i]) {
            return None;
        }
        i = i + 1;
    }
    let st = stamp_labels(&p.paths);
    let kept = match keep_paths(&st) {
        Some(k) => k,
        None => {
            return None;
        },
    };
    match find_seed(g, &kept) {
        Some((rows, seed)) => Some(Seeded { kept, seed, rows }),
        None => None,
    }
}

} // verus!
