//! Walking a path from its other end.

use vstd::prelude::*;

use crate::ast;
use crate::chain::{prop_anchor, start_prop_anchor};
use crate::graph::Graph;
use crate::multistage::{as_match, get_match};
use crate::names;
use crate::query;
use crate::query::{copy_clauses, Clause, ClauseV, NodePattern, NodeV, PathPattern, PathV, Pattern, PatternV, RelDir, RelPattern, RelV, SingleQuery};

verus! {

/// A direction seen from the other end.
pub open spec fn flip(d: RelDir) -> RelDir {
    match d {
        RelDir::Out => RelDir::In,
        RelDir::In => RelDir::Out,
        RelDir::Undirected => RelDir::Undirected,
    }
}

/// A direction seen from the other end.
pub fn flip_dir(d: RelDir) -> (r: RelDir)
    ensures
        r == flip(d),
{
    match d {
        RelDir::Out => RelDir::In,
        RelDir::In => RelDir::Out,
        RelDir::Undirected => RelDir::Undirected,
    }
}

/// A relationship seen from the other end.
pub open spec fn flip_rel(r: RelV) -> RelV {
    RelV { dir: flip(r.dir), ..r }
}

/// The `i`th node of a path.
pub open spec fn node_at(p: PathV, i: int) -> NodeV {
    if i == 0 {
        p.start
    } else {
        p.hops[i - 1].1
    }
}

/// A path from its other end, without its name.
pub open spec fn reversed(p: PathV) -> PathV {
    let k = p.hops.len();
    PathV {
        var: None,
        shortest: false,
        start: node_at(p, k as int),
        hops: Seq::new(k, |j: int| (flip_rel(p.hops[k - 1 - j].0), node_at(p, k - 1 - j))),
    }
}

/// A path that is reversed twice is the path.
pub proof fn law_reverse_twice(p: PathV)
    requires
        p.var is None,
        !p.shortest,
    ensures
        reversed(reversed(p)) == p,
{
    let k = p.hops.len();
    let r = reversed(p);
    let rr = reversed(r);
    assert(rr.start == p.start);
    assert forall|j: int| 0 <= j < k implies rr.hops[j] == p.hops[j] by {
        assert(r.hops[k - 1 - j] == (flip_rel(p.hops[j].0), node_at(p, j)));
        assert(flip_rel(flip_rel(p.hops[j].0)) == p.hops[j].0);
        if k - 1 - j == 0 {
            assert(node_at(r, 0) == node_at(p, k as int));
        } else {
            assert(r.hops[k - 2 - j] == (flip_rel(p.hops[j + 1].0), node_at(p, j + 1)));
        }
    }
    assert(rr.hops =~= p.hops);
}

/// A path from its other end.
pub fn reverse_path(p: &PathPattern) -> (r: PathPattern)
    ensures
        r.v() == reversed(p.v()),
{
    let ghost pv = p.v();
    let k: usize = p.hops.len();
    let mut hops: Vec<(RelPattern, NodePattern)> = Vec::new();
    let mut j: usize = 0;
    while j < k
        invariant
            k == p.hops@.len(),
            pv == p.v(),
            j <= k,
            hops@.len() == j,
            forall|i: int|
                0 <= i < j ==> query::hops_v(hops@)[i] == (
                    flip_rel(pv.hops[k - 1 - i].0),
                    node_at(pv, k - 1 - i),
                ),
        decreases k - j,
    {
        let at: usize = k - 1 - j;
        assert(pv.hops[at as int] == (p.hops@[at as int].0.v(), p.hops@[at as int].1.v()));
        let mut rel = p.hops[at].0.copy();
        rel.dir = flip_dir(p.hops[at].0.dir);
        let node = if at == 0 {
            p.start.copy()
        } else {
            assert(pv.hops[at - 1] == (p.hops@[at - 1].0.v(), p.hops@[at - 1].1.v()));
            p.hops[at - 1].1.copy()
        };
        let ghost hops0 = hops@;
        hops.push((rel, node));
        proof {
            assert forall|i: int| 0 <= i < j + 1 implies query::hops_v(hops@)[i] == (
                flip_rel(pv.hops[k - 1 - i].0),
                node_at(pv, k - 1 - i),
            ) by {
                if i < j {
                    assert(query::hops_v(hops@)[i] == query::hops_v(hops0)[i]);
                }
            }
        }
        j = j + 1;
    }
    let start = if k == 0 {
        p.start.copy()
    } else {
        assert(pv.hops[k - 1] == (p.hops@[k - 1].0.v(), p.hops@[k - 1].1.v()));
        p.hops[k - 1].1.copy()
    };
    let r = PathPattern { var: None, shortest: false, start, hops };
    assert(r.v().hops =~= reversed(pv).hops);
    r
}

/// A pattern of one path from its other end, if that is a variable.
pub open spec fn rerooted(p: PatternV, seed: Seq<char>) -> Option<PatternV> {
    if p.paths.len() != 1 {
        None
    } else {
        let path = p.paths[0];
        if path.var is Some || path.shortest || path.hops.len() == 0 || path.hops.last().1.var
            != Some(seed) {
            None
        } else {
            Some(PatternV { paths: seq![reversed(path)] })
        }
    }
}

/// A pattern that may be missing.
pub open spec fn pattern_opt(p: Option<Pattern>) -> Option<PatternV> {
    match p {
        Some(p) => Some(p.v()),
        None => None,
    }
}

/// A pattern of one path from its other end, if that is a variable.
pub fn reroot_single_path_at(p: &Pattern, seed: &String) -> (r: Option<Pattern>)
    ensures
        pattern_opt(r) == rerooted(p.v(), seed@),
{
    if p.paths.len() != 1 {
        return None;
    }
    assert(p.v().paths[0] == p.paths@[0].v());
    let path = &p.paths[0];
    if path.var.is_some() || path.shortest || path.hops.len() == 0 {
        return None;
    }
    let k: usize = path.hops.len() - 1;
    assert(path.v().hops[k as int] == (path.hops@[k as int].0.v(), path.hops@[k as int].1.v()));
    match &path.hops[k].1.var {
        Some(x) => {
            if *x != *seed {
                return None;
            }
        },
        None => {
            return None;
        },
    }
    let mut paths: Vec<PathPattern> = Vec::new();
    let back = reverse_path(path);
    paths.push(back);
    assert(query::paths_v(paths@) =~= seq![back.v()]);
    Some(Pattern { paths })
}

/// The smallest number of nodes of any label of a node, which an unlabelled
/// node does not have.
pub open spec fn node_size(g: Graph, labels: Seq<Seq<char>>, n: nat) -> u64
    decreases n,
{
    if n == 0 {
        u64::MAX
    } else {
        let rest = node_size(g, labels, (n - 1) as nat);
        if g.label_count(labels[n - 1], g.labels@.len()) < rest {
            g.label_count(labels[n - 1], g.labels@.len()) as u64
        } else {
            rest
        }
    }
}

/// The smallest number of nodes of any label of a node.
pub fn label_bound(g: &Graph, labels: &Vec<String>) -> (r: u64)
    requires
        g.wf(),
    ensures
        r == node_size(*g, names::of(labels@), labels@.len()),
{
    let mut r: u64 = u64::MAX;
    let mut i: usize = 0;
    while i < labels.len()
        invariant
            g.wf(),
            i <= labels@.len(),
            r == node_size(*g, names::of(labels@), i as nat),
        decreases labels.len() - i,
    {
        let n = g.count_label_nodes(&labels[i]);
        if n < r {
            r = n;
        }
        i = i + 1;
    }
    r
}

/// Whether any hop of a path is of variable length.
pub open spec fn any_length(p: PathV) -> bool {
    exists|i: int| 0 <= i < p.hops.len() && (#[trigger] p.hops[i]).0.length is Some
}

fn has_length(p: &PathPattern) -> (b: bool)
    ensures
        b == any_length(p.v()),
{
    let mut i: usize = 0;
    while i < p.hops.len()
        invariant
            i <= p.hops@.len(),
            forall|j: int| 0 <= j < i ==> (#[trigger] p.v().hops[j]).0.length is None,
        decreases p.hops.len() - i,
    {
        assert(p.v().hops[i as int] == (p.hops@[i as int].0.v(), p.hops@[i as int].1.v()));
        if p.hops[i].0.length.is_some() {
            return true;
        }
        i = i + 1;
    }
    false
}

/// A pattern that is better walked from its other end: the start fixes no
/// property, the end fixes one, and no fewer nodes have the start's label.
pub open spec fn selective(g: Graph, p: PatternV) -> Option<PatternV> {
    if p.paths.len() != 1 {
        None
    } else {
        let path = p.paths[0];
        let end = path.hops.last().1;
        if path.hops.len() == 0 || any_length(path) || path.start.props is Some || end.var is None
            || prop_anchor(end.props) is None {
            None
        } else if node_size(g, end.labels, end.labels.len()) > node_size(
            g,
            path.start.labels,
            path.start.labels.len(),
        ) {
            None
        } else {
            rerooted(p, end.var->0)
        }
    }
}

fn selective_end(g: &Graph, p: &Pattern) -> (r: Option<Pattern>)
    requires
        g.wf(),
    ensures
        pattern_opt(r) == selective(*g, p.v()),
{
    if p.paths.len() != 1 {
        return None;
    }
    assert(p.v().paths[0] == p.paths@[0].v());
    let path = &p.paths[0];
    if path.hops.len() == 0 || has_length(path) || path.start.props.is_some() {
        return None;
    }
    let k: usize = path.hops.len() - 1;
    assert(path.v().hops[k as int] == (path.hops@[k as int].0.v(), path.hops@[k as int].1.v()));
    let end = &path.hops[k].1;
    match &end.var {
        None => None,
        Some(x) => {
            if start_prop_anchor(&end.props).is_none() {
                return None;
            }
            if label_bound(g, &end.labels) > label_bound(g, &path.start.labels) {
                return None;
            }
            reroot_single_path_at(p, x)
        },
    }
}

/// A query whose first match is better walked from its other end.
pub open spec fn selective_query(g: Graph, q: Seq<ClauseV>) -> Option<Seq<ClauseV>> {
    if q.len() == 0 {
        None
    } else {
        match as_match(q[0]) {
            None => None,
            Some((p, where_)) => match selective(g, p) {
                None => None,
                Some(pattern) => Some(
                    q.update(0, ClauseV::Match { optional: false, pattern, where_ }),
                ),
            },
        }
    }
}

/// A query that may be missing.
pub open spec fn query_opt(q: Option<SingleQuery>) -> Option<Seq<ClauseV>> {
    match q {
        Some(q) => Some(q.v()),
        None => None,
    }
}

/// Walks the first match of a query from its other end where that is better.
pub fn reroot_to_selective_end(g: &Graph, q: &SingleQuery, on: bool) -> (r: Option<SingleQuery>)
    requires
        g.wf(),
    ensures
        query_opt(r) == if on {
            selective_query(*g, q.v())
        } else {
            None
        },
{
    if !on || q.clauses.len() == 0 {
        return None;
    }
    assert(q.v()[0] == q.clauses@[0].v());
    match get_match(&q.clauses[0]) {
        None => None,
        Some((p, where_)) => match selective_end(g, p) {
            None => None,
            Some(pattern) => {
                let mut clauses = copy_clauses(&q.clauses, 0, q.clauses.len());
                assert(query::clauses_v(clauses@) =~= q.v());
                let ghost c0 = clauses@;
                let c = Clause::Match {
                    optional: false,
                    pattern,
                    where_: ast::copy_opt(ast::as_opt(where_)),
                };
                clauses.set(0, c);
                assert(query::clauses_v(clauses@) =~= query::clauses_v(c0).update(0, c.v()));
                Some(SingleQuery { clauses })
            },
        },
    }
}

} // verus!
