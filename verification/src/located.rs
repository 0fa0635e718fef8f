//! Rows that end at known nodes, found from that end.

use std::collections::BTreeSet;

use vstd::prelude::*;

use crate::ast::{Expr, ExprV, Op};
use crate::carry::{StageTail, StageTailV};
use crate::graph;
use crate::graph::{member_admits, Adj, Dir, Graph, NULL_ID};
use crate::multistage::{MultiStagePlan, MultiV};
use crate::names;
use crate::names::{name_index, repeat_id};
use crate::ordered::{compared, compared_to, is_lone};
use crate::preds;
use crate::preds::{WherePred, WhereV};
use crate::seqs;

verus! {

broadcast use {vstd::std_specs::btree::group_btree_axioms, vstd::laws_cmp::group_laws_cmp};

/// What the first condition that compares a property of a variable compares it
/// to.
pub open spec fn first_compared(ws: Seq<WhereV>, op: Op, x: Seq<char>) -> Option<
    (Seq<char>, ExprV),
> {
    seqs::find_map(ws, |w: WhereV| compared(w.expr, op, x))
}

/// What the first condition that compares a property of a variable compares it
/// to.
pub fn find_compared<'a>(ws: &'a Vec<WherePred>, op: Op, x: &String) -> (r: Option<
    (&'a String, &'a Expr),
>)
    ensures
        match r {
            Some((k, v)) => first_compared(preds::wheres_v(ws@), op, x@) == Some((k@, v.v())),
            None => first_compared(preds::wheres_v(ws@), op, x@) is None,
        },
{
    let ghost wv = preds::wheres_v(ws@);
    let ghost f = |w: WhereV| compared(w.expr, op, x@);
    let mut i: usize = 0;
    while i < ws.len()
        invariant
            i <= ws@.len(),
            wv == preds::wheres_v(ws@),
            f == (|w: WhereV| compared(w.expr, op, x@)),
            forall|j: int| 0 <= j < i ==> f(#[trigger] wv[j]) is None,
        decreases ws.len() - i,
    {
        assert(wv[i as int] == ws@[i as int].v());
        let r = compared_to(&ws[i].expr, op, x);
        if r.is_some() {
            proof {
                seqs::lemma_find_map(wv, f, i as int);
            }
            return r;
        }
        i = i + 1;
    }
    proof {
        seqs::lemma_find_map(wv, f, wv.len() as int);
    }
    None
}

/// What a read of two stages looks at that ends at a node known by a property.
pub struct LocatedV {
    /// The relationship variable of the middle hop.
    pub rel: Seq<char>,
    /// The property of the last node, and what it equals.
    pub place: (Seq<char>, ExprV),
    /// The property of the relationship, and what it is below.
    pub below: (Seq<char>, ExprV),
}

/// Whether the second of two stages leads from the only variable that the first
/// hands on over a middle node to a last one, binding both, and its rows are
/// projected.
pub open spec fn located_tail(p: MultiV) -> bool {
    let w = p.s2_hops[0];
    let l = p.s2_hops[1];
    match p.tail {
        StageTailV::Core(core) => {
            &&& p.carried.len() == 1
            &&& names::position(core.chain.vars, p.s1.hops[0].var) == Some(w.src)
            &&& w.varlen is None
            &&& w.tgt is None
            &&& l.varlen is None
            &&& l.tgt is None
            &&& l.rel_var is None
            &&& w.end_vi == Some(l.src)
        },
        _ => false,
    }
}

/// What a read of two stages looks at: the distinct ends of a variable-length
/// hop, and from each a relationship to a node that is located at a known one.
/// The second stage has no condition beside that on the last node and that on
/// the relationship.
pub open spec fn located_of(p: MultiV) -> Option<LocatedV> {
    if p.s1.hops.len() != 1 || !p.distinct || p.s2_hops.len() != 2 {
        None
    } else {
        let k = p.s1.hops[0];
        let w = p.s2_hops[0];
        let l = p.s2_hops[1];
        if k.types != seq!["KNOWS"@] || k.varlen is None || w.types != seq!["WORK_AT"@] || l.types
            != seq!["IS_LOCATED_IN"@] || w.dir != Dir::Out || l.dir != Dir::Out || !located_tail(p)
            || p.s2_wheres.len() != 2 {
            None
        } else {
            match w.rel_var {
                Some(rel) => match (
                    first_compared(p.s2_wheres, Op::Eq, l.var),
                    first_compared(p.s2_wheres, Op::Lt, rel),
                ) {
                    (Some(place), Some(below)) => Some(LocatedV { rel, place, below }),
                    _ => None,
                },
                None => None,
            }
        }
    }
}

/// What a read of two stages looks at that ends at a node known by a property.
#[derive(Debug)]
pub struct Located {
    pub rel: String,
    pub place: (String, Expr),
    pub below: (String, Expr),
}

impl Located {
    pub open spec fn v(self) -> LocatedV {
        LocatedV {
            rel: self.rel@,
            place: (self.place.0@, self.place.1.v()),
            below: (self.below.0@, self.below.1.v()),
        }
    }
}

/// What a read looks at, if anything.
pub open spec fn located_opt(r: Option<Located>) -> Option<LocatedV> {
    match r {
        Some(r) => Some(r.v()),
        None => None,
    }
}

fn has_located_tail(p: &MultiStagePlan) -> (b: bool)
    requires
        p.s1.hops@.len() == 1,
        p.s2_hops@.len() == 2,
    ensures
        b == located_tail(p.v()),
{
    let k = &p.s1.hops[0];
    let w = &p.s2_hops[0];
    let l = &p.s2_hops[1];
    assert(p.v().s1.hops[0] == k.v());
    assert(p.v().s2_hops[0] == w.v());
    assert(p.v().s2_hops[1] == l.v());
    match &p.tail {
        StageTail::Core(core) => {
            if p.carried.len() != 1 || w.varlen.is_some() || w.tgt.is_some() || l.varlen.is_some()
                || l.tgt.is_some() || l.rel_var.is_some() {
                return false;
            }
            let from = match name_index(&core.chain.vars, &k.var) {
                Some(i) => i == w.src,
                None => false,
            };
            match w.end_vi {
                Some(e) => from && e == l.src,
                None => false,
            }
        },
        _ => false,
    }
}

/// What a read of two stages looks at that ends at a node known by a property.
pub fn located_shape(p: &MultiStagePlan) -> (r: Option<Located>)
    ensures
        located_opt(r) == located_of(p.v()),
{
    if p.s1.hops.len() != 1 || !p.distinct || p.s2_hops.len() != 2 {
        return None;
    }
    let k = &p.s1.hops[0];
    let w = &p.s2_hops[0];
    let l = &p.s2_hops[1];
    assert(p.v().s1.hops[0] == k.v());
    assert(p.v().s2_hops[0] == w.v());
    assert(p.v().s2_hops[1] == l.v());
    if !is_lone(&k.types, &"KNOWS".to_owned()) || k.varlen.is_none() || !is_lone(
        &w.types,
        &"WORK_AT".to_owned(),
    ) || !is_lone(&l.types, &"IS_LOCATED_IN".to_owned()) || w.dir != Dir::Out || l.dir != Dir::Out {
        return None;
    }
    if p.s2_wheres.len() != 2 || !has_located_tail(p) {
        return None;
    }
    match &w.rel_var {
        Some(rel) => match (
            find_compared(&p.s2_wheres, Op::Eq, &l.var),
            find_compared(&p.s2_wheres, Op::Lt, rel),
        ) {
            (Some((pk, pv)), Some((bk, bv))) => Some(
                Located {
                    rel: rel.clone(),
                    place: (pk.clone(), pv.copy()),
                    below: (bk.clone(), bv.copy()),
                },
            ),
            _ => None,
        },
        None => None,
    }
}

/// Whether a node is located at one of the chosen places and is a member.
pub open spec fn located_member(
    g: Graph,
    tokens: Option<Seq<u32>>,
    places: Seq<u64>,
    chosen: Seq<bool>,
    members: Option<Set<u64>>,
    n: u64,
) -> bool {
    at_place(g, tokens, places, chosen, n) && graph::is_member(members, n)
}

/// Whether a node is located at one of the chosen places.
pub open spec fn at_place(
    g: Graph,
    tokens: Option<Seq<u32>>,
    places: Seq<u64>,
    chosen: Seq<bool>,
    n: u64,
) -> bool {
    exists|i: int, j: int|
        0 <= i < places.len() && chosen[i] && 0 <= j < g.adj(places[i], Dir::In, tokens).len()
            && (#[trigger] g.adj(places[i], Dir::In, tokens)[j]).peer == n
}

/// The members that are located at the chosen places.
pub fn nodes_at(
    g: &Graph,
    tokens: &Option<Vec<u32>>,
    places: &Vec<u64>,
    chosen: &Vec<bool>,
    members: Option<&BTreeSet<u64>>,
) -> (r: BTreeSet<u64>)
    requires
        chosen@.len() == places@.len(),
    ensures
        forall|n: u64| #[trigger]
            r@.contains(n) <==> located_member(
                *g,
                graph::tokens_view(*tokens),
                places@,
                chosen@,
                graph::members_view(members),
                n,
            ),
{
    let ghost mv = graph::members_view(members);
    let ghost tv = graph::tokens_view(*tokens);
    let mut r: BTreeSet<u64> = BTreeSet::new();
    let mut i: usize = 0;
    assert(places@.take(0) =~= Seq::empty());
    while i < places.len()
        invariant
            i <= places@.len(),
            chosen@.len() == places@.len(),
            tv == graph::tokens_view(*tokens),
            forall|n: u64| #[trigger]
                r@.contains(n) <==> located_member(*g, tv, places@.take(i as int), chosen@, mv, n),
            mv == graph::members_view(members),
        decreases places.len() - i,
    {
        let ghost r0 = r@;
        let ghost before = places@.take(i as int);
        let ghost after = places@.take(i + 1);
        if chosen[i] {
            let es = g.adjacent(places[i], Dir::In, tokens);
            let mut j: usize = 0;
            while j < es.len()
                invariant
                    j <= es@.len(),
                    forall|n: u64| #[trigger]
                        r@.contains(n) <==> r0.contains(n) || (graph::is_member(mv, n) && exists|k: int|
                            0 <= k < j && (#[trigger] es@[k]).peer == n),
                    mv == graph::members_view(members),
                decreases es.len() - j,
            {
                let ghost r1 = r@;
                if member_admits(members, es[j].peer) {
                    r.insert(es[j].peer);
                }
                proof {
                    assert forall|n: u64| #[trigger] r@.contains(n) <==> r0.contains(n)
                        || (graph::is_member(mv, n) && exists|k: int|
                        0 <= k < j + 1 && (#[trigger] es@[k]).peer == n) by {
                        assert(r1.contains(n) <==> r0.contains(n) || (graph::is_member(mv, n)
                            && exists|k: int| 0 <= k < j && (#[trigger] es@[k]).peer == n));
                        if n == es@[j as int].peer {
                            assert(es@[j as int].peer == n);
                        }
                    }
                }
                j = j + 1;
            }
            proof {
                assert(es@ == g.adj(places@[i as int], Dir::In, tv));
            }
        }
        proof {
            assert forall|n: u64| #[trigger] r@.contains(n) <==> located_member(
                *g,
                tv,
                after,
                chosen@,
                mv,
                n,
            ) by {
                assert(r0.contains(n) <==> located_member(*g, tv, before, chosen@, mv, n));
                if at_place(*g, tv, before, chosen@, n) {
                    let (a, b) = choose|a: int, b: int|
                        0 <= a < before.len() && chosen@[a] && 0 <= b < g.adj(
                            before[a],
                            Dir::In,
                            tv,
                        ).len() && (#[trigger] g.adj(before[a], Dir::In, tv)[b]).peer == n;
                    assert(after[a] == before[a]);
                    assert(g.adj(after[a], Dir::In, tv)[b].peer == n);
                }
                if chosen@[i as int] && exists|k: int|
                    0 <= k < g.adj(places@[i as int], Dir::In, tv).len() && (#[trigger] g.adj(
                        places@[i as int],
                        Dir::In,
                        tv,
                    )[k]).peer == n {
                    let k = choose|k: int|
                        0 <= k < g.adj(places@[i as int], Dir::In, tv).len() && (#[trigger] g.adj(
                            places@[i as int],
                            Dir::In,
                            tv,
                        )[k]).peer == n;
                    assert(after[i as int] == places@[i as int]);
                    assert(g.adj(after[i as int], Dir::In, tv)[k].peer == n);
                }
                if at_place(*g, tv, after, chosen@, n) {
                    let (a, b) = choose|a: int, b: int|
                        0 <= a < after.len() && chosen@[a] && 0 <= b < g.adj(
                            after[a],
                            Dir::In,
                            tv,
                        ).len() && (#[trigger] g.adj(after[a], Dir::In, tv)[b]).peer == n;
                    if a < i {
                        assert(after[a] == before[a]);
                        assert(g.adj(before[a], Dir::In, tv)[b].peer == n);
                    }
                }
            }
        }
        i = i + 1;
    }
    assert(places@.take(i as int) =~= places@);
    r
}

/// A relationship from a start to a node that is located where it should be.
#[derive(Clone, Copy, Debug, PartialEq, Eq, Structural)]
pub struct Found {
    pub start: u64,
    pub rel: u64,
    pub node: u64,
}

/// So many times the same.
pub open spec fn copies(m: Found, k: nat) -> Seq<Found> {
    Seq::new(k, |i: int| m)
}

/// What is found over relationships of a start: each one to a node of a set, once
/// for every relationship by which that node is located at the place.
pub open spec fn found_over(
    g: Graph,
    at: Option<Seq<u32>>,
    set: Set<u64>,
    place: u64,
    start: u64,
    es: Seq<Adj>,
) -> Seq<Found>
    decreases es.len(),
{
    if es.len() == 0 {
        Seq::empty()
    } else {
        let e = es.last();
        found_over(g, at, set, place, start, es.drop_last()) + if set.contains(e.peer) {
            copies(
                Found { start, rel: e.rel, node: e.peer },
                graph::closing(g.adj(e.peer, Dir::Out, at), place, Seq::empty()),
            )
        } else {
            Seq::empty()
        }
    }
}

/// What is found over the relationships of some starts, start by start.
pub open spec fn found(
    g: Graph,
    dir: Dir,
    tokens: Option<Seq<u32>>,
    at: Option<Seq<u32>>,
    set: Set<u64>,
    place: u64,
    starts: Seq<u64>,
) -> Seq<Found>
    decreases starts.len(),
{
    if starts.len() == 0 {
        Seq::empty()
    } else {
        found(g, dir, tokens, at, set, place, starts.drop_last()) + found_over(
            g,
            at,
            set,
            place,
            starts.last(),
            g.adj(starts.last(), dir, tokens),
        )
    }
}

/// The relationships of some starts to nodes of a set, start by start, each once for
/// every relationship by which its node is located at the place.
pub fn find_rels(
    g: &Graph,
    dir: Dir,
    tokens: &Option<Vec<u32>>,
    at: &Option<Vec<u32>>,
    set: &BTreeSet<u64>,
    place: u64,
    starts: &Vec<u64>,
) -> (r: Vec<Found>)
    requires
        g.wf(),
    ensures
        r@ == found(
            *g,
            dir,
            graph::tokens_view(*tokens),
            graph::tokens_view(*at),
            set@,
            place,
            starts@,
        ),
{
    let ghost tv = graph::tokens_view(*tokens);
    let ghost av = graph::tokens_view(*at);
    let mut r: Vec<Found> = Vec::new();
    let mut i: usize = 0;
    assert(starts@.take(0) =~= Seq::empty());
    while i < starts.len()
        invariant
            i <= starts@.len(),
            g.wf(),
            tv == graph::tokens_view(*tokens),
            av == graph::tokens_view(*at),
            r@ == found(*g, dir, tv, av, set@, place, starts@.take(i as int)),
        decreases starts.len() - i,
    {
        let x = starts[i];
        let es = g.adjacent(x, dir, tokens);
        let ghost r0 = r@;
        proof {
            seqs::lemma_take_last(starts@, i as int);
            assert(es@.take(0) =~= Seq::empty());
            assert(r0 + found_over(*g, av, set@, place, x, es@.take(0)) =~= r0);
        }
        let mut j: usize = 0;
        while j < es.len()
            invariant
                j <= es@.len(),
                g.wf(),
                av == graph::tokens_view(*at),
                r@ == r0 + found_over(*g, av, set@, place, x, es@.take(j as int)),
            decreases es.len() - j,
        {
            let ghost r1 = r@;
            let ghost done = found_over(*g, av, set@, place, x, es@.take(j as int));
            proof {
                seqs::lemma_take_last(es@, j as int);
            }
            if set.contains(&es[j].peer) {
                let m = Found { start: x, rel: es[j].rel, node: es[j].peer };
                let n: u64 = g.edge_count_slim(es[j].peer, Dir::Out, at, place);
                let mut k: u64 = 0;
                assert(r1 + copies(m, 0) =~= r1);
                while k < n
                    invariant
                        k <= n,
                        r@ == r1 + copies(m, k as nat),
                    decreases n - k,
                {
                    r.push(m);
                    assert(r@ =~= r1 + copies(m, (k + 1) as nat));
                    k = k + 1;
                }
                assert(r0 + (done + copies(m, n as nat)) =~= r@);
            } else {
                assert(r0 + (done + Seq::<Found>::empty()) =~= r1);
            }
            j = j + 1;
        }
        assert(es@.take(j as int) =~= es@);
        i = i + 1;
    }
    assert(starts@.take(i as int) =~= starts@);
    r
}

/// The columns of the rows of what was found.
pub struct Columns {
    pub start: int,
    pub rel: int,
    pub node: int,
    pub place: int,
}

/// The columns of a read of two stages that ends at a known node.
pub open spec fn columns_of(p: MultiV, l: LocatedV) -> Option<Columns> {
    match p.tail {
        StageTailV::Core(core) => match (
            names::position(core.chain.vars, p.s1.hops[0].var),
            names::position(core.chain.vars, l.rel),
            names::position(core.chain.vars, p.s2_hops[0].var),
            names::position(core.chain.vars, p.s2_hops[1].var),
        ) {
            (Some(start), Some(rel), Some(node), Some(place)) => Some(
                Columns { start, rel, node, place },
            ),
            _ => None,
        },
        _ => None,
    }
}

/// How many columns a read of two stages has.
pub open spec fn width_of(p: MultiV) -> nat {
    match p.tail {
        StageTailV::Core(core) => core.chain.vars.len(),
        _ => 0,
    }
}

/// The row of what was found.
pub open spec fn found_row(width: nat, c: Columns, place: u64, m: Found) -> Seq<u64> {
    Seq::new(width, |i: int| NULL_ID).update(c.start, m.start).update(c.rel, m.rel).update(
        c.node,
        m.node,
    ).update(c.place, place)
}

/// Whether a value is a number below a bound.
pub open spec fn is_below(x: Option<i64>, bound: i64) -> bool {
    x matches Some(n) && n < bound
}

/// The rows of what was found whose relationship's value is below a bound.
pub open spec fn below_rows(
    width: nat,
    c: Columns,
    place: u64,
    ms: Seq<Found>,
    vals: Seq<Option<i64>>,
    bound: i64,
    n: nat,
) -> Seq<Seq<u64>>
    decreases n,
{
    if n == 0 {
        Seq::empty()
    } else {
        let s = below_rows(width, c, place, ms, vals, bound, (n - 1) as nat);
        if is_below(vals[n - 1], bound) {
            s.push(found_row(width, c, place, ms[n - 1]))
        } else {
            s
        }
    }
}

/// Rows of ids.
pub open spec fn rows_v(s: Seq<Vec<u64>>) -> Seq<Seq<u64>> {
    s.map_values(|r: Vec<u64>| r@)
}

/// Makes a row of each relationship that was found and whose value is below a
/// bound. Declines where there is one and a column of it is not in the tail.
pub fn try_ic11_semijoin(
    p: &MultiStagePlan,
    l: &Located,
    place: u64,
    ms: &Vec<Found>,
    vals: &Vec<Option<i64>>,
    bound: i64,
) -> (r: Option<Vec<Vec<u64>>>)
    requires
        p.s1.hops@.len() == 1,
        p.s2_hops@.len() == 2,
        p.tail is Core,
        vals@.len() == ms@.len(),
    ensures
        match r {
            Some(rows) => if ms@.len() == 0 {
                rows@.len() == 0
            } else {
                columns_of(p.v(), l.v()) matches Some(c) && rows_v(rows@) == below_rows(
                    width_of(p.v()),
                    c,
                    place,
                    ms@,
                    vals@,
                    bound,
                    ms@.len(),
                )
            },
            None => ms@.len() > 0 && columns_of(p.v(), l.v()) is None,
        },
{
    let mut r: Vec<Vec<u64>> = Vec::new();
    if ms.len() == 0 {
        return Some(r);
    }
    assert(p.v().s1.hops[0] == p.s1.hops@[0].v());
    assert(p.v().s2_hops[0] == p.s2_hops@[0].v());
    assert(p.v().s2_hops[1] == p.s2_hops@[1].v());
    let core = match &p.tail {
        StageTail::Core(core) => core,
        _ => {
            return None;
        },
    };
    let vars = &core.chain.vars;
    let (a, b, c, d) = match (
        name_index(vars, &p.s1.hops[0].var),
        name_index(vars, &l.rel),
        name_index(vars, &p.s2_hops[0].var),
        name_index(vars, &p.s2_hops[1].var),
    ) {
        (Some(a), Some(b), Some(c), Some(d)) => (a, b, c, d),
        _ => {
            return None;
        },
    };
    let ghost cols = columns_of(p.v(), l.v())->0;
    let ghost width = width_of(p.v());
    let n = vars.len();
    let mut i: usize = 0;
    assert(rows_v(r@) =~= Seq::empty());
    while i < ms.len()
        invariant
            i <= ms@.len(),
            vals@.len() == ms@.len(),
            n == width,
            a < n,
            b < n,
            c < n,
            d < n,
            cols == (Columns { start: a as int, rel: b as int, node: c as int, place: d as int }),
            rows_v(r@) == below_rows(width, cols, place, ms@, vals@, bound, i as nat),
        decreases ms.len() - i,
    {
        let ghost r0 = r@;
        let keep = match vals[i] {
            Some(x) => x < bound,
            None => false,
        };
        if keep {
            let m = ms[i];
            let mut row = repeat_id(NULL_ID, n);
            row.set(a, m.start);
            row.set(b, m.rel);
            row.set(c, m.node);
            row.set(d, place);
            assert(row@ =~= found_row(width, cols, place, m));
            r.push(row);
            assert(rows_v(r@) =~= rows_v(r0).push(row@));
        }
        i = i + 1;
    }
    Some(r)
}

} // verus!
