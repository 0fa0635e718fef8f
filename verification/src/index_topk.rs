//! The newest ends of a hop, found by walking an index from its newest entry.

use std::collections::BTreeSet;

use vstd::prelude::*;

use crate::ast::{Expr, ExprV, Op};
use crate::carry::{own_prop, prop_of, StageTail, StageTailV};
use crate::chunk::DataChunk;
use crate::graph;
use crate::graph::{Adj, Dir, Graph, VarKind};
use crate::multistage::{MultiStagePlan, MultiV};
use crate::names;
use crate::names::copy_names;
use crate::ordered::{compared, compared_to};
use crate::plan;
use crate::plan::resolve_order_key_alias;
use crate::seqs;
use crate::table;
use crate::table::{chunk_of, push_row};
use crate::tally::{lemma_occurs_concat, occurs};

verus! {

broadcast use {vstd::std_specs::btree::group_btree_axioms, vstd::laws_cmp::group_laws_cmp};

/// What is read off an index that orders the ends of a hop.
pub struct IndexTopkV {
    pub types: Seq<Seq<char>>,
    /// The way from an end back to the carried variable.
    pub dir: Dir,
    pub order_prop: Seq<char>,
    pub tie_prop: Seq<char>,
    pub bound: ExprV,
    pub limit: ExprV,
}

/// What is read off an index that orders the ends of a hop.
#[derive(Debug)]
pub struct IndexTopkPlan {
    pub types: Vec<String>,
    pub dir: Dir,
    pub order_prop: String,
    pub tie_prop: String,
    pub bound: Expr,
    pub limit: Expr,
}

impl IndexTopkPlan {
    pub open spec fn v(self) -> IndexTopkV {
        IndexTopkV {
            types: names::of(self.types@),
            dir: self.dir,
            order_prop: self.order_prop@,
            tie_prop: self.tie_prop@,
            bound: self.bound.v(),
            limit: self.limit.v(),
        }
    }
}

/// A plan that may be missing.
pub open spec fn topk_opt(p: Option<IndexTopkPlan>) -> Option<IndexTopkV> {
    match p {
        Some(p) => Some(p.v()),
        None => None,
    }
}

/// What an index can answer of a second stage: one hop from the one carried
/// variable, each of whose nodes comes once, to a new end, the ends below a bound and the first of them by that
/// property downwards and by another upwards.
pub open spec fn index_topk_of(p: MultiV) -> Option<IndexTopkV> {
    match p.tail {
        StageTailV::Core(core) => {
            let vars = core.chain.vars;
            let proj = core.proj;
            if !p.distinct || p.carried.len() != 1 || p.s2_hops.len() != 1 {
                None
            } else {
                let h = p.s2_hops[0];
                if h.varlen is Some || h.rel_var is Some || h.tgt is Some || h.types.len() == 0
                    || h.src != 0 || vars.len() < 2 || vars[1] != h.var || proj.distinct
                    || proj.star || proj.skip is Some || proj.order.len() != 2 || proj.limit is None
                    || !proj.order[0].descending || proj.order[1].descending || p.s2_wheres.len()
                    != 1 {
                    None
                } else {
                    match (
                        prop_of(plan::resolved(proj.order[0].expr, vars, proj.items), vars[1]),
                        prop_of(plan::resolved(proj.order[1].expr, vars, proj.items), vars[1]),
                        compared(p.s2_wheres[0].expr, Op::Lt, vars[1]),
                    ) {
                        (Some(order_prop), Some(tie_prop), Some((k, bound))) => if k
                            == order_prop {
                            Some(
                                IndexTopkV {
                                    types: h.types,
                                    dir: h.dir.flip(),
                                    order_prop,
                                    tie_prop,
                                    bound,
                                    limit: proj.limit->0,
                                },
                            )
                        } else {
                            None
                        },
                        _ => None,
                    }
                }
            }
        },
        _ => None,
    }
}

/// What an index can answer of a second stage.
pub fn recognise_index_topk(p: &MultiStagePlan) -> (r: Option<IndexTopkPlan>)
    ensures
        topk_opt(r) == index_topk_of(p.v()),
{
    let core = match &p.tail {
        StageTail::Core(core) => core,
        _ => {
            return None;
        },
    };
    if !p.distinct || p.carried.len() != 1 || p.s2_hops.len() != 1 {
        return None;
    }
    let h = &p.s2_hops[0];
    assert(p.v().s2_hops[0] == h.v());
    let vars = &core.chain.vars;
    let proj = &core.proj;
    if h.varlen.is_some() || h.rel_var.is_some() || h.tgt.is_some() || h.types.len() == 0 || h.src
        != 0 || vars.len() < 2 {
        return None;
    }
    assert(names::of(vars@)[1] == vars@[1]@);
    if vars[1] != h.var || proj.distinct || proj.star || proj.skip.is_some() || proj.order.len()
        != 2 {
        return None;
    }
    assert(proj.v().order[0] == proj.order@[0].v());
    assert(proj.v().order[1] == proj.order@[1].v());
    if !proj.order[0].descending || proj.order[1].descending || p.s2_wheres.len() != 1 {
        return None;
    }
    assert(p.v().s2_wheres[0] == p.s2_wheres@[0].v());
    let limit = match &proj.limit {
        Some(e) => e.copy(),
        None => {
            return None;
        },
    };
    let first = resolve_order_key_alias(&proj.order[0].expr, vars, proj);
    let second = resolve_order_key_alias(&proj.order[1].expr, vars, proj);
    match (
        own_prop(&first, &vars[1]),
        own_prop(&second, &vars[1]),
        compared_to(&p.s2_wheres[0].expr, Op::Lt, &vars[1]),
    ) {
        (Some(a), Some(b), Some((k, bound))) => {
            if *k != *a {
                return None;
            }
            Some(
                IndexTopkPlan {
                    types: copy_names(&h.types),
                    dir: h.dir.flipped(),
                    order_prop: a.clone(),
                    tie_prop: b.clone(),
                    bound: bound.copy(),
                    limit,
                },
            )
        },
        _ => None,
    }
}

/// How many entries of an index may be walked: eight for each carried node, and
/// at least sixty-four for each row that is asked for.
pub open spec fn scan_budget_of(nodes: int, limit: int) -> int {
    let a = nodes * 8;
    let b = limit * 64;
    let n = if a >= b {
        a
    } else {
        b
    };
    if n <= usize::MAX {
        n
    } else {
        usize::MAX as int
    }
}

/// How many entries of an index may be walked.
pub fn scan_budget(nodes: usize, limit: usize) -> (n: usize)
    ensures
        n == scan_budget_of(nodes as int, limit as int),
{
    let a: u128 = nodes as u128 * 8;
    let b: u128 = limit as u128 * 64;
    let m: u128 = if a >= b {
        a
    } else {
        b
    };
    if m <= usize::MAX as u128 {
        m as usize
    } else {
        usize::MAX
    }
}

/// The nodes that a variable takes in the live rows.
pub fn carried_set(c: &DataChunk, vi: usize) -> (r: BTreeSet<u64>)
    requires
        c.wf(),
        vi < c.ids@.len(),
    ensures
        forall|x: u64| #[trigger]
            r@.contains(x) <==> exists|k: int|
                0 <= k < c.live_view().len() && (#[trigger] c.live_view()[k]).ids[vi as int] == x,
{
    let ghost live = c.live_view();
    let mut r: BTreeSet<u64> = BTreeSet::new();
    let mut k: usize = 0;
    while k < c.selection.len()
        invariant
            k <= c.selection@.len(),
            c.wf(),
            vi < c.ids@.len(),
            live == c.live_view(),
            forall|x: u64| #[trigger]
                r@.contains(x) <==> exists|j: int|
                    0 <= j < k && (#[trigger] live[j]).ids[vi as int] == x,
        decreases c.selection.len() - k,
    {
        let i = c.selection[k];
        assert(c.selection@[k as int] < c.rows());
        assert(c.ids@[vi as int]@.len() == c.rows());
        let ghost r0 = r@;
        r.insert(c.ids[vi][i]);
        proof {
            assert(live[k as int].ids[vi as int] == c.ids@[vi as int]@[i as int]);
            assert forall|x: u64| #[trigger] r@.contains(x) <==> exists|j: int|
                0 <= j < k + 1 && (#[trigger] live[j]).ids[vi as int] == x by {
                assert(r0.contains(x) <==> exists|j: int|
                    0 <= j < k && (#[trigger] live[j]).ids[vi as int] == x);
            }
        }
        k = k + 1;
    }
    r
}

/// The rows of an end: one for each relationship that leads back from it to a
/// carried node.
pub open spec fn end_rows(
    g: Graph,
    dir: Dir,
    tokens: Option<Seq<u32>>,
    set: Set<u64>,
    n: u64,
) -> Seq<Seq<u64>> {
    seqs::keep_map(
        g.adj(n, dir, tokens),
        |e: Adj| set.contains(e.peer),
        |e: Adj| seq![e.peer, n],
    )
}

/// The rows of ends that have the labels of the hop, end by end.
pub open spec fn owned_rows(
    g: Graph,
    dir: Dir,
    tokens: Option<Seq<u32>>,
    members: Option<Set<u64>>,
    set: Set<u64>,
    ns: Seq<u64>,
) -> Seq<Seq<u64>>
    decreases ns.len(),
{
    if ns.len() == 0 {
        Seq::empty()
    } else {
        owned_rows(g, dir, tokens, members, set, ns.drop_last()) + if graph::is_member(
            members,
            ns.last(),
        ) {
            end_rows(g, dir, tokens, set, ns.last())
        } else {
            Seq::empty()
        }
    }
}

fn push_end(
    g: &Graph,
    dir: Dir,
    tokens: &Option<Vec<u32>>,
    set: &BTreeSet<u64>,
    n: u64,
    cols: &mut Vec<Vec<u64>>,
)
    requires
        old(cols)@.len() == 2,
        table::aligned(old(cols)@),
    ensures
        final(cols)@.len() == 2,
        table::aligned(final(cols)@),
        table::rows_of(final(cols)@) == table::rows_of(old(cols)@) + end_rows(
            *g,
            dir,
            graph::tokens_view(*tokens),
            set@,
            n,
        ),
{
    let es = g.adjacent(n, dir, tokens);
    let ghost keep = |e: Adj| set@.contains(e.peer);
    let ghost make = |e: Adj| seq![e.peer, n];
    let ghost before = table::rows_of(cols@);
    let mut i: usize = 0;
    proof {
        seqs::lemma_keep_map_empty(es@, keep, make);
        assert(before + Seq::<Seq<u64>>::empty() =~= before);
    }
    while i < es.len()
        invariant
            i <= es@.len(),
            keep == (|e: Adj| set@.contains(e.peer)),
            make == (|e: Adj| seq![e.peer, n]),
            cols@.len() == 2,
            table::aligned(cols@),
            table::rows_of(cols@) == before + seqs::keep_map(es@.take(i as int), keep, make),
        decreases es.len() - i,
    {
        let ghost done = seqs::keep_map(es@.take(i as int), keep, make);
        proof {
            seqs::lemma_keep_map_take(es@, i as int, keep, make);
        }
        if set.contains(&es[i].peer) {
            assert(keep(es@[i as int]));
            let mut row: Vec<u64> = Vec::new();
            row.push(es[i].peer);
            row.push(n);
            assert(row@ =~= make(es@[i as int]));
            push_row(cols, &row);
            assert((before + done).push(row@) =~= before + done.push(row@));
        } else {
            assert(!keep(es@[i as int]));
        }
        i = i + 1;
    }
    assert(es@.take(i as int) =~= es@);
}

/// The chunk of ends that have the labels of the hop, each with every carried
/// node that it leads back to.
pub fn try_index_topk(
    g: &Graph,
    dir: Dir,
    tokens: &Option<Vec<u32>>,
    members: Option<&BTreeSet<u64>>,
    set: &BTreeSet<u64>,
    ns: &Vec<u64>,
    vars: Vec<String>,
    kinds: Vec<VarKind>,
) -> (c: DataChunk)
    requires
        vars@.len() == 2,
        kinds@.len() == 2,
    ensures
        c.wf(),
        c.vars@ == vars@,
        c.var_kinds@ == kinds@,
        c.live_view() == table::plain_rows(
            owned_rows(
                *g,
                dir,
                graph::tokens_view(*tokens),
                graph::members_view(members),
                set@,
                ns@,
            ),
        ),
{
    let ghost tv = graph::tokens_view(*tokens);
    let ghost mv = graph::members_view(members);
    let mut cols: Vec<Vec<u64>> = Vec::new();
    cols.push(Vec::new());
    cols.push(Vec::new());
    let mut i: usize = 0;
    proof {
        assert(ns@.take(0) =~= Seq::empty());
        assert(table::rows_of(cols@) =~= Seq::empty());
    }
    while i < ns.len()
        invariant
            i <= ns@.len(),
            tv == graph::tokens_view(*tokens),
            mv == graph::members_view(members),
            cols@.len() == 2,
            table::aligned(cols@),
            table::rows_of(cols@) == owned_rows(*g, dir, tv, mv, set@, ns@.take(i as int)),
        decreases ns.len() - i,
    {
        proof {
            seqs::lemma_take_last(ns@, i as int);
        }
        let ghost rows = table::rows_of(cols@);
        assert(rows + Seq::<Seq<u64>>::empty() =~= rows);
        let has = match members {
            Some(m) => m.contains(&ns[i]),
            None => true,
        };
        if has {
            push_end(g, dir, tokens, set, ns[i], &mut cols);
        }
        i = i + 1;
    }
    assert(ns@.take(i as int) =~= ns@);
    chunk_of(vars, kinds, cols)
}

proof fn lemma_end_rows(es: Seq<Adj>, set: Set<u64>, n: u64, f: u64, x: u64)
    requires
        set.contains(f),
    ensures
        occurs(
            seqs::keep_map(es, |e: Adj| set.contains(e.peer), |e: Adj| seq![e.peer, n]),
            seq![f, x],
        ) == if n == x {
            graph::closing(es, f, Seq::empty())
        } else {
            0
        },
    decreases es.len(),
{
    let keep = |e: Adj| set.contains(e.peer);
    let make = |e: Adj| seq![e.peer, n];
    if es.len() == 0 {
        seqs::lemma_filter_empty(keep);
        assert(es =~= Seq::empty());
        assert(seqs::keep_map(es, keep, make) =~= Seq::empty());
    } else {
        let p = es.drop_last();
        let e = es.last();
        lemma_end_rows(p, set, n, f, x);
        seqs::lemma_filter_last(es, keep);
        let before = seqs::keep_map(p, keep, make);
        assert(make(e)[0] == e.peer && make(e)[1] == n);
        assert(seq![f, x][0] == f && seq![f, x][1] == x);
        if make(e) == seq![f, x] {
            assert(make(e)[0] == seq![f, x][0] && make(e)[1] == seq![f, x][1]);
        }
        if e.peer == f && n == x {
            assert(make(e) =~= seq![f, x]);
        }
        if keep(e) {
            assert(seqs::keep_map(es, keep, make) =~= before.push(make(e)));
            assert(before.push(make(e)).drop_last() =~= before);
        } else {
            assert(seqs::keep_map(es, keep, make) =~= before);
        }
    }
}

/// Reading ends off an index finds what the hop finds: a carried node comes with
/// an end that is walked, and that has the labels of the hop, once for each
/// relationship that the hop takes between them, and with no other.
pub proof fn law_index_finds_the_hop(
    g: Graph,
    dir: Dir,
    tokens: Option<Seq<u32>>,
    members: Option<Set<u64>>,
    set: Set<u64>,
    ns: Seq<u64>,
    f: u64,
    x: u64,
)
    requires
        g.wf(),
        set.contains(f),
        ns.no_duplicates(),
    ensures
        occurs(owned_rows(g, dir, tokens, members, set, ns), seq![f, x]) == if ns.contains(x)
            && graph::is_member(members, x) {
            graph::closing(g.adj(f, dir.flip(), tokens), x, Seq::empty())
        } else {
            0
        },
    decreases ns.len(),
{
    if ns.len() > 0 {
        let p = ns.drop_last();
        let n = ns.last();
        assert(ns =~= p.push(n));
        assert forall|i: int, j: int| 0 <= i < p.len() && 0 <= j < p.len() && i != j implies p[i]
            != p[j] by {
            assert(ns[i] != ns[j]);
        }
        law_index_finds_the_hop(g, dir, tokens, members, set, p, f, x);
        seqs::lemma_push_contains(p, n, x);
        if p.contains(n) {
            let k = choose|k: int| 0 <= k < p.len() && p[k] == n;
            assert(ns[k] != ns[ns.len() - 1]);
        }
        let rows = owned_rows(g, dir, tokens, members, set, p);
        let more = end_rows(g, dir, tokens, set, n);
        lemma_occurs_concat(rows, more, seq![f, x]);
        assert(rows + Seq::<Seq<u64>>::empty() =~= rows);
        lemma_end_rows(g.adj(n, dir, tokens), set, n, f, x);
        graph::law_bound_probe(g, n, f, dir, tokens, Seq::empty());
    }
}

} // verus!
