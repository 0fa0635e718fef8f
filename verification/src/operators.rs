//! Closing hops, reachability, filters and the projection at a stage boundary.

use std::collections::BTreeSet;
use vstd::prelude::*;

use crate::chunk;
use crate::chunk::{extend_names, DataChunk, HopV, RowSink, RowV};
use crate::graph;
use crate::graph::{member_admits, Adj, Dir, Graph, RunError, VarKind};
use crate::names;
use crate::names::{copy_ids, has_id};
use crate::seqs;

verus! {

broadcast use {vstd::std_specs::btree::group_btree_axioms, vstd::laws_cmp::group_laws_cmp};

impl DataChunk {
    /// Close a path onto a variable that is bound already: one row per edge
    /// from the source to the row's target, the relationship bound where
    /// `rel_var` names one.
    pub fn semijoin(
        self,
        g: &Graph,
        src_vi: usize,
        tgt_vi: usize,
        rel_var: Option<&String>,
        dir: Dir,
        tokens: &Option<Vec<u32>>,
        track: bool,
        reset: bool,
    ) -> (res: Result<DataChunk, RunError>)
        requires
            self.wf(),
            src_vi < self.ids@.len(),
            tgt_vi < self.ids@.len(),
        ensures
            ({
                let h = HopV {
                    src: src_vi as int,
                    dir,
                    tokens: graph::tokens_view(*tokens),
                    members: None,
                    track,
                    reset,
                    rel_col: rel_var is Some,
                };
                let rows = chunk::close_rows(*g, h, tgt_vi as int, self.live_view());
                match res {
                    Ok(c) => {
                        &&& !g.over_budget(rows.len() as int)
                        &&& c.wf()
                        &&& c.dense()
                        &&& c.live_view() == rows
                        &&& names::of(c.vars@) == chunk::vars_after(
                            names::of(self.vars@),
                            None,
                            chunk::opt_name(rel_var),
                        )
                        &&& c.var_kinds@ == chunk::kinds_after(
                            self.var_kinds@,
                            false,
                            rel_var is Some,
                        )
                        &&& c.used_rels@.len() == if track {
                            c.rows()
                        } else {
                            0
                        }
                        &&& self.prov@.len() == 0 ==> c.prov@.len() == 0
                        &&& self.weights@.len() == 0 ==> c.weights@.len() == 0
                        &&& self.weights@.len() > 0 && c.live_view().len() > 0 ==> c.weights@.len() > 0
                    },
                    Err(e) => e == RunError::RowBudget && g.over_budget(rows.len() as int),
                }
            }),
    {
        let ghost h = HopV {
            src: src_vi as int,
            dir,
            tokens: graph::tokens_view(*tokens),
            members: None,
            track,
            reset,
            rel_col: rel_var is Some,
        };
        let ghost live = self.live_view();
        let mut extra: Vec<u64> = Vec::new();
        if rel_var.is_some() {
            extra.push(0);
        }
        let mut sink = RowSink::new(self.ids.len(), extra.len(), track, &self);
        let mut k: usize = 0;
        proof {
            assert(live.take(0) =~= Seq::empty());
        }
        while k < self.selection.len()
            invariant
                k <= self.selection.len(),
                self.wf(),
                src_vi < self.ids@.len(),
                tgt_vi < self.ids@.len(),
                sink.wf(),
                sink.track == track,
                sink.carry_prov == (self.prov@.len() > 0),
                sink.carry_weight == (self.weights@.len() > 0),
                sink.ids@.len() == self.ids@.len() + extra@.len(),
                extra@.len() == if rel_var is Some {
                    1nat
                } else {
                    0nat
                },
                h == (HopV {
                    src: src_vi as int,
                    dir,
                    tokens: graph::tokens_view(*tokens),
                    members: None,
                    track,
                    reset,
                    rel_col: rel_var is Some,
                }),
                live == self.live_view(),
                sink.rows() == chunk::close_rows(*g, h, tgt_vi as int, live.take(k as int)),
                !g.over_budget(sink.len() as int),
            decreases self.selection.len() - k,
        {
            let r = self.selection[k];
            assert(self.selection@[k as int] < self.rows());
            assert(self.ids@[src_vi as int]@.len() == self.rows());
            assert(self.ids@[tgt_vi as int]@.len() == self.rows());
            let want = self.ids[tgt_vi][r];
            let ghost row = self.row(r as int);
            let ghost base = chunk::base_of(row, track, reset);
            let ghost keep = |e: Adj| chunk::close_keeps(h, want, base, e);
            let ghost make = |e: Adj| chunk::close_makes(h, row, base, e);
            let base_ids: Vec<u64> = if track && !reset && self.used_rels.len() > 0 {
                copy_ids(&self.used_rels[r])
            } else {
                Vec::new()
            };
            assert(base_ids@ =~= base);
            let es = g.adjacent(self.ids[src_vi][r], dir, tokens);
            let ghost rev = es@.reverse();
            let ghost before = sink.rows();
            let mut i: usize = 0;
            proof {
                seqs::lemma_keep_map_empty(rev, keep, make);
                assert(before + Seq::<RowV>::empty() =~= before);
            }
            while i < es.len()
                invariant
                    i <= es.len(),
                    self.wf(),
                    r < self.rows(),
                    row == self.row(r as int),
                    base_ids@ == base,
                    keep == (|e: Adj| chunk::close_keeps(h, want, base, e)),
                    make == (|e: Adj| chunk::close_makes(h, row, base, e)),
                    h.track == track,
                    h.rel_col == (rel_var is Some),
                    rev == es@.reverse(),
                    sink.wf(),
                    sink.track == track,
                    sink.carry_prov == (self.prov@.len() > 0),
                    sink.carry_weight == (self.weights@.len() > 0),
                    sink.ids@.len() == self.ids@.len() + extra@.len(),
                    extra@.len() == if rel_var is Some {
                        1nat
                    } else {
                        0nat
                    },
                    sink.rows() == before + seqs::keep_map(rev.take(i as int), keep, make),
                decreases es.len() - i,
            {
                let e = es[es.len() - 1 - i];
                assert(rev[i as int] == e);
                proof {
                    seqs::lemma_keep_map_take(rev, i as int, keep, make);
                }
                if e.peer == want && !(track && has_id(&base_ids, e.rel)) {
                    assert(keep(e));
                    let mut used: Vec<u64> = Vec::new();
                    if rel_var.is_some() {
                        extra.set(0, e.rel);
                    }
                    if track && (rel_var.is_some() || base_ids.len() > 0) {
                        used = copy_ids(&base_ids);
                        used.push(e.rel);
                    }
                    sink.push(&self, r, &extra, used);
                    proof {
                        assert(row.ids + extra@ =~= make(e).ids);
                        if track && rel_var is None && base.len() == 0 {
                            assert(used@ =~= base);
                        }
                        assert(sink.rows() =~= before + seqs::keep_map(
                            rev.take(i + 1),
                            keep,
                            make,
                        ));
                    }
                } else {
                    assert(!keep(e));
                }
                i = i + 1;
            }
            proof {
                assert(rev.take(i as int) =~= rev);
                seqs::lemma_take_last(live, k as int);
                assert(live[k as int] == row);
                assert(sink.rows() =~= chunk::close_rows(*g, h, tgt_vi as int, live.take(k + 1)));
                chunk::lemma_close_prefix_len(*g, h, tgt_vi as int, live, k + 1);
                assert(sink.rows().len() == sink.len());
            }
            match g.budget_check(sink.ids[0].len()) {
                Ok(()) => {},
                Err(e) => {
                    return Err(e);
                },
            }
            k = k + 1;
        }
        proof {
            assert(live.take(k as int) =~= live);
            assert(sink.rows().len() == sink.len());
        }
        let (vars, kinds) = extend_names(self.vars, self.var_kinds, None, rel_var);
        Ok(sink.finish(vars, kinds))
    }
}

/// What a search has seen, has still to visit and has found.
#[verifier::ext_equal]
pub struct ReachV {
    pub seen: Set<u64>,
    pub next: Seq<u64>,
    pub found: Seq<u64>,
}

/// The search after one edge. A node counts the first time it is met; the
/// member set decides whether it is found, not whether the search goes on from it.
pub open spec fn reach_edge(s: ReachV, e: Adj, more: bool, m: Option<Set<u64>>) -> ReachV {
    if s.seen.contains(e.peer) {
        s
    } else {
        ReachV {
            seen: s.seen.insert(e.peer),
            next: if more {
                s.next.push(e.peer)
            } else {
                s.next
            },
            found: if graph::is_member(m, e.peer) {
                s.found.push(e.peer)
            } else {
                s.found
            },
        }
    }
}

/// The search after the edges of one node.
pub open spec fn reach_edges(s: ReachV, es: Seq<Adj>, more: bool, m: Option<Set<u64>>) -> ReachV
    decreases es.len(),
{
    if es.len() == 0 {
        s
    } else {
        reach_edge(reach_edges(s, es.drop_last(), more, m), es.last(), more, m)
    }
}

/// The search after a level; `None` when the rows found so far, with those
/// still to visit, are more than the budget allows.
pub open spec fn reach_level(
    g: Graph,
    h: HopV,
    produced: nat,
    s: ReachV,
    frontier: Seq<u64>,
    more: bool,
) -> Option<ReachV>
    decreases frontier.len(),
{
    if frontier.len() == 0 {
        Some(s)
    } else {
        match reach_level(g, h, produced, s, frontier.drop_last(), more) {
            None => None,
            Some(p) => if g.over_budget((produced + p.found.len() + p.next.len()) as int) {
                None
            } else {
                Some(reach_edges(p, g.adj(frontier.last(), h.dir, h.tokens), more, h.members))
            },
        }
    }
}

/// What is found from a frontier at `depth` within `max` hops.
pub open spec fn reach_from(
    g: Graph,
    h: HopV,
    produced: nat,
    seen: Set<u64>,
    found: Seq<u64>,
    frontier: Seq<u64>,
    depth: nat,
    max: nat,
) -> Option<Seq<u64>>
    decreases max - depth,
{
    if depth >= max || frontier.len() == 0 {
        Some(found)
    } else {
        match reach_level(
            g,
            h,
            produced,
            ReachV { seen, next: Seq::empty(), found },
            frontier,
            depth + 1 < max,
        ) {
            None => None,
            Some(s) => reach_from(g, h, produced, s.seen, s.found, s.next, depth + 1, max),
        }
    }
}

/// What is found from one node within `max` hops, each node once.
pub open spec fn reach(g: Graph, h: HopV, produced: nat, src: u64, max: nat) -> Option<Seq<u64>> {
    reach_from(g, h, produced, Set::empty(), Seq::empty(), seq![src], 0, max)
}

/// The row that binds a found node.
pub open spec fn reach_makes(row: RowV, v: u64) -> RowV {
    RowV { ids: row.ids.push(v), used: Seq::empty(), prov: row.prov, weight: row.weight }
}

/// The rows that a variable-length hop makes of a batch; `None` when the
/// budget refuses it.
pub open spec fn reach_rows(g: Graph, h: HopV, max: nat, rows: Seq<RowV>) -> Option<Seq<RowV>>
    decreases rows.len(),
{
    if rows.len() == 0 {
        Some(Seq::empty())
    } else {
        match reach_rows(g, h, max, rows.drop_last()) {
            None => None,
            Some(p) => match reach(g, h, p.len(), rows.last().ids[h.src], max) {
                None => None,
                Some(found) => Some(
                    p + found.map_values(|v: u64| reach_makes(rows.last(), v)),
                ),
            },
        }
    }
}

/// What a level finds does not depend on how many rows there were before.
proof fn lemma_reach_level_less(
    g: Graph,
    h: HopV,
    more: nat,
    less: nat,
    s: ReachV,
    frontier: Seq<u64>,
    on: bool,
)
    requires
        less <= more,
        reach_level(g, h, more, s, frontier, on) is Some,
    ensures
        reach_level(g, h, less, s, frontier, on) == reach_level(g, h, more, s, frontier, on),
    decreases frontier.len(),
{
    if frontier.len() > 0 {
        lemma_reach_level_less(g, h, more, less, s, frontier.drop_last(), on);
    }
}

pub proof fn lemma_reach_less(
    g: Graph,
    h: HopV,
    more: nat,
    less: nat,
    seen: Set<u64>,
    found: Seq<u64>,
    frontier: Seq<u64>,
    depth: nat,
    max: nat,
)
    requires
        less <= more,
        reach_from(g, h, more, seen, found, frontier, depth, max) is Some,
    ensures
        reach_from(g, h, less, seen, found, frontier, depth, max) == reach_from(
            g,
            h,
            more,
            seen,
            found,
            frontier,
            depth,
            max,
        ),
    decreases max - depth,
{
    if depth < max && frontier.len() > 0 {
        let s = ReachV { seen, next: Seq::empty(), found };
        let on = depth + 1 < max;
        lemma_reach_level_less(g, h, more, less, s, frontier, on);
        let t = reach_level(g, h, more, s, frontier, on)->0;
        lemma_reach_less(g, h, more, less, t.seen, t.found, t.next, depth + 1, max);
    }
}

/// What two batches reach one after the other is what they reach together: where
/// the budget allows the whole, it allows each batch, and the rows join in order.
pub proof fn law_reach_slices(g: Graph, h: HopV, max: nat, a: Seq<RowV>, b: Seq<RowV>)
    ensures
        reach_rows(g, h, max, a + b) matches Some(rows) ==> (reach_rows(g, h, max, a) matches Some(ra)
            && (reach_rows(g, h, max, b) matches Some(rb) && rows == ra + rb)),
    decreases b.len(),
{
    if b.len() == 0 {
        assert(a + b =~= a);
        if let Some(ra) = reach_rows(g, h, max, a) {
            assert(ra + Seq::<RowV>::empty() =~= ra);
        }
    } else if reach_rows(g, h, max, a + b) is Some {
        let c = b.drop_last();
        assert((a + b).drop_last() =~= a + c);
        law_reach_slices(g, h, max, a, c);
        let ra = reach_rows(g, h, max, a)->0;
        let rc = reach_rows(g, h, max, c)->0;
        let src = b.last().ids[h.src];
        lemma_reach_less(
            g,
            h,
            (ra + rc).len(),
            rc.len(),
            Set::empty(),
            Seq::empty(),
            seq![src],
            0,
            max,
        );
        let found = reach(g, h, rc.len(), src, max)->0;
        let more = found.map_values(|v: u64| reach_makes(b.last(), v));
        assert((ra + rc) + more =~= ra + (rc + more));
    }
}

impl DataChunk {
    /// Bind a new node to each node that the source reaches within `max`
    /// hops, once per source row and at its shortest distance.
    pub fn expand_var_length_bfs(
        self,
        g: &Graph,
        src_vi: usize,
        new_var: &String,
        dir: Dir,
        tokens: &Option<Vec<u32>>,
        members: Option<&BTreeSet<u64>>,
        max: u64,
    ) -> (res: Result<DataChunk, RunError>)
        requires
            self.wf(),
            src_vi < self.ids@.len(),
        ensures
            ({
                let h = HopV {
                    src: src_vi as int,
                    dir,
                    tokens: graph::tokens_view(*tokens),
                    members: graph::members_view(members),
                    track: false,
                    reset: false,
                    rel_col: false,
                };
                match (res, reach_rows(*g, h, max as nat, self.live_view())) {
                    (Ok(c), Some(rows)) => {
                        &&& c.wf()
                        &&& c.dense()
                        &&& c.live_view() == rows
                        &&& names::of(c.vars@) == names::of(self.vars@).push(new_var@)
                        &&& c.var_kinds@ == self.var_kinds@.push(VarKind::Node)
                        &&& c.used_rels@.len() == 0
                        &&& self.prov@.len() == 0 ==> c.prov@.len() == 0
                        &&& self.weights@.len() == 0 ==> c.weights@.len() == 0
                        &&& self.weights@.len() > 0 && c.live_view().len() > 0 ==> c.weights@.len() > 0
                    },
                    (Err(e), None) => e == RunError::RowBudget,
                    _ => false,
                }
            }),
    {
        let ghost h = HopV {
            src: src_vi as int,
            dir,
            tokens: graph::tokens_view(*tokens),
            members: graph::members_view(members),
            track: false,
            reset: false,
            rel_col: false,
        };
        let ghost live = self.live_view();
        let mut sink = RowSink::new(self.ids.len(), 1, false, &self);
        let mut extra: Vec<u64> = Vec::new();
        extra.push(0);
        let mut k: usize = 0;
        proof {
            assert(live.take(0) =~= Seq::empty());
        }
        while k < self.selection.len()
            invariant
                k <= self.selection.len(),
                self.wf(),
                src_vi < self.ids@.len(),
                sink.wf(),
                !sink.track,
                sink.carry_prov == (self.prov@.len() > 0),
                sink.carry_weight == (self.weights@.len() > 0),
                sink.ids@.len() == self.ids@.len() + 1,
                extra@.len() == 1,
                h == (HopV {
                    src: src_vi as int,
                    dir,
                    tokens: graph::tokens_view(*tokens),
                    members: graph::members_view(members),
                    track: false,
                    reset: false,
                    rel_col: false,
                }),
                live == self.live_view(),
                reach_rows(*g, h, max as nat, live.take(k as int)) == Some(sink.rows()),
            decreases self.selection.len() - k,
        {
            let r = self.selection[k];
            assert(self.selection@[k as int] < self.rows());
            assert(self.ids@[src_vi as int]@.len() == self.rows());
            let src = self.ids[src_vi][r];
            let ghost row = self.row(r as int);
            let ghost before = sink.rows();
            let ghost produced = before.len();
            let ghost make = |v: u64| reach_makes(row, v);
            let ghost mut found: Seq<u64> = Seq::empty();
            let mut seen: BTreeSet<u64> = BTreeSet::new();
            let mut frontier: Vec<u64> = Vec::new();
            frontier.push(src);
            let mut depth: u64 = 0;
            proof {
                seqs::lemma_take_last(live, k as int);
                assert(live[k as int] == row);
                assert(frontier@ =~= seq![src]);
                assert(before + found.map_values(make) =~= before);
                lemma_reach_none(*g, h, max as nat, live, k + 1);
            }
            while depth < max && frontier.len() > 0
                invariant
                    depth <= max,
                    self.wf(),
                    r < self.rows(),
                    row == self.row(r as int),
                    make == (|v: u64| reach_makes(row, v)),
                    produced == before.len(),
                    sink.wf(),
                    !sink.track,
                    sink.carry_prov == (self.prov@.len() > 0),
                    sink.carry_weight == (self.weights@.len() > 0),
                    sink.ids@.len() == self.ids@.len() + 1,
                    extra@.len() == 1,
                    h.dir == dir,
                    h.tokens == graph::tokens_view(*tokens),
                    h.members == graph::members_view(members),
                    sink.rows() == before + found.map_values(make),
                    reach_from(
                        *g,
                        h,
                        produced,
                        seen@,
                        found,
                        frontier@,
                        depth as nat,
                        max as nat,
                    ) == reach(*g, h, produced, src, max as nat),
                    reach(*g, h, produced, src, max as nat) is None ==> reach_rows(
                        *g,
                        h,
                        max as nat,
                        live,
                    ) is None,
                    live == self.live_view(),
                    h == (HopV {
                        src: src_vi as int,
                        dir,
                        tokens: graph::tokens_view(*tokens),
                        members: graph::members_view(members),
                        track: false,
                        reset: false,
                        rel_col: false,
                    }),
                decreases max - depth,
            {
                depth = depth + 1;
                let more = depth < max;
                let mut next: Vec<u64> = Vec::new();
                let ghost start = ReachV { seen: seen@, next: Seq::empty(), found };
                let mut f: usize = 0;
                proof {
                    assert(frontier@.take(0) =~= Seq::empty());
                }
                while f < frontier.len()
                    invariant
                        f <= frontier.len(),
                        depth <= max,
                        self.wf(),
                        r < self.rows(),
                        row == self.row(r as int),
                        make == (|v: u64| reach_makes(row, v)),
                        produced == before.len(),
                        sink.wf(),
                        !sink.track,
                        sink.carry_prov == (self.prov@.len() > 0),
                        sink.carry_weight == (self.weights@.len() > 0),
                        sink.ids@.len() == self.ids@.len() + 1,
                        extra@.len() == 1,
                        h.dir == dir,
                        h.tokens == graph::tokens_view(*tokens),
                        h.members == graph::members_view(members),
                        sink.rows() == before + found.map_values(make),
                        reach_level(*g, h, produced, start, frontier@.take(f as int), more) == Some(
                            ReachV { seen: seen@, next: next@, found },
                        ),
                        reach_level(*g, h, produced, start, frontier@, more) is None ==> reach_rows(
                            *g,
                            h,
                            max as nat,
                            live,
                        ) is None,
                        live == self.live_view(),
                        h == (HopV {
                            src: src_vi as int,
                            dir,
                            tokens: graph::tokens_view(*tokens),
                            members: graph::members_view(members),
                            track: false,
                            reset: false,
                            rel_col: false,
                        }),
                    decreases frontier.len() - f,
                {
                    proof {
                        seqs::lemma_take_last(frontier@, f as int);
                        assert(sink.rows().len() == sink.len());
                        assert(sink.rows().len() == produced + found.len());
                        lemma_level_none(*g, h, produced, start, frontier@, more, f + 1);
                    }
                    match g.budget_check_sum(sink.ids[0].len(), next.len()) {
                        Ok(()) => {},
                        Err(e) => {
                            return Err(e);
                        },
                    }
                    let es = g.adjacent(frontier[f], dir, tokens);
                    let ghost at = ReachV { seen: seen@, next: next@, found };
                    let mut i: usize = 0;
                    proof {
                        assert(es@.take(0) =~= Seq::empty());
                    }
                    while i < es.len()
                        invariant
                            i <= es.len(),
                            self.wf(),
                            r < self.rows(),
                            row == self.row(r as int),
                            make == (|v: u64| reach_makes(row, v)),
                            sink.wf(),
                            !sink.track,
                            sink.carry_prov == (self.prov@.len() > 0),
                            sink.carry_weight == (self.weights@.len() > 0),
                            sink.ids@.len() == self.ids@.len() + 1,
                            extra@.len() == 1,
                            h.members == graph::members_view(members),
                            sink.rows() == before + found.map_values(make),
                            reach_edges(at, es@.take(i as int), more, h.members) == (ReachV {
                                seen: seen@,
                                next: next@,
                                found,
                            }),
                        decreases es.len() - i,
                    {
                        proof {
                            seqs::lemma_take_last(es@, i as int);
                        }
                        let v = es[i].peer;
                        let ghost seen0 = seen@;
                        if seen.insert(v) {
                            if more {
                                next.push(v);
                            }
                            if member_admits(members, v) {
                                extra.set(0, v);
                                sink.push(&self, r, &extra, Vec::new());
                                proof {
                                    assert(row.ids + extra@ =~= row.ids.push(v));
                                    assert(sink.rows() =~= before + found.push(v).map_values(make));
                                    found = found.push(v);
                                }
                            }
                        } else {
                            assert(seen@ =~= seen0);
                        }
                        i = i + 1;
                    }
                    proof {
                        assert(es@.take(i as int) =~= es@);
                    }
                    f = f + 1;
                }
                proof {
                    assert(frontier@.take(f as int) =~= frontier@);
                }
                frontier = next;
            }
            proof {
                assert(reach(*g, h, produced, src, max as nat) == Some(found));
                assert(live.take(k + 1).last() == row);
                assert(reach_rows(*g, h, max as nat, live.take(k + 1)) == Some(sink.rows()));
            }
            k = k + 1;
        }
        proof {
            assert(live.take(k as int) =~= live);
        }
        let (vars, kinds) = extend_names(self.vars, self.var_kinds, Some(new_var), None);
        Ok(sink.finish(vars, kinds))
    }
}

/// A prefix that the budget refuses is refused whole.
proof fn lemma_reach_none(g: Graph, h: HopV, max: nat, rows: Seq<RowV>, i: int)
    requires
        0 <= i <= rows.len(),
    ensures
        reach_rows(g, h, max, rows.take(i)) is None ==> reach_rows(g, h, max, rows) is None,
    decreases rows.len() - i,
{
    if i == rows.len() {
        assert(rows.take(i) =~= rows);
    } else {
        seqs::lemma_take_last(rows, i);
        lemma_reach_none(g, h, max, rows, i + 1);
    }
}

proof fn lemma_level_none(
    g: Graph,
    h: HopV,
    produced: nat,
    s: ReachV,
    frontier: Seq<u64>,
    more: bool,
    i: int,
)
    requires
        0 <= i <= frontier.len(),
    ensures
        reach_level(g, h, produced, s, frontier.take(i), more) is None ==> reach_level(
            g,
            h,
            produced,
            s,
            frontier,
            more,
        ) is None,
    decreases frontier.len() - i,
{
    if i == frontier.len() {
        assert(frontier.take(i) =~= frontier);
    } else {
        seqs::lemma_take_last(frontier, i);
        lemma_level_none(g, h, produced, s, frontier, more, i + 1);
    }
}

} // verus!
