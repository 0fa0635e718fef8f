//! The columnar batch of bindings and the operators that widen, close and
//! narrow it.

use std::collections::BTreeSet;
use vstd::prelude::*;

use crate::graph;
use crate::graph::{member_admits, Adj, Dir, Graph, RunError, VarKind, NULL_ID};
use crate::names;
use crate::names::{
    copy_ids, copy_names, empty_lists, has_id, index_range, name_index, repeat_id,
};
use crate::seqs;

verus! {

broadcast use {vstd::std_specs::btree::group_btree_axioms, vstd::laws_cmp::group_laws_cmp};

/// A batch of bindings: one id column per bound variable, and the rows that
/// are still live.
#[derive(Debug)]
pub struct DataChunk {
    /// Bound variables, in binding order.
    pub vars: Vec<String>,
    /// Whether each variable is a node or a relationship.
    pub var_kinds: Vec<VarKind>,
    /// `ids[v][r]`: the id that variable `v` has in row `r`.
    pub ids: Vec<Vec<u64>>,
    /// The live rows, in production order.
    pub selection: Vec<usize>,
    /// Per row, the relationships its current path has used; empty when no
    /// path tracks them.
    pub used_rels: Vec<Vec<u64>>,
    /// Per row, the outer row it descends from; empty outside a left join.
    pub prov: Vec<usize>,
    /// Per row, how many matches it stands for; empty when each stands for one.
    pub weights: Vec<u64>,
}

/// One row of a chunk.
#[verifier::ext_equal]
pub struct RowV {
    pub ids: Seq<u64>,
    pub used: Seq<u64>,
    pub prov: Option<usize>,
    pub weight: u64,
}

/// The row at one index of the columns that make up a chunk.
pub open spec fn row_at(
    ids: Seq<Vec<u64>>,
    used: Seq<Vec<u64>>,
    prov: Seq<usize>,
    weights: Seq<u64>,
    r: int,
) -> RowV {
    RowV {
        ids: Seq::new(ids.len(), |c: int| ids[c]@[r]),
        used: if used.len() == 0 {
            Seq::empty()
        } else {
            used[r]@
        },
        prov: if prov.len() == 0 {
            None
        } else {
            Some(prov[r])
        },
        weight: if weights.len() == 0 {
            1
        } else {
            weights[r]
        },
    }
}

/// How many rows the columns hold.
pub open spec fn column_len(ids: Seq<Vec<u64>>) -> nat {
    if ids.len() == 0 {
        0
    } else {
        ids[0]@.len()
    }
}

impl DataChunk {
    /// How many rows the columns hold, live or not.
    pub open spec fn rows(self) -> nat {
        column_len(self.ids@)
    }

    /// The columns agree on the row count and the live rows are rows.
    pub open spec fn wf(self) -> bool {
        &&& self.vars@.len() == self.ids@.len()
        &&& self.var_kinds@.len() == self.ids@.len()
        &&& forall|c: int| 0 <= c < self.ids@.len() ==> (#[trigger] self.ids@[c])@.len() == self.rows()
        &&& forall|k: int| 0 <= k < self.selection@.len() ==> #[trigger] self.selection@[k] < self.rows()
        &&& self.used_rels@.len() == 0 || self.used_rels@.len() == self.rows()
        &&& self.prov@.len() == 0 || self.prov@.len() == self.rows()
        &&& self.weights@.len() == 0 || self.weights@.len() == self.rows()
    }

    /// The row at an index.
    pub open spec fn row(self, r: int) -> RowV {
        row_at(self.ids@, self.used_rels@, self.prov@, self.weights@, r)
    }

    /// The live rows, in production order.
    pub open spec fn live_view(self) -> Seq<RowV> {
        Seq::new(self.selection@.len(), |k: int| self.row(self.selection@[k] as int))
    }

    /// Every row is live, in row order.
    pub open spec fn dense(self) -> bool {
        self.selection@ == names::upto(self.rows())
    }
}

/// The relationships a row's walk has already used when a hop starts.
pub open spec fn base_of(row: RowV, track: bool, reset: bool) -> Seq<u64> {
    if track && !reset {
        row.used
    } else {
        Seq::empty()
    }
}

/// What a hop does, apart from the graph and the row.
pub struct HopV {
    pub src: int,
    pub dir: Dir,
    pub tokens: Option<Seq<u32>>,
    pub members: Option<Set<u64>>,
    pub track: bool,
    pub reset: bool,
    pub rel_col: bool,
}

/// Whether an expand takes an edge.
pub open spec fn expand_keeps(h: HopV, base: Seq<u64>, e: Adj) -> bool {
    graph::is_member(h.members, e.peer) && !(h.track && base.contains(e.rel))
}

/// The row that an expand makes of an edge.
pub open spec fn expand_makes(h: HopV, row: RowV, base: Seq<u64>, e: Adj) -> RowV {
    RowV {
        ids: if h.rel_col {
            row.ids.push(e.peer).push(e.rel)
        } else {
            row.ids.push(e.peer)
        },
        used: if h.track {
            base.push(e.rel)
        } else {
            Seq::empty()
        },
        prov: row.prov,
        weight: row.weight,
    }
}

/// The rows that an expand makes of one row: its source's edges from last to first.
pub open spec fn expand_row(g: Graph, h: HopV, row: RowV) -> Seq<RowV> {
    let base = base_of(row, h.track, h.reset);
    seqs::keep_map(
        g.adj(row.ids[h.src], h.dir, h.tokens).reverse(),
        |e: Adj| expand_keeps(h, base, e),
        |e: Adj| expand_makes(h, row, base, e),
    )
}

/// The rows that an expand makes of a batch, row by row.
pub open spec fn expand_rows(g: Graph, h: HopV, rows: Seq<RowV>) -> Seq<RowV>
    decreases rows.len(),
{
    if rows.len() == 0 {
        Seq::empty()
    } else {
        expand_rows(g, h, rows.drop_last()) + expand_row(g, h, rows.last())
    }
}

/// Whether a close takes an edge.
pub open spec fn close_keeps(h: HopV, want: u64, base: Seq<u64>, e: Adj) -> bool {
    e.peer == want && !(h.track && base.contains(e.rel))
}

/// The row that a close makes of an edge. A close that binds no relationship
/// and starts from an empty base leaves the base empty.
pub open spec fn close_makes(h: HopV, row: RowV, base: Seq<u64>, e: Adj) -> RowV {
    RowV {
        ids: if h.rel_col {
            row.ids.push(e.rel)
        } else {
            row.ids
        },
        used: if !h.track {
            Seq::empty()
        } else if !h.rel_col && base.len() == 0 {
            base
        } else {
            base.push(e.rel)
        },
        prov: row.prov,
        weight: row.weight,
    }
}

/// The rows that a close onto column `tgt` makes of one row.
pub open spec fn close_row(g: Graph, h: HopV, tgt: int, row: RowV) -> Seq<RowV> {
    let base = base_of(row, h.track, h.reset);
    seqs::keep_map(
        g.adj(row.ids[h.src], h.dir, h.tokens).reverse(),
        |e: Adj| close_keeps(h, row.ids[tgt], base, e),
        |e: Adj| close_makes(h, row, base, e),
    )
}

/// The rows that a close makes of a batch, row by row.
pub open spec fn close_rows(g: Graph, h: HopV, tgt: int, rows: Seq<RowV>) -> Seq<RowV>
    decreases rows.len(),
{
    if rows.len() == 0 {
        Seq::empty()
    } else {
        close_rows(g, h, tgt, rows.drop_last()) + close_row(g, h, tgt, rows.last())
    }
}

/// Expanding two batches one after the other is expanding them together, so
/// slices of the driving rows may be expanded apart and joined in order.
pub proof fn law_expand_slices(g: Graph, h: HopV, a: Seq<RowV>, b: Seq<RowV>)
    ensures
        expand_rows(g, h, a + b) == expand_rows(g, h, a) + expand_rows(g, h, b),
    decreases b.len(),
{
    if b.len() == 0 {
        assert(a + b =~= a);
        assert(expand_rows(g, h, a) + expand_rows(g, h, b) =~= expand_rows(g, h, a));
    } else {
        assert((a + b).drop_last() =~= a + b.drop_last());
        law_expand_slices(g, h, a, b.drop_last());
        assert(expand_rows(g, h, a + b) =~= expand_rows(g, h, a) + expand_rows(g, h, b));
    }
}

/// Closing two batches one after the other is closing them together.
pub proof fn law_close_slices(g: Graph, h: HopV, tgt: int, a: Seq<RowV>, b: Seq<RowV>)
    ensures
        close_rows(g, h, tgt, a + b) == close_rows(g, h, tgt, a) + close_rows(g, h, tgt, b),
    decreases b.len(),
{
    if b.len() == 0 {
        assert(a + b =~= a);
        assert(close_rows(g, h, tgt, a) + close_rows(g, h, tgt, b) =~= close_rows(g, h, tgt, a));
    } else {
        assert((a + b).drop_last() =~= a + b.drop_last());
        law_close_slices(g, h, tgt, a, b.drop_last());
        assert(close_rows(g, h, tgt, a + b) =~= close_rows(g, h, tgt, a) + close_rows(
            g,
            h,
            tgt,
            b,
        ));
    }
}

proof fn lemma_expand_prefix_len(g: Graph, h: HopV, rows: Seq<RowV>, i: int)
    requires
        0 <= i <= rows.len(),
    ensures
        expand_rows(g, h, rows.take(i)).len() <= expand_rows(g, h, rows).len(),
{
    law_expand_slices(g, h, rows.take(i), rows.skip(i));
    assert(rows.take(i) + rows.skip(i) =~= rows);
}

pub proof fn lemma_close_prefix_len(g: Graph, h: HopV, tgt: int, rows: Seq<RowV>, i: int)
    requires
        0 <= i <= rows.len(),
    ensures
        close_rows(g, h, tgt, rows.take(i)).len() <= close_rows(g, h, tgt, rows).len(),
{
    law_close_slices(g, h, tgt, rows.take(i), rows.skip(i));
    assert(rows.take(i) + rows.skip(i) =~= rows);
}

/// The columns of a chunk under construction.
#[derive(Debug)]
pub struct RowSink {
    pub ids: Vec<Vec<u64>>,
    pub used: Vec<Vec<u64>>,
    pub prov: Vec<usize>,
    pub weights: Vec<u64>,
    /// Whether rows record the relationships they used.
    pub track: bool,
    /// Whether rows carry an outer row.
    pub carry_prov: bool,
    /// Whether rows carry a weight.
    pub carry_weight: bool,
}

impl RowSink {
    /// How many rows the sink holds.
    pub open spec fn len(self) -> nat {
        column_len(self.ids@)
    }

    /// The columns agree on the row count.
    pub open spec fn wf(self) -> bool {
        &&& self.ids@.len() > 0
        &&& forall|c: int| 0 <= c < self.ids@.len() ==> (#[trigger] self.ids@[c])@.len() == self.len()
        &&& self.used@.len() == if self.track {
            self.len()
        } else {
            0
        }
        &&& self.prov@.len() == if self.carry_prov {
            self.len()
        } else {
            0
        }
        &&& self.weights@.len() == if self.carry_weight {
            self.len()
        } else {
            0
        }
    }

    /// The rows, in the order they were pushed.
    pub open spec fn rows(self) -> Seq<RowV> {
        Seq::new(self.len(), |r: int| row_at(self.ids@, self.used@, self.prov@, self.weights@, r))
    }

    /// A sink of `width + extra` columns for rows that descend from `src`.
    pub fn new(width: usize, extra: usize, track: bool, src: &DataChunk) -> (s: RowSink)
        requires
            width + extra > 0,
        ensures
            s.wf(),
            s.ids@.len() == width + extra,
            s.rows() == Seq::<RowV>::empty(),
            s.track == track,
            s.carry_prov == (src.prov@.len() > 0),
            s.carry_weight == (src.weights@.len() > 0),
    {
        let mut ids = empty_lists(width);
        let mut i: usize = 0;
        while i < extra
            invariant
                i <= extra,
                ids@.len() == width + i,
                forall|j: int| 0 <= j < ids@.len() ==> (#[trigger] ids@[j])@ == Seq::<u64>::empty(),
            decreases extra - i,
        {
            ids.push(Vec::new());
            i = i + 1;
        }
        let s = RowSink {
            ids,
            used: Vec::new(),
            prov: Vec::new(),
            weights: Vec::new(),
            track,
            carry_prov: src.prov.len() > 0,
            carry_weight: src.weights.len() > 0,
        };
        proof {
            assert(s.ids@[0]@.len() == 0);
            assert(s.rows() =~= Seq::empty());
        }
        s
    }

    /// Add the row that extends row `r` of `src` by the ids in `extra`.
    pub fn push(&mut self, src: &DataChunk, r: usize, extra: &Vec<u64>, used: Vec<u64>)
        requires
            old(self).wf(),
            src.wf(),
            r < src.rows(),
            old(self).ids@.len() == src.ids@.len() + extra@.len(),
            old(self).carry_prov == (src.prov@.len() > 0),
            old(self).carry_weight == (src.weights@.len() > 0),
        ensures
            final(self).wf(),
            final(self).ids@.len() == old(self).ids@.len(),
            final(self).track == old(self).track,
            final(self).carry_prov == old(self).carry_prov,
            final(self).carry_weight == old(self).carry_weight,
            final(self).len() == old(self).len() + 1,
            final(self).rows() == old(self).rows().push(
                RowV {
                    ids: src.row(r as int).ids + extra@,
                    used: if old(self).track {
                        used@
                    } else {
                        Seq::empty()
                    },
                    prov: src.row(r as int).prov,
                    weight: src.row(r as int).weight,
                },
            ),
    {
        let ghost n = self.len();
        let ncols = src.ids.len();
        let total = self.ids.len();
        let mut c: usize = 0;
        while c < total
            invariant
                c <= total,
                src.wf(),
                r < src.rows(),
                ncols == src.ids@.len(),
                total == self.ids@.len(),
                total == ncols + extra@.len(),
                old(self).ids@.len() == total,
                forall|k: int| 0 <= k < total ==> (#[trigger] old(self).ids@[k])@.len() == n,
                forall|k: int|
                    c <= k < total ==> (#[trigger] self.ids@[k])@ == old(self).ids@[k]@,
                forall|k: int|
                    0 <= k < c ==> (#[trigger] self.ids@[k])@ == old(self).ids@[k]@.push(
                        if k < ncols {
                            src.ids@[k]@[r as int]
                        } else {
                            extra@[k - ncols]
                        },
                    ),
                self.used == old(self).used,
                self.prov == old(self).prov,
                self.weights == old(self).weights,
                self.track == old(self).track,
                self.carry_prov == old(self).carry_prov,
                self.carry_weight == old(self).carry_weight,
            decreases total - c,
        {
            let x = if c < ncols {
                assert(src.ids@[c as int]@.len() == src.rows());
                src.ids[c][r]
            } else {
                extra[c - ncols]
            };
            self.ids[c].push(x);
            c = c + 1;
        }
        if self.track {
            self.used.push(used);
        }
        if self.carry_prov {
            self.prov.push(src.prov[r]);
        }
        if self.carry_weight {
            self.weights.push(src.weights[r]);
        }
        proof {
            assert(self.ids@[0]@.len() == n + 1);
            let row = RowV {
                ids: src.row(r as int).ids + extra@,
                used: if old(self).track {
                    used@
                } else {
                    Seq::empty()
                },
                prov: src.row(r as int).prov,
                weight: src.row(r as int).weight,
            };
            assert forall|k: int| 0 <= k < n + 1 implies self.rows()[k] =~= old(self).rows().push(
                row,
            )[k] by {
                let a = self.rows()[k];
                let b = old(self).rows().push(row)[k];
                assert(a.ids =~= b.ids) by {
                    assert forall|q: int| 0 <= q < total implies a.ids[q] == b.ids[q] by {
                        assert(self.ids@[q]@.len() == n + 1);
                    }
                }
            }
            assert(self.rows() =~= old(self).rows().push(row));
        }
    }

    /// The chunk that the rows make, every row live.
    pub fn finish(self, vars: Vec<String>, var_kinds: Vec<VarKind>) -> (c: DataChunk)
        requires
            self.wf(),
            vars@.len() == self.ids@.len(),
            var_kinds@.len() == self.ids@.len(),
        ensures
            c.wf(),
            c.dense(),
            c.vars@ == vars@,
            c.var_kinds@ == var_kinds@,
            c.ids == self.ids,
            c.rows() == self.len(),
            c.live_view() == self.rows(),
            c.used_rels@.len() == if self.track {
                self.len()
            } else {
                0
            },
            c.prov@.len() == if self.carry_prov {
                self.len()
            } else {
                0
            },
            c.weights@.len() == if self.carry_weight {
                self.len()
            } else {
                0
            },
    {
        let n = self.ids[0].len();
        let c = DataChunk {
            vars,
            var_kinds,
            ids: self.ids,
            selection: index_range(n),
            used_rels: self.used,
            prov: self.prov,
            weights: self.weights,
        };
        proof {
            assert(c.live_view() =~= self.rows());
        }
        c
    }
}

/// A copy of a list of variable kinds.
pub fn copy_kinds(v: &Vec<VarKind>) -> (r: Vec<VarKind>)
    ensures
        r@ == v@,
{
    let mut r: Vec<VarKind> = Vec::new();
    let mut i: usize = 0;
    while i < v.len()
        invariant
            i <= v.len(),
            r@ == v@.take(i as int),
        decreases v.len() - i,
    {
        r.push(v[i]);
        proof {
            seqs::lemma_take_last(v@, i as int);
        }
        i = i + 1;
    }
    proof {
        assert(v@.take(i as int) =~= v@);
    }
    r
}

/// The names after a hop has bound its node and relationship variables.
pub open spec fn vars_after(
    vars: Seq<Seq<char>>,
    node: Option<Seq<char>>,
    rel: Option<Seq<char>>,
) -> Seq<Seq<char>> {
    let v = match node {
        Some(n) => vars.push(n),
        None => vars,
    };
    match rel {
        Some(r) => v.push(r),
        None => v,
    }
}

/// The kinds after a hop has bound its node and relationship variables.
pub open spec fn kinds_after(kinds: Seq<VarKind>, node: bool, rel: bool) -> Seq<VarKind> {
    let v = if node {
        kinds.push(VarKind::Node)
    } else {
        kinds
    };
    if rel {
        v.push(VarKind::Rel)
    } else {
        v
    }
}

/// An optional name as characters.
pub open spec fn opt_name(s: Option<&String>) -> Option<Seq<char>> {
    match s {
        Some(s) => Some(s@),
        None => None,
    }
}

pub fn extend_names(
    vars: Vec<String>,
    kinds: Vec<VarKind>,
    node: Option<&String>,
    rel: Option<&String>,
) -> (r: (Vec<String>, Vec<VarKind>))
    ensures
        names::of(r.0@) == vars_after(names::of(vars@), opt_name(node), opt_name(rel)),
        r.1@ == kinds_after(kinds@, node is Some, rel is Some),
        r.0@.len() == vars@.len() + (if node is Some {
            1int
        } else {
            0
        }) + (if rel is Some {
            1int
        } else {
            0
        }),
{
    let mut vs = vars;
    let mut ks = kinds;
    match node {
        Some(n) => {
            vs.push(n.clone());
            ks.push(VarKind::Node);
        },
        None => {},
    }
    match rel {
        Some(n) => {
            vs.push(n.clone());
            ks.push(VarKind::Rel);
        },
        None => {},
    }
    proof {
        assert(names::of(vs@) =~= vars_after(names::of(vars@), opt_name(node), opt_name(rel)));
    }
    (vs, ks)
}

/// Adds the rows that an expand makes of one row.
pub(crate) fn expand_source(
    g: &Graph,
    c: &DataChunk,
    r: usize,
    sink: &mut RowSink,
    src_vi: usize,
    dir: Dir,
    tokens: &Option<Vec<u32>>,
    members: Option<&BTreeSet<u64>>,
    track: bool,
    reset: bool,
    rel_col: bool,
)
    requires
        c.wf(),
        r < c.rows(),
        src_vi < c.ids@.len(),
        old(sink).wf(),
        old(sink).track == track,
        old(sink).carry_prov == (c.prov@.len() > 0),
        old(sink).carry_weight == (c.weights@.len() > 0),
        old(sink).ids@.len() == c.ids@.len() + if rel_col {
            2nat
        } else {
            1nat
        },
    ensures
        final(sink).wf(),
        final(sink).track == track,
        final(sink).carry_prov == old(sink).carry_prov,
        final(sink).carry_weight == old(sink).carry_weight,
        final(sink).ids@.len() == old(sink).ids@.len(),
        final(sink).rows() == old(sink).rows() + expand_row(
            *g,
            HopV {
                src: src_vi as int,
                dir,
                tokens: graph::tokens_view(*tokens),
                members: graph::members_view(members),
                track,
                reset,
                rel_col,
            },
            c.row(r as int),
        ),
{
    let ghost h = HopV {
        src: src_vi as int,
        dir,
        tokens: graph::tokens_view(*tokens),
        members: graph::members_view(members),
        track,
        reset,
        rel_col,
    };
    let mut extra: Vec<u64> = Vec::new();
    extra.push(0);
    if rel_col {
        extra.push(0);
    }
    assert(c.ids@[src_vi as int]@.len() == c.rows());
    let ghost row = c.row(r as int);
    let ghost base = base_of(row, track, reset);
    let ghost keep = |e: Adj| expand_keeps(h, base, e);
    let ghost make = |e: Adj| expand_makes(h, row, base, e);
    let base_ids: Vec<u64> = if track && !reset && c.used_rels.len() > 0 {
        copy_ids(&c.used_rels[r])
    } else {
        Vec::new()
    };
    assert(base_ids@ =~= base);
    let es = g.adjacent(c.ids[src_vi][r], dir, tokens);
    let ghost rev = es@.reverse();
    let ghost before = sink.rows();
    let mut i: usize = 0;
    proof {
        seqs::lemma_keep_map_empty(rev, keep, make);
        assert(before + Seq::<RowV>::empty() =~= before);
    }
    while i < es.len()
        invariant
            i <= es.len(),
            c.wf(),
            r < c.rows(),
            row == c.row(r as int),
            base_ids@ == base,
            keep == (|e: Adj| expand_keeps(h, base, e)),
            make == (|e: Adj| expand_makes(h, row, base, e)),
            h.members == graph::members_view(members),
            h.track == track,
            h.rel_col == rel_col,
            rev == es@.reverse(),
            sink.wf(),
            sink.track == track,
            sink.carry_prov == (c.prov@.len() > 0),
            sink.carry_weight == (c.weights@.len() > 0),
            sink.ids@.len() == c.ids@.len() + extra@.len(),
            extra@.len() == if rel_col {
                2nat
            } else {
                1nat
            },
            sink.rows() == before + seqs::keep_map(rev.take(i as int), keep, make),
        decreases es.len() - i,
    {
        let e = es[es.len() - 1 - i];
        assert(rev[i as int] == e);
        proof {
            seqs::lemma_keep_map_take(rev, i as int, keep, make);
        }
        if member_admits(members, e.peer) && !(track && has_id(&base_ids, e.rel)) {
            assert(keep(e));
            extra.set(0, e.peer);
            if rel_col {
                extra.set(1, e.rel);
            }
            let mut used: Vec<u64> = Vec::new();
            if track {
                used = copy_ids(&base_ids);
                used.push(e.rel);
            }
            sink.push(c, r, &extra, used);
            proof {
                assert(row.ids + extra@ =~= make(e).ids);
                assert(sink.rows() =~= before + seqs::keep_map(rev.take(i + 1), keep, make));
            }
        } else {
            assert(!keep(e));
        }
        i = i + 1;
    }
    assert(rev.take(i as int) =~= rev);
}

/// Expands the live rows `start..end` of a chunk, on top of so many rows that
/// other slices have made. None once the rows of all together are more than the
/// budget.
pub fn expand_row_slice(
    g: &Graph,
    c: &DataChunk,
    start: usize,
    end: usize,
    src_vi: usize,
    dir: Dir,
    tokens: &Option<Vec<u32>>,
    members: Option<&BTreeSet<u64>>,
    track: bool,
    reset: bool,
    rel_col: bool,
    produced: usize,
    budget: usize,
) -> (res: Option<RowSink>)
    requires
        c.wf(),
        src_vi < c.ids@.len(),
        start <= end <= c.selection@.len(),
    ensures
        ({
            let h = HopV {
                src: src_vi as int,
                dir,
                tokens: graph::tokens_view(*tokens),
                members: graph::members_view(members),
                track,
                reset,
                rel_col,
            };
            let rows = expand_rows(*g, h, c.live_view().subrange(start as int, end as int));
            match res {
                Some(s) => s.wf() && s.rows() == rows && s.ids@.len() == c.ids@.len() + (if rel_col {
                    2nat
                } else {
                    1nat
                }) && s.track == track && s.carry_prov == (c.prov@.len() > 0) && s.carry_weight == (
                c.weights@.len() > 0) && (rows.len() == 0 || produced + rows.len() <= budget),
                None => rows.len() > 0 && produced + rows.len() > budget && produced + usize::MAX > budget,
            }
        }),
{
    let ghost h = HopV {
        src: src_vi as int,
        dir,
        tokens: graph::tokens_view(*tokens),
        members: graph::members_view(members),
        track,
        reset,
        rel_col,
    };
    let ghost live = c.live_view().subrange(start as int, end as int);
    let extra: usize = if rel_col {
        2
    } else {
        1
    };
    let mut sink = RowSink::new(c.ids.len(), extra, track, c);
    let mut k: usize = start;
    assert(live.take(0) =~= Seq::empty());
    while k < end
        invariant
            start <= k <= end <= c.selection@.len(),
            c.wf(),
            src_vi < c.ids@.len(),
            sink.wf(),
            sink.track == track,
            sink.carry_prov == (c.prov@.len() > 0),
            sink.carry_weight == (c.weights@.len() > 0),
            sink.ids@.len() == c.ids@.len() + if rel_col {
                2nat
            } else {
                1nat
            },
            h == (HopV {
                src: src_vi as int,
                dir,
                tokens: graph::tokens_view(*tokens),
                members: graph::members_view(members),
                track,
                reset,
                rel_col,
            }),
            live == c.live_view().subrange(start as int, end as int),
            sink.rows() == expand_rows(*g, h, live.take(k - start)),
            sink.len() == 0 || produced + sink.len() <= budget,
        decreases end - k,
    {
        let r = c.selection[k];
        assert(c.selection@[k as int] < c.rows());
        let ghost row = c.row(r as int);
        expand_source(
            g,
            c,
            r,
            &mut sink,
            src_vi,
            dir,
            tokens,
            members,
            track,
            reset,
            rel_col,
        );
        proof {
            seqs::lemma_take_last(live, k - start);
            assert(live[k - start] == row);
            assert(sink.rows() =~= expand_rows(*g, h, live.take(k + 1 - start)));
            lemma_expand_prefix_len(*g, h, live, k + 1 - start);
            assert(sink.rows().len() == sink.len());
        }
        let n = sink.ids[0].len();
        if n > 0 && (produced > budget || n > budget - produced) {
            return None;
        }
        k = k + 1;
    }
    assert(live.take(k - start) =~= live);
    assert(sink.rows().len() == sink.len());
    Some(sink)
}

/// What an expand of a chunk comes to: a row for each edge that the hop admits, row
/// by row, or a refusal where there are more than the budget allows.
pub open spec fn expanded_as(
    g: Graph,
    h: HopV,
    from: DataChunk,
    new_var: Seq<char>,
    rel_var: Option<Seq<char>>,
    res: Result<DataChunk, RunError>,
) -> bool {
    let rows = expand_rows(g, h, from.live_view());
    match res {
        Ok(c) => {
            &&& !g.over_budget(rows.len() as int)
            &&& c.wf()
            &&& c.dense()
            &&& c.live_view() == rows
            &&& c.ids@.len() == from.ids@.len() + (if rel_var is Some {
                2nat
            } else {
                1nat
            })
            &&& names::of(c.vars@) == vars_after(names::of(from.vars@), Some(new_var), rel_var)
            &&& c.var_kinds@ == kinds_after(from.var_kinds@, true, rel_var is Some)
            &&& c.used_rels@.len() == if h.track {
                c.rows()
            } else {
                0
            }
            &&& c.prov@.len() == if from.prov@.len() > 0 {
                c.rows()
            } else {
                0
            }
            &&& c.weights@.len() == if from.weights@.len() > 0 {
                c.rows()
            } else {
                0
            }
        },
        Err(e) => e == RunError::RowBudget && g.over_budget(rows.len() as int),
    }
}

/// What rows have used, as one list per row.
pub open spec fn lists_of(s: Seq<Vec<u64>>) -> Seq<Seq<u64>> {
    s.map_values(|v: Vec<u64>| v@)
}

/// The columns of slices join to the columns of the whole: where the rows of one
/// sink are those of two others, and all three hold as many columns and carry
/// the same, each of its columns is theirs one after the other.
pub proof fn law_slices_join_by_column(a: RowSink, b: RowSink, w: RowSink)
    requires
        a.wf(),
        b.wf(),
        w.wf(),
        a.ids@.len() == w.ids@.len(),
        b.ids@.len() == w.ids@.len(),
        a.track == w.track,
        b.track == w.track,
        a.carry_prov == w.carry_prov,
        b.carry_prov == w.carry_prov,
        a.carry_weight == w.carry_weight,
        b.carry_weight == w.carry_weight,
        w.rows() == a.rows() + b.rows(),
    ensures
        forall|c: int|
            0 <= c < w.ids@.len() ==> (#[trigger] w.ids@[c])@ == a.ids@[c]@ + b.ids@[c]@,
        lists_of(w.used@) == lists_of(a.used@) + lists_of(b.used@),
        w.prov@ == a.prov@ + b.prov@,
        w.weights@ == a.weights@ + b.weights@,
        w.len() == a.len() + b.len(),
{
    let n = a.len() as int;
    assert(w.rows().len() == a.rows().len() + b.rows().len());
    assert forall|r: int| 0 <= r < w.len() implies #[trigger] w.rows()[r] == if r < n {
        a.rows()[r]
    } else {
        b.rows()[r - n]
    } by {}
    assert forall|c: int| 0 <= c < w.ids@.len() implies (#[trigger] w.ids@[c])@ == a.ids@[c]@
        + b.ids@[c]@ by {
        assert(w.ids@[c]@.len() == w.len());
        assert(a.ids@[c]@.len() == a.len());
        assert(b.ids@[c]@.len() == b.len());
        assert forall|r: int| 0 <= r < w.len() implies w.ids@[c]@[r] == (a.ids@[c]@ + b.ids@[c]@)[r] by {
            assert(w.rows()[r].ids[c] == w.ids@[c]@[r]);
            if r < n {
                assert(a.rows()[r].ids[c] == a.ids@[c]@[r]);
            } else {
                assert(b.rows()[r - n].ids[c] == b.ids@[c]@[r - n]);
            }
        }
        assert(w.ids@[c]@ =~= a.ids@[c]@ + b.ids@[c]@);
    }
    if w.track {
        assert forall|r: int| 0 <= r < w.len() implies lists_of(w.used@)[r] == (lists_of(a.used@)
            + lists_of(b.used@))[r] by {
            assert(w.rows()[r].used == w.used@[r]@);
            if r < n {
                assert(a.rows()[r].used == a.used@[r]@);
            } else {
                assert(b.rows()[r - n].used == b.used@[r - n]@);
            }
        }
    }
    assert(lists_of(w.used@) =~= lists_of(a.used@) + lists_of(b.used@));
    if w.carry_prov {
        assert forall|r: int| 0 <= r < w.len() implies w.prov@[r] == (a.prov@ + b.prov@)[r] by {
            assert(w.rows()[r].prov == Some(w.prov@[r]));
            if r < n {
                assert(a.rows()[r].prov == Some(a.prov@[r]));
            } else {
                assert(b.rows()[r - n].prov == Some(b.prov@[r - n]));
            }
        }
    }
    assert(w.prov@ =~= a.prov@ + b.prov@);
    if w.carry_weight {
        assert forall|r: int| 0 <= r < w.len() implies w.weights@[r] == (a.weights@ + b.weights@)[r] by {
            assert(w.rows()[r].weight == w.weights@[r]);
            if r < n {
                assert(a.rows()[r].weight == a.weights@[r]);
            } else {
                assert(b.rows()[r - n].weight == b.weights@[r - n]);
            }
        }
    }
    assert(w.weights@ =~= a.weights@ + b.weights@);
}

impl DataChunk {
    /// The one-variable chunk of a scan.
    pub fn seed(var: &str, ids: Vec<u64>) -> (c: DataChunk)
        ensures
            c.wf(),
            c.dense(),
            names::of(c.vars@) == seq![var@],
            c.var_kinds@ == seq![VarKind::Node],
            c.ids@ == seq![ids],
            c.used_rels@.len() == ids@.len(),
            c.prov@.len() == 0,
            c.weights@.len() == 0,
            c.live_view() == Seq::new(
                ids@.len(),
                |r: int| RowV { ids: seq![ids@[r]], used: Seq::empty(), prov: None, weight: 1 },
            ),
    {
        let n = ids.len();
        let ghost g = ids;
        let mut vars: Vec<String> = Vec::new();
        vars.push(var.to_owned());
        let mut var_kinds: Vec<VarKind> = Vec::new();
        var_kinds.push(VarKind::Node);
        let mut cols: Vec<Vec<u64>> = Vec::new();
        cols.push(ids);
        let c = DataChunk {
            vars,
            var_kinds,
            ids: cols,
            selection: index_range(n),
            used_rels: empty_lists(n),
            prov: Vec::new(),
            weights: Vec::new(),
        };
        proof {
            assert(names::of(c.vars@) =~= seq![var@]);
            assert(c.ids@ =~= seq![g]);
            let want = Seq::new(
                g@.len(),
                |r: int| RowV { ids: seq![g@[r]], used: Seq::empty(), prov: None, weight: 1 },
            );
            assert forall|k: int| 0 <= k < n implies c.live_view()[k] =~= want[k] by {
                assert(c.live_view()[k].ids =~= want[k].ids);
            }
            assert(c.live_view() =~= want);
        }
        c
    }

    /// A chunk from explicit columns, every row live.
    pub fn from_columns(vars: Vec<String>, var_kinds: Vec<VarKind>, ids: Vec<Vec<u64>>) -> (c:
        DataChunk)
        requires
            vars@.len() == ids@.len(),
            var_kinds@.len() == ids@.len(),
            forall|k: int| 0 <= k < ids@.len() ==> (#[trigger] ids@[k])@.len() == column_len(ids@),
        ensures
            c.wf(),
            c.dense(),
            c.vars@ == vars@,
            c.var_kinds@ == var_kinds@,
            c.ids@ == ids@,
            c.used_rels@.len() == column_len(ids@),
            c.prov@.len() == 0,
            c.weights@.len() == 0,
            c.live_view() == Seq::new(
                column_len(ids@),
                |r: int|
                    RowV {
                        ids: Seq::new(ids@.len(), |c: int| ids@[c]@[r]),
                        used: Seq::empty(),
                        prov: None,
                        weight: 1,
                    },
            ),
    {
        let n = if ids.len() == 0 {
            0
        } else {
            ids[0].len()
        };
        let c = DataChunk {
            vars,
            var_kinds,
            selection: index_range(n),
            used_rels: empty_lists(n),
            prov: Vec::new(),
            weights: Vec::new(),
            ids,
        };
        proof {
            let want = Seq::new(
                column_len(ids@),
                |r: int|
                    RowV {
                        ids: Seq::new(ids@.len(), |c: int| ids@[c]@[r]),
                        used: Seq::empty(),
                        prov: None,
                        weight: 1,
                    },
            );
            assert forall|k: int| 0 <= k < n implies c.live_view()[k] =~= want[k] by {
                assert(c.live_view()[k].ids =~= want[k].ids);
            }
            assert(c.live_view() =~= want);
        }
        c
    }

    /// How many rows the columns hold, live or not.
    pub fn row_count(&self) -> (n: usize)
        ensures
            n == self.rows(),
    {
        if self.ids.len() == 0 {
            0
        } else {
            self.ids[0].len()
        }
    }

    /// How many rows are live.
    pub fn live(&self) -> (n: usize)
        ensures
            n == self.live_view().len(),
    {
        self.selection.len()
    }

    /// The first position of a bound variable.
    pub fn var_index(&self, var: &String) -> (i: usize)
        requires
            names::of(self.vars@).contains(var@),
        ensures
            names::position(names::of(self.vars@), var@) == Some(i as int),
            i < self.vars@.len(),
    {
        match name_index(&self.vars, var) {
            Some(i) => i,
            None => 0,
        }
    }

    /// Bind a variable to no entity in every row.
    pub fn null_extend(&mut self, var: &str, kind: VarKind)
        requires
            old(self).wf(),
            old(self).ids@.len() > 0,
        ensures
            final(self).wf(),
            names::of(final(self).vars@) == names::of(old(self).vars@).push(var@),
            final(self).var_kinds@ == old(self).var_kinds@.push(kind),
            final(self).selection == old(self).selection,
            final(self).used_rels == old(self).used_rels,
            final(self).prov == old(self).prov,
            final(self).weights == old(self).weights,
            final(self).rows() == old(self).rows(),
            final(self).ids@.len() == old(self).ids@.len() + 1,
            forall|c: int|
                0 <= c < old(self).ids@.len() ==> #[trigger] final(self).ids@[c]
                    == old(self).ids@[c],
            final(self).ids@.last()@ == Seq::new(old(self).rows(), |r: int| NULL_ID),
            final(self).live_view() == old(self).live_view().map_values(
                |row: RowV| RowV { ids: row.ids.push(NULL_ID), ..row },
            ),
    {
        let n = self.row_count();
        self.ids.push(repeat_id(NULL_ID, n));
        self.vars.push(var.to_owned());
        self.var_kinds.push(kind);
        proof {
            assert(names::of(self.vars@) =~= names::of(old(self).vars@).push(var@));
            let f = |row: RowV| RowV { ids: row.ids.push(NULL_ID), ..row };
            assert forall|k: int|
                0 <= k < self.selection@.len() implies self.live_view()[k] =~= old(
                self,
            ).live_view().map_values(f)[k] by {
                let r = self.selection@[k] as int;
                assert(r < self.rows());
                assert(self.row(r).ids =~= old(self).row(r).ids.push(NULL_ID));
            }
            assert(self.live_view() =~= old(self).live_view().map_values(f));
        }
    }

    /// One row's ids, in binding order.
    pub fn row_ids(&self, r: usize) -> (v: Vec<u64>)
        requires
            self.wf(),
            r < self.rows(),
        ensures
            v@ == self.row(r as int).ids,
    {
        let mut v: Vec<u64> = Vec::new();
        let mut c: usize = 0;
        while c < self.ids.len()
            invariant
                c <= self.ids.len(),
                self.wf(),
                r < self.rows(),
                v@ == self.row(r as int).ids.take(c as int),
            decreases self.ids.len() - c,
        {
            assert(self.ids@[c as int]@.len() == self.rows());
            v.push(self.ids[c][r]);
            proof {
                seqs::lemma_take_last(self.row(r as int).ids, c as int);
            }
            c = c + 1;
        }
        proof {
            assert(self.row(r as int).ids.take(c as int) =~= self.row(r as int).ids);
        }
        v
    }

    /// The ids of the live rows, in production order.
    pub fn live_rows(&self) -> (v: Vec<Vec<u64>>)
        requires
            self.wf(),
        ensures
            v@.len() == self.live_view().len(),
            forall|k: int| 0 <= k < v@.len() ==> (#[trigger] v@[k])@ == self.live_view()[k].ids,
    {
        let mut v: Vec<Vec<u64>> = Vec::new();
        let mut k: usize = 0;
        while k < self.selection.len()
            invariant
                k <= self.selection.len(),
                self.wf(),
                v@.len() == k,
                forall|j: int| 0 <= j < k ==> (#[trigger] v@[j])@ == self.live_view()[j].ids,
            decreases self.selection.len() - k,
        {
            assert(self.selection@[k as int] < self.rows());
            v.push(self.row_ids(self.selection[k]));
            k = k + 1;
        }
        v
    }

    /// The live rows `start..end` as a chunk of their own, with no
    /// relationship used yet.
    pub fn driving_slice(&self, start: usize, end: usize) -> (c: DataChunk)
        requires
            self.wf(),
            self.ids@.len() > 0,
            self.prov@.len() == 0,
            start <= end <= self.selection@.len(),
        ensures
            c.wf(),
            c.dense(),
            c.vars@ == self.vars@,
            c.var_kinds@ == self.var_kinds@,
            c.rows() == end - start,
            c.used_rels@.len() == c.rows(),
            forall|r: int| 0 <= r < c.rows() ==> (#[trigger] c.used_rels@[r])@.len() == 0,
            c.prov@.len() == 0,
            c.weights@.len() == if self.weights@.len() == 0 {
                0
            } else {
                c.rows()
            },
            c.live_view() == self.live_view().subrange(start as int, end as int).map_values(
                |row: RowV| RowV { used: Seq::empty(), ..row },
            ),
    {
        let mut sink = RowSink::new(self.ids.len(), 0, true, self);
        let none: Vec<u64> = Vec::new();
        let ghost f = |row: RowV| RowV { used: Seq::empty(), ..row };
        let ghost part = self.live_view().subrange(start as int, end as int);
        let mut k: usize = start;
        while k < end
            invariant
                start <= k <= end <= self.selection@.len(),
                self.wf(),
                self.prov@.len() == 0,
                sink.wf(),
                sink.track,
                none@ == Seq::<u64>::empty(),
                sink.carry_prov == (self.prov@.len() > 0),
                sink.carry_weight == (self.weights@.len() > 0),
                sink.ids@.len() == self.ids@.len(),
                part == self.live_view().subrange(start as int, end as int),
                f == (|row: RowV| RowV { used: Seq::empty(), ..row }),
                sink.rows() == part.take(k - start).map_values(f),
            decreases end - k,
        {
            let r = self.selection[k];
            assert(self.selection@[k as int] < self.rows());
            sink.push(self, r, &none, Vec::new());
            proof {
                seqs::lemma_take_last(part, k - start);
                assert(part[k - start] == self.row(r as int));
                assert(self.row(r as int).ids + none@ =~= self.row(r as int).ids);
                assert(sink.rows() =~= part.take(k + 1 - start).map_values(f));
            }
            k = k + 1;
        }
        proof {
            assert(part.take(end - start) =~= part);
            assert(sink.rows().len() == end - start);
        }
        let c = sink.finish(copy_names(&self.vars), copy_kinds(&self.var_kinds));
        proof {
            assert forall|r: int| 0 <= r < c.rows() implies (#[trigger] c.used_rels@[r])@.len() == 0 by {
                assert(c.live_view()[r] == f(part[r]));
                assert(c.selection@[r] == r);
                assert(c.row(r).used == c.used_rels@[r]@);
            }
        }
        c
    }

    /// Bind a new node, and the relationship that leads to it where `rel_var`
    /// names one, to each edge of the source variable that the hop admits.
    pub fn expand(
        self,
        g: &Graph,
        src_vi: usize,
        new_var: &String,
        rel_var: Option<&String>,
        dir: Dir,
        tokens: &Option<Vec<u32>>,
        members: Option<&BTreeSet<u64>>,
        track: bool,
        reset: bool,
    ) -> (res: Result<DataChunk, RunError>)
        requires
            self.wf(),
            src_vi < self.ids@.len(),
        ensures
            expanded_as(
                *g,
                HopV {
                    src: src_vi as int,
                    dir,
                    tokens: graph::tokens_view(*tokens),
                    members: graph::members_view(members),
                    track,
                    reset,
                    rel_col: rel_var is Some,
                },
                self,
                new_var@,
                opt_name(rel_var),
                res,
            ),
    {
        let ghost h = HopV {
            src: src_vi as int,
            dir,
            tokens: graph::tokens_view(*tokens),
            members: graph::members_view(members),
            track,
            reset,
            rel_col: rel_var is Some,
        };
        let ghost live = self.live_view();
        let width = self.ids.len();
        let extra: usize = if rel_var.is_some() {
            2
        } else {
            1
        };
        let mut sink = RowSink::new(width, extra, track, &self);
        let mut k: usize = 0;
        proof {
            assert(live.take(0) =~= Seq::empty());
        }
        while k < self.selection.len()
            invariant
                k <= self.selection.len(),
                self.wf(),
                src_vi < self.ids@.len(),
                sink.wf(),
                sink.track == track,
                sink.carry_prov == (self.prov@.len() > 0),
                sink.carry_weight == (self.weights@.len() > 0),
                sink.ids@.len() == self.ids@.len() + if rel_var is Some {
                    2nat
                } else {
                    1nat
                },
                h == (HopV {
                    src: src_vi as int,
                    dir,
                    tokens: graph::tokens_view(*tokens),
                    members: graph::members_view(members),
                    track,
                    reset,
                    rel_col: rel_var is Some,
                }),
                live == self.live_view(),
                sink.rows() == expand_rows(*g, h, live.take(k as int)),
                !g.over_budget(sink.len() as int),
            decreases self.selection.len() - k,
        {
            let r = self.selection[k];
            assert(self.selection@[k as int] < self.rows());
            let ghost row = self.row(r as int);
            expand_source(g, &self, r, &mut sink, src_vi, dir, tokens, members, track, reset, rel_var.is_some());
            proof {
                seqs::lemma_take_last(live, k as int);
                assert(live[k as int] == row);
                assert(sink.rows() =~= expand_rows(*g, h, live.take(k + 1)));
                lemma_expand_prefix_len(*g, h, live, k + 1);
                assert(sink.rows().len() == sink.len());
            }
            match g.budget_check(sink.ids[0].len()) {
                Ok(()) => {},
                Err(e) => {
                    return Err(e);
                },
            }
            k = k + 1;
        }
        proof {
            assert(live.take(k as int) =~= live);
            assert(sink.rows().len() == sink.len());
        }
        let (vars, kinds) = extend_names(self.vars, self.var_kinds, Some(new_var), rel_var);
        Ok(sink.finish(vars, kinds))
    }
}

} // verus!
