//! An expand in slices that may be taken apart and in any order.

use std::collections::BTreeSet;

use vstd::prelude::*;

use crate::chunk;
use crate::chunk::{expand_row_slice, expand_rows, expanded_as, extend_names, lists_of, opt_name, DataChunk, HopV, RowSink};
use crate::graph;
use crate::graph::{Dir, Graph, RunError};
use crate::names;
use crate::seqs;

verus! {

/// How many driving rows each of some workers takes.
pub open spec fn share(n: int, workers: int) -> int {
    let w = if workers < n {
        workers
    } else {
        n
    };
    if w <= 1 {
        n
    } else {
        (n + w - 1) / w
    }
}

/// How many driving rows each of some workers takes.
pub fn morsel_size(n: usize, workers: usize) -> (r: usize)
    ensures
        r == share(n as int, workers as int),
        n > 0 ==> 0 < r <= n,
{
    let w: usize = if workers < n {
        workers
    } else {
        n
    };
    if w <= 1 {
        n
    } else {
        let q = n / w;
        let m = n % w;
        proof {
            assert(n == q * w + m && 0 <= m < w) by (nonlinear_arith)
                requires
                    w > 0,
                    q == n / w,
                    m == n % w,
            ;
            if m == 0 {
                assert((n + w - 1) / (w as int) == q) by (nonlinear_arith)
                    requires
                        n == q * w,
                        w > 0,
                ;
            } else {
                assert((n + w - 1) / (w as int) == q + 1) by (nonlinear_arith)
                    requires
                        n == q * w + m,
                        0 < m < w,
                ;
            }
            assert(1 <= q) by (nonlinear_arith)
                requires
                    n == q * w + m,
                    m < w,
                    w <= n,
                    w > 0,
            ;
            assert(q < n) by (nonlinear_arith)
                requires
                    n == q * w + m,
                    m >= 0,
                    w >= 2,
                    n > 0,
                    q >= 1,
            ;
        }
        if m == 0 {
            q
        } else {
            q + 1
        }
    }
}

/// Sinks of one shape: as many columns, and the same carried along.
pub open spec fn alike(a: RowSink, b: RowSink) -> bool {
    &&& a.ids@.len() == b.ids@.len()
    &&& a.track == b.track
    &&& a.carry_prov == b.carry_prov
    &&& a.carry_weight == b.carry_weight
}

/// Puts the rows of a slice behind those that are there, column by column.
pub fn join_slice(all: &mut RowSink, part: RowSink)
    requires
        old(all).wf(),
        part.wf(),
        alike(*old(all), part),
    ensures
        final(all).wf(),
        alike(*final(all), *old(all)),
        final(all).rows() == old(all).rows() + part.rows(),
{
    let ghost a = *all;
    let ghost n = a.len();
    let ghost m = part.len();
    let mut part = part;
    let ghost p0 = part;
    let mut c: usize = 0;
    while c < all.ids.len()
        invariant
            c <= all.ids@.len(),
            all.ids@.len() == a.ids@.len(),
            part.ids@.len() == a.ids@.len(),
            p0.ids@.len() == a.ids@.len(),
            all.used == a.used,
            all.prov == a.prov,
            all.weights == a.weights,
            all.track == a.track,
            all.carry_prov == a.carry_prov,
            all.carry_weight == a.carry_weight,
            part.used == p0.used,
            part.prov == p0.prov,
            part.weights == p0.weights,
            forall|v: int| 0 <= v < c ==> (#[trigger] all.ids@[v])@ == a.ids@[v]@ + p0.ids@[v]@,
            forall|v: int| c <= v < a.ids@.len() ==> #[trigger] all.ids@[v] == a.ids@[v],
            forall|v: int| c <= v < a.ids@.len() ==> #[trigger] part.ids@[v] == p0.ids@[v],
        decreases all.ids.len() - c,
    {
        let mut i: usize = 0;
        let ghost base = all.ids@[c as int]@;
        let ghost more = part.ids@[c as int]@;
        let ghost ids0 = all.ids@;
        assert(base + more.take(0) =~= base);
        while i < part.ids[c].len()
            invariant
                i <= more.len(),
                c < all.ids@.len() == ids0.len(),
                c < part.ids@.len(),
                more == part.ids@[c as int]@,
                all.ids@[c as int]@ == base + more.take(i as int),
                forall|v: int| 0 <= v < ids0.len() && v != c ==> #[trigger] all.ids@[v] == ids0[v],
                all.used == a.used,
                all.prov == a.prov,
                all.weights == a.weights,
                all.track == a.track,
                all.carry_prov == a.carry_prov,
                all.carry_weight == a.carry_weight,
            decreases more.len() - i,
        {
            let x = part.ids[c][i];
            all.ids[c].push(x);
            proof {
                seqs::lemma_take_last(more, i as int);
                assert((base + more.take(i as int)).push(x) =~= base + more.take(i + 1));
            }
            i = i + 1;
        }
        assert(more.take(i as int) =~= more);
        c = c + 1;
    }
    all.used.append(&mut part.used);
    all.prov.append(&mut part.prov);
    all.weights.append(&mut part.weights);
    proof {
        assert(all.ids@[0]@.len() == n + m);
        assert forall|v: int| 0 <= v < all.ids@.len() implies (#[trigger] all.ids@[v])@.len()
            == all.len() by {
            assert(a.ids@[v]@.len() == n);
            assert(p0.ids@[v]@.len() == m);
        }
        assert forall|r: int| 0 <= r < n + m implies all.rows()[r] == (a.rows() + p0.rows())[r] by {
            if r < n {
                assert(all.rows()[r].ids =~= a.rows()[r].ids) by {
                    assert forall|v: int| 0 <= v < all.ids@.len() implies all.rows()[r].ids[v]
                        == a.rows()[r].ids[v] by {
                        assert(a.ids@[v]@.len() == n);
                        assert(all.ids@[v]@[r] == a.ids@[v]@[r]);
                    }
                }
            } else {
                assert(all.rows()[r].ids =~= p0.rows()[r - n].ids) by {
                    assert forall|v: int| 0 <= v < all.ids@.len() implies all.rows()[r].ids[v]
                        == p0.rows()[r - n].ids[v] by {
                        assert(a.ids@[v]@.len() == n);
                        assert(all.ids@[v]@[r] == p0.ids@[v]@[r - n]);
                    }
                }
            }
        }
        assert(all.rows() =~= a.rows() + p0.rows());
    }
}

impl DataChunk {
    /// An expand whose driving rows are taken in slices, one for each of some
    /// workers. The slices do not depend on one another, and their rows are put
    /// together in the order of the slices.
    pub fn expand_parallel(
        self,
        g: &Graph,
        workers: usize,
        src_vi: usize,
        new_var: &String,
        rel_var: Option<&String>,
        dir: Dir,
        tokens: &Option<Vec<u32>>,
        members: Option<&BTreeSet<u64>>,
        track: bool,
        reset: bool,
    ) -> (res: Result<DataChunk, RunError>)
        requires
            self.wf(),
            src_vi < self.ids@.len(),
        ensures
            expanded_as(
                *g,
                HopV {
                    src: src_vi as int,
                    dir,
                    tokens: graph::tokens_view(*tokens),
                    members: graph::members_view(members),
                    track,
                    reset,
                    rel_col: rel_var is Some,
                },
                self,
                new_var@,
                opt_name(rel_var),
                res,
            ),
    {
        let ghost h = HopV {
            src: src_vi as int,
            dir,
            tokens: graph::tokens_view(*tokens),
            members: graph::members_view(members),
            track,
            reset,
            rel_col: rel_var is Some,
        };
        let ghost live = self.live_view();
        let n = self.selection.len();
        let size = morsel_size(n, workers);
        let extra: usize = if rel_var.is_some() {
            2
        } else {
            1
        };
        let mut all = RowSink::new(self.ids.len(), extra, track, &self);
        let mut start: usize = 0;
        assert(live.take(0) =~= Seq::empty());
        while start < n
            invariant
                start <= n,
                n == self.selection@.len(),
                n > 0 ==> 0 < size <= n,
                self.wf(),
                src_vi < self.ids@.len(),
                live == self.live_view(),
                all.wf(),
                all.track == track,
                all.carry_prov == (self.prov@.len() > 0),
                all.carry_weight == (self.weights@.len() > 0),
                all.ids@.len() == self.ids@.len() + if rel_var is Some {
                    2nat
                } else {
                    1nat
                },
                h == (HopV {
                    src: src_vi as int,
                    dir,
                    tokens: graph::tokens_view(*tokens),
                    members: graph::members_view(members),
                    track,
                    reset,
                    rel_col: rel_var is Some,
                }),
                all.rows() == expand_rows(*g, h, live.take(start as int)),
                !g.over_budget(all.len() as int),
            decreases n - start,
        {
            let end: usize = if n - start <= size {
                n
            } else {
                start + size
            };
            let made = all.ids[0].len();
            let (produced, budget): (usize, usize) = match g.row_budget {
                Some(b) => (made, b),
                None => (0, usize::MAX),
            };
            let part = expand_row_slice(
                g,
                &self,
                start,
                end,
                src_vi,
                dir,
                tokens,
                members,
                track,
                reset,
                rel_var.is_some(),
                produced,
                budget,
            );
            let ghost slice = live.subrange(start as int, end as int);
            proof {
                assert(live.take(end as int) =~= live.take(start as int) + slice);
                chunk::law_expand_slices(*g, h, live.take(start as int), slice);
                chunk::law_expand_slices(*g, h, live.take(end as int), live.skip(end as int));
                assert(live.take(end as int) + live.skip(end as int) =~= live);
                assert(all.rows().len() == all.len());
            }
            match part {
                Some(p) => {
                    assert(p.rows().len() == p.len());
                    join_slice(&mut all, p);
                    assert(all.rows().len() == all.len());
                },
                None => {
                    return Err(RunError::RowBudget);
                },
            }
            start = end;
        }
        proof {
            assert(live.take(start as int) =~= live);
            assert(all.rows().len() == all.len());
        }
        let (vars, kinds) = extend_names(self.vars, self.var_kinds, Some(new_var), rel_var);
        Ok(all.finish(vars, kinds))
    }
}

/// An expand comes to one thing, in however many slices it is taken: two results
/// are equal field by field, or both refuse.
pub proof fn law_expands_alike(
    g: Graph,
    h: HopV,
    from: DataChunk,
    new_var: Seq<char>,
    rel_var: Option<Seq<char>>,
    a: Result<DataChunk, RunError>,
    b: Result<DataChunk, RunError>,
)
    requires
        expanded_as(g, h, from, new_var, rel_var, a),
        expanded_as(g, h, from, new_var, rel_var, b),
    ensures
        match (a, b) {
            (Ok(c), Ok(d)) => {
                &&& names::of(c.vars@) == names::of(d.vars@)
                &&& c.var_kinds@ == d.var_kinds@
                &&& c.ids@.len() == d.ids@.len()
                &&& forall|v: int| 0 <= v < c.ids@.len() ==> (#[trigger] c.ids@[v])@ == d.ids@[v]@
                &&& c.selection@ == d.selection@
                &&& lists_of(c.used_rels@) == lists_of(d.used_rels@)
                &&& c.prov@ == d.prov@
                &&& c.weights@ == d.weights@
            },
            (Err(x), Err(y)) => x == y,
            _ => false,
        },
{
    match (a, b) {
        (Ok(c), Ok(d)) => {
            let n = c.live_view().len() as int;
            assert(names::upto(c.rows()).len() == c.rows());
            assert(names::upto(d.rows()).len() == d.rows());
            assert(c.rows() == n && d.rows() == n);
            assert(c.ids@[0].len() == c.rows());
            assert forall|r: int| 0 <= r < n implies c.row(r) == d.row(r) by {
                assert(c.selection@[r] == r && d.selection@[r] == r);
                assert(c.live_view()[r] == c.row(r));
                assert(d.live_view()[r] == d.row(r));
            }
            assert forall|v: int| 0 <= v < c.ids@.len() implies (#[trigger] c.ids@[v])@ == d.ids@[v]@ by {
                assert(c.ids@[v]@.len() == n);
                assert(d.ids@[v]@.len() == n);
                assert forall|r: int| 0 <= r < n implies c.ids@[v]@[r] == d.ids@[v]@[r] by {
                    assert(c.row(r).ids[v] == c.ids@[v]@[r]);
                    assert(d.row(r).ids[v] == d.ids@[v]@[r]);
                }
                assert(c.ids@[v]@ =~= d.ids@[v]@);
            }
            assert(lists_of(c.used_rels@) =~= lists_of(d.used_rels@)) by {
                assert forall|r: int| 0 <= r < c.used_rels@.len() implies lists_of(
                    c.used_rels@,
                )[r] == lists_of(d.used_rels@)[r] by {
                    assert(c.row(r).used == c.used_rels@[r]@);
                    assert(d.row(r).used == d.used_rels@[r]@);
                }
            }
            assert(c.prov@ =~= d.prov@) by {
                assert forall|r: int| 0 <= r < c.prov@.len() implies c.prov@[r] == d.prov@[r] by {
                    assert(c.row(r).prov == Some(c.prov@[r]));
                    assert(d.row(r).prov == Some(d.prov@[r]));
                }
            }
            assert(c.weights@ =~= d.weights@) by {
                assert forall|r: int| 0 <= r < c.weights@.len() implies c.weights@[r]
                    == d.weights@[r] by {
                    assert(c.row(r).weight == c.weights@[r]);
                    assert(d.row(r).weight == d.weights@[r]);
                }
            }
        },
        _ => {},
    }
}

} // verus!
