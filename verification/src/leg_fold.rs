//! Counting an optional match in place of producing it.

use vstd::prelude::*;

use crate::chunk::{DataChunk, RowV};
use crate::fold::{hop_sum, FoldPlan, FoldState};
use crate::fold_model;
use crate::fold_model::FoldV;
use crate::fold_run;
use crate::fold_run::{count_fold_overflow, load_row, row_bind};
use crate::graph::{RunError, VarKind, NULL_ID};
use crate::names::empty_lists;
use crate::seqs;
use crate::table;

verus! {

/// Whether a counted hop starts at a variable that is not counted.
pub open spec fn is_root(p: FoldV, hi: int) -> bool {
    p.hops[hi].fold && !fold_model::is_folded(p, p.hops[hi].src)
}

/// The matches of a leg for a row, through the roots among the first `n` hops.
/// A root without a match ends the count; `None` when it overflows.
pub open spec fn leg_count(p: FoldV, row: RowV, n: nat) -> Option<nat>
    decreases n,
{
    if n == 0 {
        Some(1)
    } else {
        match leg_count(p, row, (n - 1) as nat) {
            None => None,
            Some(w) => if w == 0 || !is_root(p, n - 1) {
                Some(w)
            } else {
                match fold_model::hop_eval(
                    p,
                    n - 1,
                    row_bind(p, row),
                    Seq::empty(),
                    row.ids[p.hops[n - 1].src],
                ) {
                    None => None,
                    Some(x) => if w * x > u64::MAX {
                        None
                    } else {
                        Some((w * x) as nat)
                    },
                }
            },
        }
    }
}

/// How often a row stays in a left join with a leg: once per match, and once
/// without a match.
pub open spec fn at_least_one(w: nat) -> nat {
    if w == 0 {
        1
    } else {
        w
    }
}

/// A row once its leg is counted: the leg's variables are null and the row
/// stands for as many matches as the left join would keep.
pub open spec fn leg_row(p: FoldV, width: nat, row: RowV) -> Option<RowV> {
    match leg_count(p, row, p.hops.len()) {
        None => None,
        Some(w) => if row.weight * at_least_one(w) > i64::MAX {
            None
        } else {
            Some(
                RowV {
                    ids: Seq::new(
                        width,
                        |v: int|
                            if v < row.ids.len() {
                                row.ids[v]
                            } else {
                                NULL_ID
                            },
                    ),
                    used: Seq::empty(),
                    prov: None,
                    weight: (row.weight * at_least_one(w)) as u64,
                },
            )
        },
    }
}

/// The rows once their leg is counted.
pub open spec fn leg_rows(p: FoldV, width: nat, rows: Seq<RowV>) -> Option<Seq<RowV>> {
    seqs::try_map(rows, |r: RowV| leg_row(p, width, r))
}

/// The leg binds only variables past the first `n`, and each of its roots
/// starts at one of those without regard to relationships used before.
pub open spec fn leg_ready(p: FoldV, n: nat) -> bool {
    &&& n <= p.width
    &&& forall|v: int| #[trigger] fold_model::is_folded(p, v) ==> v >= n
    &&& forall|hi: int|
        0 <= hi < p.hops.len() && #[trigger] is_root(p, hi) ==> p.hops[hi].src < n && (
        !p.hops[hi].track || p.hops[hi].reset)
}

proof fn lemma_leg_stops(p: FoldV, row: RowV, n: nat, m: nat)
    requires
        n <= m,
    ensures
        leg_count(p, row, n) is None ==> leg_count(p, row, m) is None,
        leg_count(p, row, n) == Some(0nat) ==> leg_count(p, row, m) == Some(0nat),
    decreases m - n,
{
    if n < m {
        lemma_leg_stops(p, row, n, (m - 1) as nat);
    }
}

fn count_leg(plan: &FoldPlan, st: &mut FoldState, c: &DataChunk, r: usize) -> (w: Option<u64>)
    requires
        plan.wf(),
        c.wf(),
        r < c.rows(),
        old(st).wf(*plan),
        leg_ready(plan.view(), c.ids@.len()),
        c.ids@.len() <= plan.children@.len(),
        old(st).bind@ == row_bind(plan.view(), c.row(r as int)),
    ensures
        final(st).wf(*plan),
        final(st).bind@ == old(st).bind@,
        match w {
            Some(w) => leg_count(plan.view(), c.row(r as int), plan.hops@.len()) == Some(w as nat),
            None => leg_count(plan.view(), c.row(r as int), plan.hops@.len()) is None,
        },
{
    let ghost p = plan.view();
    let ghost row = c.row(r as int);
    let mut legs: u64 = 1;
    let mut hi: usize = 0;
    while hi < plan.hops.len() && legs != 0
        invariant
            hi <= plan.hops@.len(),
            plan.wf(),
            c.wf(),
            r < c.rows(),
            p == plan.view(),
            row == c.row(r as int),
            leg_ready(p, c.ids@.len()),
            c.ids@.len() <= plan.children@.len(),
            st.wf(*plan),
            old(st).bind@ == row_bind(p, row),
            st.bind@ == old(st).bind@,
            leg_count(p, row, hi as nat) == Some(legs as nat),
        decreases plan.hops.len() - hi,
    {
        assert(plan.root@[hi as int] == is_root(p, hi as int));
        if plan.root[hi] {
            assert(is_root(p, hi as int));
            st.used.clear();
            let src: usize = plan.hops[hi].src;
            assert(p.hops[hi as int].src == src);
            assert(c.ids@[src as int]@.len() == c.rows());
            assert(st.used@ =~= Seq::empty());
            proof {
                assert(fold_model::unbound_past(p, st.bind@, src as int)) by {
                    assert forall|v: int|
                        src < v < p.width && #[trigger] fold_model::is_folded(p, v) implies st.bind@[v]
                        == NULL_ID by {}
                }
                lemma_leg_stops(p, row, (hi + 1) as nat, plan.hops@.len());
            }
            match hop_sum(plan, st, hi, c.ids[src][r]) {
                None => {
                    return None;
                },
                Some(x) => match legs.checked_mul(x) {
                    None => {
                        return None;
                    },
                    Some(y) => {
                        legs = y;
                    },
                },
            }
        }
        hi = hi + 1;
    }
    proof {
        lemma_leg_stops(p, row, hi as nat, plan.hops@.len());
    }
    Some(legs)
}

fn padded(c: &DataChunk, r: usize, width: usize) -> (v: Vec<u64>)
    requires
        c.wf(),
        r < c.rows(),
        c.ids@.len() <= width,
    ensures
        v@ == Seq::new(
            width as nat,
            |i: int|
                if i < c.ids@.len() {
                    c.row(r as int).ids[i]
                } else {
                    NULL_ID
                },
        ),
{
    let mut v = c.row_ids(r);
    while v.len() < width
        invariant
            c.ids@.len() <= v@.len() <= width,
            forall|i: int|
                0 <= i < v@.len() ==> #[trigger] v@[i] == if i < c.ids@.len() {
                    c.row(r as int).ids[i]
                } else {
                    NULL_ID
                },
        decreases width - v.len(),
    {
        v.push(NULL_ID);
    }
    assert(v@ =~= Seq::new(
        width as nat,
        |i: int|
            if i < c.ids@.len() {
                c.row(r as int).ids[i]
            } else {
                NULL_ID
            },
    ));
    v
}

/// Counts an optional match for every live row in place of producing it.
pub fn fold_optional_leg(
    outer: &DataChunk,
    plan: &FoldPlan,
    vars: Vec<String>,
    kinds: Vec<VarKind>,
) -> (res: Result<DataChunk, RunError>)
    requires
        outer.wf(),
        plan.wf(),
        outer.ids@.len() <= vars@.len(),
        outer.ids@.len() <= plan.children@.len(),
        0 < vars@.len() == kinds@.len(),
        leg_ready(plan.view(), outer.ids@.len()),
    ensures
        match (res, leg_rows(plan.view(), vars@.len(), outer.live_view())) {
            (Ok(c), Some(rows)) => c.wf() && c.dense() && c.live_view() == rows && c.vars@ == vars@
                && c.var_kinds@ == kinds@,
            (Err(e), None) => fold_run::is_overflow(e),
            _ => false,
        },
{
    let ghost p = plan.view();
    let ghost rows = outer.live_view();
    let width: usize = vars.len();
    let ghost f = |x: RowV| leg_row(p, width as nat, x);
    let mut st = FoldState::new(plan);
    let mut cols = empty_lists(width);
    let mut weights: Vec<u64> = Vec::new();
    let mut k: usize = 0;
    proof {
        assert(table::rows_of(cols@) =~= Seq::empty());
    }
    while k < outer.selection.len()
        invariant
            k <= outer.selection@.len(),
            outer.wf(),
            plan.wf(),
            p == plan.view(),
            rows == outer.live_view(),
            width > 0,
            outer.ids@.len() <= width,
            outer.ids@.len() <= plan.children@.len(),
            leg_ready(p, outer.ids@.len()),
            f == (|x: RowV| leg_row(p, width as nat, x)),
            st.wf(*plan),
            forall|v: int| outer.ids@.len() <= v < st.bind@.len() ==> st.bind@[v] == NULL_ID,
            cols@.len() == width,
            table::aligned(cols@),
            table::rows_of(cols@).len() == k,
            weights@.len() == k,
            forall|j: int|
                0 <= j < k ==> f(#[trigger] rows[j]) == Some(
                    RowV {
                        ids: table::rows_of(cols@)[j],
                        used: Seq::empty(),
                        prov: None,
                        weight: weights@[j],
                    },
                ),
        decreases outer.selection.len() - k,
    {
        let r: usize = outer.selection[k];
        let ghost row = outer.row(r as int);
        assert(rows[k as int] == row);
        load_row(&mut st, plan, outer, r);
        let legs = count_leg(plan, &mut st, outer, r);
        let w: u64 = match legs {
            None => {
                assert(f(rows[k as int]) is None);
                return Err(count_fold_overflow());
            },
            Some(x) => if x == 0 {
                1
            } else {
                x
            },
        };
        let base: u64 = if outer.weights.len() == 0 {
            1
        } else {
            outer.weights[r]
        };
        assert(base == row.weight);
        let total: u64 = match base.checked_mul(w) {
            Some(t) => {
                if t > 0x7fff_ffff_ffff_ffff {
                    assert(f(rows[k as int]) is None);
                    return Err(count_fold_overflow());
                }
                t
            },
            None => {
                assert(f(rows[k as int]) is None);
                return Err(count_fold_overflow());
            },
        };
        let ids = padded(outer, r, width);
        let ghost cols0 = table::rows_of(cols@);
        let ghost weights0 = weights@;
        table::push_row(&mut cols, &ids);
        weights.push(total);
        proof {
            assert(f(rows[k as int]) == Some(
                RowV { ids: ids@, used: Seq::empty(), prov: None, weight: total },
            ));
            assert forall|j: int| 0 <= j < k + 1 implies f(#[trigger] rows[j]) == Some(
                RowV {
                    ids: table::rows_of(cols@)[j],
                    used: Seq::empty(),
                    prov: None,
                    weight: weights@[j],
                },
            ) by {
                if j < k {
                    assert(table::rows_of(cols@)[j] == cols0[j]);
                    assert(weights@[j] == weights0[j]);
                }
            }
        }
        k = k + 1;
    }
    let ghost all = table::rows_of(cols@);
    let mut c = table::chunk_of(vars, kinds, cols);
    let ghost c0 = c;
    c.weights = weights;
    proof {
        let out = rows.map_values(|a: RowV| f(a)->0);
        assert(c0.live_view() == table::plain_rows(all));
        assert(c0.live_view().len() == all.len());
        assert forall|j: int| 0 <= j < all.len() implies #[trigger] c.live_view()[j] == out[j] by {
            assert(c0.live_view()[j] == table::plain(all[j]));
            assert(f(rows[j]) == Some(
                RowV { ids: all[j], used: Seq::empty(), prov: None, weight: weights@[j] },
            ));
            assert(c.selection@[j] == j);
        }
        assert(c.live_view() =~= out);
    }
    Ok(c)
}

} // verus!
