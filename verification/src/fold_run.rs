//! Running the count fold over the rows of a chunk.

use vstd::prelude::*;

use crate::chunk;
use crate::chunk::{DataChunk, RowV};
use crate::fold::{hop_sum, FoldPlan, FoldState};
use crate::fold_model;
use crate::fold_model::FoldV;
use crate::graph::{RunError, VarKind, NULL_ID};
use crate::hop;
use crate::hop::Hop;
use crate::names;
use crate::names::{copy_ids, repeat_id};
use crate::seqs;

verus! {

/// The message of the overflow refusal.
pub open spec fn overflow_message() -> Seq<char> {
    "count(*) overflowed: this pattern has at least 2^63 matches, which no integer result can represent and no enumeration can reach"@
}

/// An error is the overflow refusal.
pub open spec fn is_overflow(e: RunError) -> bool {
    e matches RunError::Semantic(m) && m@ == overflow_message()
}

/// The refusal of a count that no integer result can represent.
pub fn count_fold_overflow() -> (e: RunError)
    ensures
        is_overflow(e),
{
    RunError::Semantic(
        "count(*) overflowed: this pattern has at least 2^63 matches, which no integer result can represent and no enumeration can reach".to_owned(),
    )
}

/// The binding of a row: its ids, and nothing for the variables past them.
pub open spec fn row_bind(p: FoldV, row: RowV) -> Seq<u64> {
    Seq::new(
        p.width as nat,
        |v: int|
            if v < row.ids.len() {
                row.ids[v]
            } else {
                NULL_ID
            },
    )
}

/// How many walks lead on from a row through a counted hop.
pub open spec fn row_count(p: FoldV, root: int, row: RowV) -> Option<nat> {
    fold_model::hop_eval(p, root, row_bind(p, row), row.used, row.ids[p.hops[root].src])
}

/// The row holds no node for a counted variable past the hop's source, and
/// the relationships it used were taken by earlier hops of the hop's path.
pub open spec fn row_ready(p: FoldV, root: int, row: RowV) -> bool {
    let h = p.hops[root];
    &&& h.src < row.ids.len() <= p.width
    &&& fold_model::unbound_past(p, row_bind(p, row), h.src)
    &&& h.track && !h.reset ==> fold_model::used_earlier(p, row.used, root)
}

/// What counting one more row makes of the rows kept so far and their total.
/// A row with no walk is dropped; once the total has reached the cap the
/// rest are left out; `None` when a count or a weight overflows.
pub open spec fn fold_step(
    p: FoldV,
    root: int,
    cap: Option<u64>,
    acc: Option<(Seq<RowV>, nat)>,
    row: RowV,
) -> Option<(Seq<RowV>, nat)> {
    match acc {
        None => None,
        Some((kept, total)) => if cap matches Some(c) && total >= c {
            acc
        } else {
            match row_count(p, root, row) {
                None => None,
                Some(w) => if w == 0 {
                    acc
                } else if row.weight * w > i64::MAX {
                    None
                } else {
                    Some(
                        (
                            kept.push(RowV { weight: (row.weight * w) as u64, ..row }),
                            (total + row.weight * w) as nat,
                        ),
                    )
                },
            }
        },
    }
}

/// The rows kept of a batch, each with its weight multiplied by its walks,
/// and their total, from a total reached before.
pub open spec fn fold_live(
    p: FoldV,
    root: int,
    cap: Option<u64>,
    before: nat,
    rows: Seq<RowV>,
) -> Option<(Seq<RowV>, nat)>
    decreases rows.len(),
{
    if rows.len() == 0 {
        Some((Seq::empty(), before))
    } else {
        fold_step(p, root, cap, fold_live(p, root, cap, before, rows.drop_last()), rows.last())
    }
}

/// Without a cap, slices of the driving rows may be counted apart and joined in order.
pub proof fn law_fold_slices(
    p: FoldV,
    root: int,
    x: nat,
    y: nat,
    z: nat,
    a: Seq<RowV>,
    b: Seq<RowV>,
)
    ensures
        match (
            fold_live(p, root, None, x, a),
            fold_live(p, root, None, y, b),
            fold_live(p, root, None, z, a + b),
        ) {
            (Some(l), Some(r), Some(w)) => w.0 == l.0 + r.0 && w.1 - z == (l.1 - x) + (r.1 - y),
            (Some(l), Some(r), None) => false,
            (_, _, w) => w is None,
        },
    decreases b.len(),
{
    if b.len() == 0 {
        assert(a + b =~= a);
        lemma_fold_shift(p, root, x, z, a);
        if fold_live(p, root, None, x, a) is Some {
            let l = fold_live(p, root, None, x, a)->0;
            assert(l.0 + Seq::<RowV>::empty() =~= l.0);
        }
    } else {
        let d = b.drop_last();
        law_fold_slices(p, root, x, y, z, a, d);
        assert((a + b).drop_last() =~= a + d);
        assert((a + b).last() == b.last());
        if fold_live(p, root, None, x, a) is Some && fold_live(p, root, None, y, b) is Some {
            let l = fold_live(p, root, None, x, a)->0;
            let r = fold_live(p, root, None, y, b)->0;
            assert(fold_live(p, root, None, y, d) is Some);
            let w = fold_live(p, root, None, z, a + b)->0;
            assert(w.0 =~= l.0 + r.0);
        }
    }
}

proof fn lemma_fold_shift(p: FoldV, root: int, x: nat, z: nat, a: Seq<RowV>)
    ensures
        match (fold_live(p, root, None, x, a), fold_live(p, root, None, z, a)) {
            (Some(l), Some(w)) => w.0 == l.0 && w.1 - z == l.1 - x,
            (None, None) => true,
            _ => false,
        },
    decreases a.len(),
{
    if a.len() > 0 {
        lemma_fold_shift(p, root, x, z, a.drop_last());
    }
}

/// The sum of the weights of rows.
pub open spec fn weight_sum(rows: Seq<RowV>) -> nat
    decreases rows.len(),
{
    if rows.len() == 0 {
        0
    } else {
        weight_sum(rows.drop_last()) + rows.last().weight as nat
    }
}

/// The total of a fold is the sum of the weights it kept. With a cap it is
/// the uncapped total when that is below the cap, and at least the cap otherwise.
pub proof fn law_cap_is_enough(p: FoldV, root: int, cap: u64, rows: Seq<RowV>)
    ensures
        fold_live(p, root, None, 0, rows) matches Some(full) ==> {
            &&& full.1 == weight_sum(full.0)
            &&& fold_live(p, root, Some(cap), 0, rows) matches Some(part) && part.1 == weight_sum(
                part.0,
            ) && if full.1 < cap {
                part == full
            } else {
                cap <= part.1 <= full.1
            }
        },
    decreases rows.len(),
{
    if rows.len() > 0 {
        law_cap_is_enough(p, root, cap, rows.drop_last());
        match fold_live(p, root, None, 0, rows) {
            Some(full) => {
                let f0 = fold_live(p, root, None, 0, rows.drop_last())->0;
                let p0 = fold_live(p, root, Some(cap), 0, rows.drop_last())->0;
                let r = rows.last();
                let w = row_count(p, root, r)->0;
                let x = RowV { weight: (r.weight * w) as u64, ..r };
                assert(f0.0.push(x).drop_last() =~= f0.0);
                assert(p0.0.push(x).drop_last() =~= p0.0);
                assert(r.weight * w >= 0) by (nonlinear_arith)
                    requires
                        r.weight >= 0,
                        w >= 0,
                ;
            },
            None => {},
        }
    }
}

proof fn lemma_fold_none(
    p: FoldV,
    root: int,
    cap: Option<u64>,
    before: nat,
    rows: Seq<RowV>,
    i: int,
)
    requires
        0 <= i <= rows.len(),
    ensures
        fold_live(p, root, cap, before, rows.take(i)) is None ==> fold_live(
            p,
            root,
            cap,
            before,
            rows,
        ) is None,
    decreases rows.len() - i,
{
    if i == rows.len() {
        assert(rows.take(i) =~= rows);
    } else {
        seqs::lemma_take_last(rows, i);
        lemma_fold_none(p, root, cap, before, rows, i + 1);
    }
}

proof fn lemma_fold_stop(
    p: FoldV,
    root: int,
    cap: u64,
    before: nat,
    rows: Seq<RowV>,
    i: int,
)
    requires
        0 <= i <= rows.len(),
        fold_live(p, root, Some(cap), before, rows.take(i)) matches Some(a) && a.1 >= cap,
    ensures
        fold_live(p, root, Some(cap), before, rows) == fold_live(
            p,
            root,
            Some(cap),
            before,
            rows.take(i),
        ),
    decreases rows.len() - i,
{
    if i == rows.len() {
        assert(rows.take(i) =~= rows);
    } else {
        seqs::lemma_take_last(rows, i);
        lemma_fold_stop(p, root, cap, before, rows, i + 1);
    }
}

/// The rows that a list of row indices and weights names.
pub open spec fn named_rows(c: DataChunk, kept: Seq<(usize, u64)>) -> Seq<RowV> {
    kept.map_values(|k: (usize, u64)| RowV { weight: k.1, ..c.row(k.0 as int) })
}

/// The rows at some indices of a chunk.
pub open spec fn rows_at(c: DataChunk, rows: Seq<usize>) -> Seq<RowV> {
    rows.map_values(|r: usize| c.row(r as int))
}

/// Load a row's ids into the fold's binding.
pub fn load_row(st: &mut FoldState, plan: &FoldPlan, c: &DataChunk, r: usize)
    requires
        old(st).wf(*plan),
        c.wf(),
        r < c.rows(),
        c.ids@.len() <= plan.children@.len(),
        forall|v: int| c.ids@.len() <= v < old(st).bind@.len() ==> old(st).bind@[v] == NULL_ID,
    ensures
        final(st).wf(*plan),
        final(st).used == old(st).used,
        final(st).bind@ == row_bind(plan.view(), c.row(r as int)),
{
    let mut vi: usize = 0;
    while vi < c.ids.len()
        invariant
            vi <= c.ids@.len(),
            c.wf(),
            r < c.rows(),
            c.ids@.len() <= plan.children@.len(),
            st.wf(*plan),
            st.used == old(st).used,
            forall|v: int| c.ids@.len() <= v < st.bind@.len() ==> st.bind@[v] == NULL_ID,
            forall|v: int| 0 <= v < vi ==> st.bind@[v] == c.row(r as int).ids[v],
        decreases c.ids.len() - vi,
    {
        assert(c.ids@[vi as int]@.len() == c.rows());
        st.bind.set(vi, c.ids[vi][r]);
        vi = vi + 1;
    }
    assert(st.bind@ =~= row_bind(plan.view(), c.row(r as int)));
}

/// Count the walks of some rows of a chunk through a counted hop: the rows
/// that have any, in order, each with its new weight. `reached` is the total
/// that the cap is held against.
pub fn fold_rows(
    plan: &FoldPlan,
    root: usize,
    c: &DataChunk,
    rows: &Vec<usize>,
    reached: &mut u64,
) -> (res: Result<Vec<(usize, u64)>, RunError>)
    requires
        plan.wf(),
        c.wf(),
        root < plan.hops@.len(),
        plan.hops@[root as int].fold,
        plan.hops@[root as int].src < c.ids@.len(),
        c.ids@.len() <= plan.children@.len(),
        forall|k: int| 0 <= k < rows@.len() ==> #[trigger] rows@[k] < c.rows(),
        forall|k: int|
            0 <= k < rows@.len() ==> row_ready(
                plan.view(),
                root as int,
                c.row(#[trigger] rows@[k] as int),
            ),
    ensures
        match (
            res,
            fold_live(
                plan.view(),
                root as int,
                plan.cap,
                *old(reached) as nat,
                rows_at(*c, rows@),
            ),
        ) {
            (Ok(kept), Some(f)) => {
                &&& named_rows(*c, kept@) == f.0
                &&& plan.cap is Some ==> *final(reached) == f.1
                &&& plan.cap is None ==> *final(reached) == *old(reached)
                &&& forall|k: int|
                    0 <= k < kept@.len() ==> {
                        &&& (#[trigger] kept@[k]).0 < c.rows()
                        &&& row_count(
                            plan.view(),
                            root as int,
                            c.row(kept@[k].0 as int),
                        ) matches Some(w) && kept@[k].1 == c.row(kept@[k].0 as int).weight * w
                    }
            },
            (Err(e), None) => is_overflow(e),
            _ => false,
        },
{
    let ghost p = plan.view();
    let ghost all = rows_at(*c, rows@);
    let ghost before = *reached as nat;
    let hop = &plan.hops[root];
    let mut st = FoldState::new(plan);
    let mut kept: Vec<(usize, u64)> = Vec::new();
    let ghost mut total: nat = before;
    let ghost nm = |k: (usize, u64)| RowV { weight: k.1, ..c.row(k.0 as int) };
    let mut k: usize = 0;
    proof {
        assert(all.take(0) =~= Seq::empty());
        assert(named_rows(*c, kept@) =~= Seq::empty());
    }
    while k < rows.len()
        invariant
            k <= rows@.len(),
            plan.wf(),
            c.wf(),
            p == plan.view(),
            root < plan.hops@.len(),
            hop == plan.hops@[root as int],
            hop.fold,
            hop.src < c.ids@.len(),
            c.ids@.len() <= plan.children@.len(),
            forall|k: int| 0 <= k < rows@.len() ==> #[trigger] rows@[k] < c.rows(),
            forall|k: int|
                0 <= k < rows@.len() ==> row_ready(p, root as int, c.row(#[trigger] rows@[k] as int)),
            all == rows_at(*c, rows@),
            before == *old(reached) as nat,
            st.wf(*plan),
            forall|v: int| c.ids@.len() <= v < st.bind@.len() ==> st.bind@[v] == NULL_ID,
            nm == (|k: (usize, u64)| RowV { weight: k.1, ..c.row(k.0 as int) }),
            fold_live(p, root as int, plan.cap, before, all.take(k as int)) == Some(
                (named_rows(*c, kept@), total),
            ),
            plan.cap is Some ==> *reached == total,
            plan.cap is None ==> *reached == *old(reached),
            forall|k: int|
                0 <= k < kept@.len() ==> {
                    &&& (#[trigger] kept@[k]).0 < c.rows()
                    &&& row_count(p, root as int, c.row(kept@[k].0 as int)) matches Some(w)
                        && kept@[k].1 == c.row(kept@[k].0 as int).weight * w
                },
        decreases rows.len() - k,
    {
        let r = rows[k];
        assert(rows@[k as int] < c.rows());
        let ghost row = c.row(r as int);
        proof {
            seqs::lemma_take_last(all, k as int);
            assert(all[k as int] == row);
            assert(row_ready(p, root as int, c.row(rows@[k as int] as int)));
            lemma_fold_none(p, root as int, plan.cap, before, all, k + 1);
        }
        match plan.cap {
            Some(cap) => {
                if *reached >= cap {
                    proof {
                        lemma_fold_stop(p, root as int, cap, before, all, k as int);
                    }
                    return Ok(kept);
                }
            },
            None => {},
        }
        load_row(&mut st, plan, c, r);
        st.used.clear();
        if hop.track && !hop.reset && c.used_rels.len() > 0 {
            st.used = copy_ids(&c.used_rels[r]);
        }
        let ghost used = st.used@;
        assert(c.ids@[hop.src as int]@.len() == c.rows());
        proof {
            assert(p.hops[root as int].track == hop.track && p.hops[root as int].reset == hop.reset);
            if hop.track && !hop.reset {
                assert(used =~= row.used);
            }
            assert(fold_model::hop_eval(
                p,
                root as int,
                row_bind(p, row),
                used,
                row.ids[hop.src as int],
            ) == row_count(p, root as int, row)) by {
                assert(fold_model::hop_base(p.hops[root as int], used) =~= fold_model::hop_base(
                    p.hops[root as int],
                    row.used,
                ));
            }
        }
        let w = match hop_sum(plan, &mut st, root, c.ids[hop.src][r]) {
            None => {
                return Err(count_fold_overflow());
            },
            Some(w) => w,
        };
        if w != 0 {
            let weight: u64 = if c.weights.len() == 0 {
                1
            } else {
                c.weights[r]
            };
            assert(weight == row.weight);
            let t = match weight.checked_mul(w) {
                None => {
                    return Err(count_fold_overflow());
                },
                Some(t) => t,
            };
            if t > i64::MAX as u64 {
                return Err(count_fold_overflow());
            }
            let ghost kept0 = kept@;
            kept.push((r, t));
            proof {
                assert(t == row.weight * w);
                assert(named_rows(*c, kept@) =~= named_rows(*c, kept0).push(
                    RowV { weight: t, ..row },
                ));
                total = total + t as nat;
            }
            if plan.cap.is_some() {
                *reached = *reached + t;
            }
        }
        k = k + 1;
    }
    proof {
        assert(all.take(k as int) =~= all);
    }
    Ok(kept)
}

/// Count one subtree into the weights of a chunk's rows: every live row keeps
/// its walks as a factor of its weight, and is dropped when it has none.
pub fn fold_tail(c: DataChunk, plan: &FoldPlan, root: usize, reached: &mut u64) -> (res: Result<
    DataChunk,
    RunError,
>)
    requires
        plan.wf(),
        c.wf(),
        root < plan.hops@.len(),
        plan.hops@[root as int].fold,
        plan.hops@[root as int].src < c.ids@.len(),
        c.ids@.len() <= plan.children@.len(),
        forall|k: int|
            0 <= k < c.selection@.len() ==> row_ready(
                plan.view(),
                root as int,
                #[trigger] c.live_view()[k],
            ),
    ensures
        match (
            res,
            fold_live(plan.view(), root as int, plan.cap, *old(reached) as nat, c.live_view()),
        ) {
            (Ok(d), Some(f)) => {
                &&& d.wf()
                &&& d.live_view() == f.0
                &&& d.vars == c.vars
                &&& d.var_kinds == c.var_kinds
                &&& d.ids == c.ids
                &&& d.used_rels == c.used_rels
                &&& d.prov == c.prov
                &&& d.weights@.len() == c.rows()
                &&& plan.cap is Some ==> *final(reached) == f.1
                &&& plan.cap is None ==> *final(reached) == *old(reached)
            },
            (Err(e), None) => is_overflow(e),
            _ => false,
        },
{
    let ghost p = plan.view();
    proof {
        assert(rows_at(c, c.selection@) =~= c.live_view());
        assert forall|k: int| 0 <= k < c.selection@.len() implies row_ready(
            p,
            root as int,
            c.row(#[trigger] c.selection@[k] as int),
        ) by {
            assert(row_ready(p, root as int, c.live_view()[k]));
        }
    }
    let kept = match fold_rows(plan, root, &c, &c.selection, reached) {
        Ok(kept) => kept,
        Err(e) => {
            return Err(e);
        },
    };
    let n = c.row_count();
    let mut weights: Vec<u64> = if c.weights.len() == 0 {
        repeat_id(1, n)
    } else {
        copy_ids(&c.weights)
    };
    let mut keep: Vec<usize> = Vec::new();
    let mut k: usize = 0;
    while k < kept.len()
        invariant
            k <= kept@.len(),
            n == c.rows(),
            weights@.len() == n,
            keep@.len() == k,
            p == plan.view(),
            forall|j: int|
                0 <= j < kept@.len() ==> {
                    &&& (#[trigger] kept@[j]).0 < c.rows()
                    &&& row_count(p, root as int, c.row(kept@[j].0 as int)) matches Some(w)
                        && kept@[j].1 == c.row(kept@[j].0 as int).weight * w
                },
            forall|j: int|
                0 <= j < k ==> #[trigger] keep@[j] == kept@[j].0 && weights@[keep@[j] as int]
                    == kept@[j].1,
        decreases kept.len() - k,
    {
        let r = kept[k].0;
        let w = kept[k].1;
        assert(kept@[k as int].0 < c.rows());
        let ghost weights0 = weights@;
        weights.set(r, w);
        keep.push(r);
        proof {
            assert forall|j: int| 0 <= j < k + 1 implies #[trigger] keep@[j] == kept@[j].0
                && weights@[keep@[j] as int] == kept@[j].1 by {
                if j < k {
                    assert(kept@[j].0 < c.rows());
                    if kept@[j].0 == r {
                        assert(kept@[j].1 == kept@[k as int].1);
                    }
                }
            }
        }
        k = k + 1;
    }
    let d = DataChunk {
        vars: c.vars,
        var_kinds: c.var_kinds,
        ids: c.ids,
        selection: keep,
        used_rels: c.used_rels,
        prov: c.prov,
        weights,
    };
    proof {
        assert forall|j: int| 0 <= j < keep@.len() implies #[trigger] d.selection@[j] < d.rows() by {
            assert(keep@[j] == kept@[j].0);
            assert(kept@[j].0 < c.rows());
        }
        let f = named_rows(c, kept@);
        assert forall|j: int| 0 <= j < keep@.len() implies d.live_view()[j] =~= f[j] by {
            assert(keep@[j] == kept@[j].0);
            assert(d.row(keep@[j] as int).ids =~= c.row(keep@[j] as int).ids);
        }
        assert(d.live_view() =~= f);
    }
    Ok(d)
}

/// Rows with no entity for what a counted hop would bind.
pub open spec fn folded_rows(h: Hop, rows: Seq<RowV>) -> Seq<RowV> {
    let pad = |row: RowV| RowV { ids: row.ids.push(NULL_ID), ..row };
    let a = if h.tgt is None {
        rows.map_values(pad)
    } else {
        rows
    };
    if h.rel_var is Some {
        a.map_values(pad)
    } else {
        a
    }
}

/// How many variables a counted hop adds.
pub open spec fn added(h: Hop) -> nat {
    (if h.tgt is None {
        1nat
    } else {
        0
    }) + (if h.rel_var is Some {
        1nat
    } else {
        0
    })
}

/// Run a counted hop: a root counts its subtree into the weights, and the
/// variables that the hop would bind get no entity.
pub fn run_hop_folded(
    c: DataChunk,
    hop: &Hop,
    hi: usize,
    plan: &FoldPlan,
    reached: &mut u64,
) -> (res: Result<DataChunk, RunError>)
    requires
        plan.wf(),
        c.wf(),
        c.ids@.len() > 0,
        hi < plan.hops@.len(),
        *hop == plan.hops@[hi as int],
        hop.fold,
        plan.root@[hi as int] ==> {
            &&& hop.src < c.ids@.len()
            &&& c.ids@.len() <= plan.children@.len()
            &&& forall|k: int|
                0 <= k < c.selection@.len() ==> row_ready(
                    plan.view(),
                    hi as int,
                    #[trigger] c.live_view()[k],
                )
        },
    ensures
        res matches Ok(d) ==> {
            &&& hop.varlen is None ==> names::of(d.vars@) == hop::hop_vars(*hop, names::of(c.vars@))
                && d.var_kinds@ == hop::hop_kinds(*hop, c.var_kinds@)
            &&& forall|v: int, r: int|
                c.ids@.len() <= v < d.ids@.len() && 0 <= r < d.rows() ==> #[trigger] d.ids@[v]@[r]
                    == NULL_ID
            &&& forall|v: int| 0 <= v < c.ids@.len() ==> (#[trigger] d.ids@[v])@ == c.ids@[v]@
            &&& !plan.root@[hi as int] ==> d.selection@ == c.selection@ && d.weights@ == c.weights@
        },
        ({
            let counted = if plan.root@[hi as int] {
                fold_live(plan.view(), hi as int, plan.cap, *old(reached) as nat, c.live_view())
            } else {
                Some((c.live_view(), *old(reached) as nat))
            };
            match (res, counted) {
                (Ok(d), Some(f)) => {
                    &&& d.wf()
                    &&& d.live_view() == folded_rows(*hop, f.0)
                    &&& names::of(d.vars@) == chunk::vars_after(
                        names::of(c.vars@),
                        if hop.tgt is None {
                            Some(hop.var@)
                        } else {
                            None
                        },
                        hop::own_name(hop.rel_var),
                    )
                    &&& d.var_kinds@ == chunk::kinds_after(
                        c.var_kinds@,
                        hop.tgt is None,
                        hop.rel_var is Some,
                    )
                    &&& d.rows() == c.rows()
                    &&& d.ids@.len() == c.ids@.len() + added(*hop)
                    &&& forall|v: int|
                        0 <= v < c.ids@.len() ==> #[trigger] d.ids@[v] == c.ids@[v]
                    &&& forall|v: int|
                        c.ids@.len() <= v < d.ids@.len() ==> (#[trigger] d.ids@[v])@ == Seq::new(
                            c.rows(),
                            |r: int| NULL_ID,
                        )
                    &&& d.used_rels == c.used_rels
                    &&& d.prov == c.prov
                    &&& !plan.root@[hi as int] ==> d.selection == c.selection && d.weights
                        == c.weights
                    &&& plan.root@[hi as int] ==> d.weights@.len() == c.rows()
                    &&& plan.cap is Some ==> *final(reached) == f.1
                    &&& plan.cap is None ==> *final(reached) == *old(reached)
                },
                (Err(e), None) => is_overflow(e),
                _ => false,
            }
        }),
{
    let mut d = c;
    if plan.root[hi] {
        match fold_tail(d, plan, hi, reached) {
            Ok(f) => {
                d = f;
            },
            Err(e) => {
                return Err(e);
            },
        }
    }
    if hop.tgt.is_none() {
        d.null_extend(hop.var.as_str(), VarKind::Node);
    }
    match &hop.rel_var {
        Some(rv) => {
            d.null_extend(rv.as_str(), VarKind::Rel);
        },
        None => {},
    }
    Ok(d)
}

} // verus!
