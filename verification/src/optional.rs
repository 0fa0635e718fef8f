//! The left join of an optional pattern.

use std::collections::BTreeSet;
use vstd::prelude::*;

use crate::chunk;
use crate::chunk::{copy_kinds, DataChunk, HopV, RowV};
use crate::fold;
use crate::graph;
use crate::graph::{Graph, RunError, VarKind, NULL_ID};
use crate::hop;
use crate::hop::Hop;
use crate::names;
use crate::names::{copy_names, empty_lists, index_range};
use crate::select;
use crate::select::Filter;
use crate::seqs;
use crate::table;

verus! {

/// A step of an optional pattern: what the hop does, and what it closes onto.
pub struct StepV {
    pub h: HopV,
    pub tgt: Option<int>,
}

/// The rows that one step makes of a batch.
pub open spec fn step_rows(g: Graph, s: StepV, rows: Seq<RowV>) -> Seq<RowV> {
    match s.tgt {
        None => chunk::expand_rows(g, s.h, rows),
        Some(t) => chunk::close_rows(g, s.h, t, rows),
    }
}

/// The rows that the first `n` steps make of a batch.
pub open spec fn steps_rows(g: Graph, ss: Seq<StepV>, n: nat, rows: Seq<RowV>) -> Seq<RowV>
    decreases n,
{
    if n == 0 {
        rows
    } else {
        step_rows(g, ss[n - 1], steps_rows(g, ss, (n - 1) as nat, rows))
    }
}

/// Whether each of the first `n` steps stays within the row budget.
pub open spec fn steps_fit(g: Graph, ss: Seq<StepV>, n: nat, rows: Seq<RowV>) -> bool {
    forall|i: int|
        0 < i <= n ==> !g.over_budget((#[trigger] steps_rows(g, ss, i as nat, rows)).len() as int)
}

/// The steps of an optional pattern: its first hop starts a path of its own.
pub open spec fn leg_steps(
    hops: Seq<Hop>,
    tokens: Seq<Option<Vec<u32>>>,
    members: Seq<Option<BTreeSet<u64>>>,
) -> Seq<StepV> {
    Seq::new(
        hops.len(),
        |i: int|
            StepV {
                h: HopV {
                    src: hops[i].src as int,
                    dir: hops[i].dir,
                    tokens: graph::tokens_view(tokens[i]),
                    members: if hops[i].tgt is None {
                        fold::own_members(members[i])
                    } else {
                        None
                    },
                    track: hops[i].track,
                    reset: i == 0 || hops[i].reset,
                    rel_col: hops[i].rel_var is Some,
                },
                tgt: fold::opt_int(hops[i].tgt),
            },
    )
}

/// The matches of one outer row: the rows of the steps that pass the filter.
pub open spec fn leg_matches(
    g: Graph,
    ss: Seq<StepV>,
    p: spec_fn(Seq<u64>) -> bool,
    row: RowV,
) -> Seq<RowV> {
    steps_rows(g, ss, ss.len(), seq![row]).filter(|r: RowV| p(r.ids))
}

/// A row with its outer row and its used relationships forgotten.
pub open spec fn bare(r: RowV) -> RowV {
    RowV { ids: r.ids, used: Seq::empty(), prov: None, weight: r.weight }
}

/// An outer row without a match: no entity for the pattern's variables.
pub open spec fn null_filled(row: RowV, width: nat) -> RowV {
    RowV {
        ids: row.ids + Seq::new((width - row.ids.len()) as nat, |i: int| NULL_ID),
        used: Seq::empty(),
        prov: None,
        weight: row.weight,
    }
}

/// What the left join makes of one outer row: its matches, or itself without any.
pub open spec fn joined_row(
    g: Graph,
    ss: Seq<StepV>,
    p: spec_fn(Seq<u64>) -> bool,
    width: nat,
    row: RowV,
) -> Seq<RowV> {
    let m = leg_matches(g, ss, p, row);
    if m.len() == 0 {
        seq![null_filled(row, width)]
    } else {
        m.map_values(|r: RowV| bare(r))
    }
}

/// What the left join makes of the outer rows, in their order.
pub open spec fn left_join_rows(
    g: Graph,
    ss: Seq<StepV>,
    p: spec_fn(Seq<u64>) -> bool,
    width: nat,
    rows: Seq<RowV>,
) -> Seq<RowV>
    decreases rows.len(),
{
    if rows.len() == 0 {
        Seq::empty()
    } else {
        left_join_rows(g, ss, p, width, rows.drop_last()) + joined_row(
            g,
            ss,
            p,
            width,
            rows.last(),
        )
    }
}

/// A left join loses no outer row.
pub proof fn law_left_join_keeps_rows(
    g: Graph,
    ss: Seq<StepV>,
    p: spec_fn(Seq<u64>) -> bool,
    width: nat,
    rows: Seq<RowV>,
)
    ensures
        left_join_rows(g, ss, p, width, rows).len() >= rows.len(),
    decreases rows.len(),
{
    if rows.len() > 0 {
        law_left_join_keeps_rows(g, ss, p, width, rows.drop_last());
    }
}

/// Steps over two batches are steps over each, one after the other.
pub proof fn lemma_steps_add(g: Graph, ss: Seq<StepV>, n: nat, a: Seq<RowV>, b: Seq<RowV>)
    ensures
        steps_rows(g, ss, n, a + b) == steps_rows(g, ss, n, a) + steps_rows(g, ss, n, b),
    decreases n,
{
    if n > 0 {
        lemma_steps_add(g, ss, (n - 1) as nat, a, b);
        let x = steps_rows(g, ss, (n - 1) as nat, a);
        let y = steps_rows(g, ss, (n - 1) as nat, b);
        match ss[n - 1].tgt {
            None => chunk::law_expand_slices(g, ss[n - 1].h, x, y),
            Some(t) => chunk::law_close_slices(g, ss[n - 1].h, t, x, y),
        }
    }
}

/// A row with another outer row.
spec fn retag(r: RowV, prov: Option<usize>) -> RowV {
    RowV { prov, ..r }
}

spec fn retag_all(rows: Seq<RowV>, prov: Option<usize>) -> Seq<RowV> {
    rows.map_values(|r: RowV| retag(r, prov))
}

proof fn lemma_step_retag(g: Graph, s: StepV, rows: Seq<RowV>, prov: Option<usize>)
    ensures
        step_rows(g, s, retag_all(rows, prov)) == retag_all(step_rows(g, s, rows), prov),
    decreases rows.len(),
{
    let t = retag_all(rows, prov);
    if rows.len() == 0 {
        assert(t =~= rows);
        assert(retag_all(step_rows(g, s, rows), prov) =~= step_rows(g, s, rows));
    } else {
        let d = rows.drop_last();
        let row = rows.last();
        lemma_step_retag(g, s, d, prov);
        assert(t.drop_last() =~= retag_all(d, prov));
        assert(t.last() == retag(row, prov));
        let base = chunk::base_of(row, s.h.track, s.h.reset);
        let es = g.adj(row.ids[s.h.src], s.h.dir, s.h.tokens).reverse();
        match s.tgt {
            None => {
                let keep = |e: graph::Adj| chunk::expand_keeps(s.h, base, e);
                let make = |e: graph::Adj| chunk::expand_makes(s.h, row, base, e);
                let make2 = |e: graph::Adj|
                    chunk::expand_makes(s.h, retag(row, prov), base, e);
                assert(seqs::keep_map(es, keep, make2) =~= retag_all(
                    seqs::keep_map(es, keep, make),
                    prov,
                ));
            },
            Some(tgt) => {
                let keep = |e: graph::Adj| chunk::close_keeps(s.h, row.ids[tgt], base, e);
                let make = |e: graph::Adj| chunk::close_makes(s.h, row, base, e);
                let make2 = |e: graph::Adj| chunk::close_makes(s.h, retag(row, prov), base, e);
                assert(seqs::keep_map(es, keep, make2) =~= retag_all(
                    seqs::keep_map(es, keep, make),
                    prov,
                ));
            },
        }
        let x = step_rows(g, s, d);
        let y = step_rows(g, s, rows);
        assert(step_rows(g, s, t) =~= retag_all(y, prov));
    }
}

proof fn lemma_steps_retag(g: Graph, ss: Seq<StepV>, n: nat, rows: Seq<RowV>, prov: Option<usize>)
    ensures
        steps_rows(g, ss, n, retag_all(rows, prov)) == retag_all(
            steps_rows(g, ss, n, rows),
            prov,
        ),
    decreases n,
{
    if n > 0 {
        lemma_steps_retag(g, ss, (n - 1) as nat, rows, prov);
        lemma_step_retag(g, ss[n - 1], steps_rows(g, ss, (n - 1) as nat, rows), prov);
    }
}

proof fn lemma_filter_retag(
    rows: Seq<RowV>,
    p: spec_fn(Seq<u64>) -> bool,
    prov: Option<usize>,
)
    ensures
        retag_all(rows, prov).filter(|r: RowV| p(r.ids)) == retag_all(
            rows.filter(|r: RowV| p(r.ids)),
            prov,
        ),
    decreases rows.len(),
{
    let q = |r: RowV| p(r.ids);
    let t = retag_all(rows, prov);
    if rows.len() == 0 {
        seqs::lemma_filter_empty(q);
        assert(rows =~= Seq::empty());
        assert(t =~= Seq::empty());
        assert(retag_all(Seq::empty(), prov) =~= Seq::empty());
    } else {
        lemma_filter_retag(rows.drop_last(), p, prov);
        seqs::lemma_filter_last(rows, q);
        seqs::lemma_filter_last(t, q);
        assert(t.drop_last() =~= retag_all(rows.drop_last(), prov));
        let d = rows.drop_last().filter(q);
        if p(rows.last().ids) {
            assert(retag_all(d.push(rows.last()), prov) =~= retag_all(d, prov).push(t.last()));
        }
    }
}

/// The matches of an outer row that carries its own index.
spec fn block(
    g: Graph,
    ss: Seq<StepV>,
    p: spec_fn(Seq<u64>) -> bool,
    rows: Seq<RowV>,
    i: int,
) -> Seq<RowV> {
    retag_all(leg_matches(g, ss, p, rows[i]), Some(i as usize))
}

/// The matches of the first `n` outer rows.
spec fn blocks(
    g: Graph,
    ss: Seq<StepV>,
    p: spec_fn(Seq<u64>) -> bool,
    rows: Seq<RowV>,
    n: nat,
) -> Seq<RowV>
    decreases n,
{
    if n == 0 {
        Seq::empty()
    } else {
        blocks(g, ss, p, rows, (n - 1) as nat) + block(g, ss, p, rows, n - 1)
    }
}

/// A row names an outer row from `lo` up to `hi`.
spec fn tag_within(r: RowV, lo: int, hi: int) -> bool {
    r.prov matches Some(i) && lo <= i < hi
}

/// Outer rows that carry their own index.
spec fn tagged(rows: Seq<RowV>) -> Seq<RowV> {
    Seq::new(rows.len(), |i: int| retag(rows[i], Some(i as usize)))
}

proof fn lemma_blocks(
    g: Graph,
    ss: Seq<StepV>,
    p: spec_fn(Seq<u64>) -> bool,
    rows: Seq<RowV>,
    n: nat,
)
    requires
        n <= rows.len(),
    ensures
        steps_rows(g, ss, ss.len(), tagged(rows).take(n as int)).filter(|r: RowV| p(r.ids))
            == blocks(g, ss, p, rows, n),
    decreases n,
{
    let q = |r: RowV| p(r.ids);
    let t = tagged(rows);
    if n == 0 {
        assert(t.take(0) =~= Seq::empty());
        lemma_steps_empty(g, ss, ss.len());
        seqs::lemma_filter_empty(q);
    } else {
        lemma_blocks(g, ss, p, rows, (n - 1) as nat);
        let one = seq![rows[n - 1]];
        let prov = Some((n - 1) as usize);
        assert(t.take(n as int) =~= t.take(n - 1) + retag_all(one, prov));
        lemma_steps_add(g, ss, ss.len(), t.take(n - 1), retag_all(one, prov));
        lemma_steps_retag(g, ss, ss.len(), one, prov);
        lemma_filter_retag(steps_rows(g, ss, ss.len(), one), p, prov);
        Seq::filter_distributes_over_add(
            steps_rows(g, ss, ss.len(), t.take(n - 1)),
            steps_rows(g, ss, ss.len(), retag_all(one, prov)),
            q,
        );
    }
}

proof fn lemma_steps_empty(g: Graph, ss: Seq<StepV>, n: nat)
    ensures
        steps_rows(g, ss, n, Seq::empty()) == Seq::<RowV>::empty(),
    decreases n,
{
    if n > 0 {
        lemma_steps_empty(g, ss, (n - 1) as nat);
    }
}

/// The matches past the first `n` outer rows name later outer rows.
proof fn lemma_blocks_later(
    g: Graph,
    ss: Seq<StepV>,
    p: spec_fn(Seq<u64>) -> bool,
    rows: Seq<RowV>,
    n: nat,
    m: nat,
)
    requires
        n <= m <= rows.len(),
        rows.len() <= usize::MAX,
    ensures
        blocks(g, ss, p, rows, n).len() <= blocks(g, ss, p, rows, m).len(),
        blocks(g, ss, p, rows, m).take(blocks(g, ss, p, rows, n).len() as int) == blocks(
            g,
            ss,
            p,
            rows,
            n,
        ),
        forall|k: int|
            blocks(g, ss, p, rows, n).len() <= k < blocks(g, ss, p, rows, m).len() ==> tag_within(
                #[trigger] blocks(g, ss, p, rows, m)[k],
                n as int,
                m as int,
            ),
    decreases m,
{
    let a = blocks(g, ss, p, rows, n);
    let b = blocks(g, ss, p, rows, m);
    if n == m {
        assert(b.take(a.len() as int) =~= a);
    } else {
        lemma_blocks_later(g, ss, p, rows, n, (m - 1) as nat);
        let c = blocks(g, ss, p, rows, (m - 1) as nat);
        assert(b.take(a.len() as int) =~= c.take(a.len() as int));
        assert forall|k: int| a.len() <= k < b.len() implies tag_within(
            #[trigger] b[k],
            n as int,
            m as int,
        ) by {
            if k < c.len() {
                assert(b[k] == c[k]);
            } else {
                assert(b[k] == block(g, ss, p, rows, m - 1)[k - c.len()]);
            }
        }
    }
}

/// The number of ids of a row after the first `n` steps.
pub open spec fn width_after(ss: Seq<StepV>, n: nat, width: nat) -> nat
    decreases n,
{
    if n == 0 {
        width
    } else {
        let s = ss[n - 1];
        width_after(ss, (n - 1) as nat, width) + (if s.tgt is None {
            1nat
        } else {
            0nat
        }) + (if s.h.rel_col {
            1nat
        } else {
            0nat
        })
    }
}

/// The columns that each step reads are bound by then.
pub open spec fn steps_bound(ss: Seq<StepV>, width: nat) -> bool {
    forall|i: int|
        0 <= i < ss.len() ==> {
            let s = #[trigger] ss[i];
            &&& 0 <= s.h.src < width_after(ss, i as nat, width)
            &&& s.tgt matches Some(t) ==> 0 <= t < width_after(ss, i as nat, width)
        }
}

/// The verdict of an optional filter on a row's ids.
pub open spec fn passes(
    g: Graph,
    f: Option<&Filter>,
    vars: Seq<Seq<char>>,
) -> spec_fn(Seq<u64>) -> bool {
    |ids: Seq<u64>| f matches Some(p) ==> p.holds(g, vars, ids)
}

/// Give each live row of a chunk its position among them as its outer row.
fn tag_rows(outer: DataChunk) -> (work: DataChunk)
    requires
        outer.wf(),
        outer.selection@.no_duplicates(),
    ensures
        work.wf(),
        work.live_view() == tagged(outer.live_view()),
        work.vars == outer.vars,
        work.var_kinds == outer.var_kinds,
        work.ids == outer.ids,
        work.selection == outer.selection,
        work.weights == outer.weights,
{
    let ghost live = outer.live_view();
    let mut prov: Vec<usize> = Vec::new();
    let rows = outer.row_count();
    let mut i: usize = 0;
    while i < rows
        invariant
            i <= rows,
            prov@.len() == i,
        decreases rows - i,
    {
        prov.push(0);
        i = i + 1;
    }
    let mut i: usize = 0;
    while i < outer.selection.len()
        invariant
            i <= outer.selection@.len(),
            outer.wf(),
            rows == outer.rows(),
            prov@.len() == rows,
            outer.selection@.no_duplicates(),
            forall|k: int|
                0 <= k < i ==> prov@[#[trigger] outer.selection@[k] as int] == k,
        decreases outer.selection.len() - i,
    {
        let r = outer.selection[i];
        assert(outer.selection@[i as int] < outer.rows());
        prov.set(r, i);
        i = i + 1;
    }
    let work = DataChunk {
        vars: outer.vars,
        var_kinds: outer.var_kinds,
        ids: outer.ids,
        selection: outer.selection,
        used_rels: outer.used_rels,
        prov,
        weights: outer.weights,
    };
    proof {
        assert forall|k: int| 0 <= k < live.len() implies work.live_view()[k] =~= tagged(
            live,
        )[k] by {
            let r = outer.selection@[k] as int;
            assert(r < outer.rows());
            assert(prov@[outer.selection@[k] as int] == k);
            assert(work.row(r).ids =~= outer.row(r).ids);
        }
        assert(work.live_view() =~= tagged(live));
    }
    work
}

/// Run the steps of an optional pattern over a chunk.
#[verifier::rlimit(60)]
fn run_leg(
    g: &Graph,
    start: DataChunk,
    hops: &Vec<Hop>,
    tokens: &Vec<Option<Vec<u32>>>,
    members: &Vec<Option<BTreeSet<u64>>>,
) -> (res: Result<DataChunk, RunError>)
    requires
        start.wf(),
        tokens@.len() == hops@.len(),
        members@.len() == hops@.len(),
        forall|i: int| 0 <= i < hops@.len() ==> (#[trigger] hops@[i]).varlen is None,
        steps_bound(leg_steps(hops@, tokens@, members@), start.ids@.len()),
    ensures
        ({
            let ss = leg_steps(hops@, tokens@, members@);
            match res {
                Ok(c) => {
                    &&& steps_fit(*g, ss, ss.len(), start.live_view())
                    &&& c.wf()
                    &&& c.live_view() == steps_rows(*g, ss, ss.len(), start.live_view())
                    &&& c.ids@.len() == width_after(ss, ss.len(), start.ids@.len())
                    &&& names::of(c.vars@) == leg_vars(hops@, hops@.len(), names::of(start.vars@))
                    &&& c.var_kinds@ == leg_kinds(hops@, hops@.len(), start.var_kinds@)
                },
                Err(e) => e == RunError::RowBudget && !steps_fit(
                    *g,
                    ss,
                    ss.len(),
                    start.live_view(),
                ),
            }
        }),
{
    let ghost ss = leg_steps(hops@, tokens@, members@);
    let ghost live = start.live_view();
    let ghost width = start.ids@.len();
    let ghost vars0 = names::of(start.vars@);
    let ghost kinds0 = start.var_kinds@;
    let mut work = start;
    let mut h: usize = 0;
    while h < hops.len()
        invariant
            h <= hops@.len(),
            work.wf(),
            ss == leg_steps(hops@, tokens@, members@),
            tokens@.len() == hops@.len(),
            members@.len() == hops@.len(),
            steps_bound(ss, width),
            forall|i: int| 0 <= i < hops@.len() ==> (#[trigger] hops@[i]).varlen is None,
            work.ids@.len() == width_after(ss, h as nat, width),
            work.live_view() == steps_rows(*g, ss, h as nat, live),
            live == start.live_view(),
            steps_fit(*g, ss, h as nat, live),
            names::of(work.vars@) == leg_vars(hops@, h as nat, vars0),
            work.var_kinds@ == leg_kinds(hops@, h as nat, kinds0),
        decreases hops.len() - h,
    {
        let hop = &hops[h];
        let ghost s = ss[h as int];
        assert(s.h.src < width_after(ss, h as nat, width));
        assert(hops@[h as int].varlen is None);
        let reset = h == 0 || hop.reset;
        let m: Option<&BTreeSet<u64>> = match &members[h] {
            Some(s) => Some(s),
            None => None,
        };
        proof {
            assert(graph::members_view(m) == fold::own_members(members@[h as int]));
            assert(s == (StepV {
                h: HopV {
                    src: hop.src as int,
                    dir: hop.dir,
                    tokens: graph::tokens_view(tokens@[h as int]),
                    members: if hop.tgt is None {
                        fold::own_members(members@[h as int])
                    } else {
                        None
                    },
                    track: hop.track,
                    reset,
                    rel_col: hop.rel_var is Some,
                },
                tgt: fold::opt_int(hop.tgt),
            }));
        }
        match step(g, work, hop, &tokens[h], m, reset) {
            Ok(c) => {
                work = c;
            },
            Err(e) => {
                proof {
                    assert(!steps_fit(*g, ss, ss.len(), live)) by {
                        assert(g.over_budget(
                            steps_rows(*g, ss, (h + 1) as nat, live).len() as int,
                        ));
                    }
                }
                return Err(e);
            },
        }
        proof {
            assert forall|i: int| 0 < i <= h + 1 implies !g.over_budget(
                (#[trigger] steps_rows(*g, ss, i as nat, live)).len() as int,
            ) by {}
        }
        h = h + 1;
    }
    Ok(work)
}

/// One step of an optional pattern.
fn step(
    g: &Graph,
    work: DataChunk,
    hop: &Hop,
    tokens: &Option<Vec<u32>>,
    members: Option<&BTreeSet<u64>>,
    reset: bool,
) -> (res: Result<DataChunk, RunError>)
    requires
        work.wf(),
        hop.src < work.ids@.len(),
        hop.tgt matches Some(t) ==> t < work.ids@.len(),
        hop.varlen is None,
    ensures
        ({
            let s = StepV {
                h: HopV {
                    src: hop.src as int,
                    dir: hop.dir,
                    tokens: graph::tokens_view(*tokens),
                    members: if hop.tgt is None {
                        graph::members_view(members)
                    } else {
                        None
                    },
                    track: hop.track,
                    reset,
                    rel_col: hop.rel_var is Some,
                },
                tgt: fold::opt_int(hop.tgt),
            };
            let rows = step_rows(*g, s, work.live_view());
            match res {
                Ok(c) => {
                    &&& !g.over_budget(rows.len() as int)
                    &&& c.wf()
                    &&& c.live_view() == rows
                    &&& c.ids@.len() == work.ids@.len() + (if hop.tgt is None {
                        1nat
                    } else {
                        0nat
                    }) + (if hop.rel_var is Some {
                        1nat
                    } else {
                        0nat
                    })
                    &&& names::of(c.vars@) == hop::hop_vars(*hop, names::of(work.vars@))
                    &&& c.var_kinds@ == hop::hop_kinds(*hop, work.var_kinds@)
                },
                Err(e) => e == RunError::RowBudget && g.over_budget(rows.len() as int),
            }
        }),
{
    let ghost vars0 = work.vars@;
    let next = match hop.tgt {
        None => work.expand(
            g,
            hop.src,
            &hop.var,
            hop.rel_var.as_ref(),
            hop.dir,
            tokens,
            members,
            hop.track,
            reset,
        ),
        Some(t) => work.semijoin(
            g,
            hop.src,
            t,
            hop.rel_var.as_ref(),
            hop.dir,
            tokens,
            hop.track,
            reset,
        ),
    };
    proof {
        if next is Ok {
            let c = next->Ok_0;
            assert(names::of(c.vars@).len() == c.vars@.len());
            assert(names::of(vars0).len() == vars0.len());
        }
    }
    next
}

/// The ids and weights of the live rows of a chunk.
fn live_weights(c: &DataChunk) -> (w: Vec<u64>)
    requires
        c.wf(),
    ensures
        w@.len() == c.live_view().len(),
        forall|k: int| 0 <= k < w@.len() ==> #[trigger] w@[k] == c.live_view()[k].weight,
{
    let mut w: Vec<u64> = Vec::new();
    let mut i: usize = 0;
    while i < c.selection.len()
        invariant
            i <= c.selection@.len(),
            c.wf(),
            w@.len() == i,
            forall|k: int| 0 <= k < i ==> #[trigger] w@[k] == c.live_view()[k].weight,
        decreases c.selection.len() - i,
    {
        let r = c.selection[i];
        assert(c.selection@[i as int] < c.rows());
        w.push(
            if c.weights.len() > 0 {
                c.weights[r]
            } else {
                1
            },
        );
        i = i + 1;
    }
    w
}

/// Give each outer row its matches, or itself without any.
fn merge_leg(
    outer_rows: &Vec<Vec<u64>>,
    outer_w: &Vec<u64>,
    work: &DataChunk,
    ncols: usize,
    Ghost(g): Ghost<Graph>,
    Ghost(ss): Ghost<Seq<StepV>>,
    Ghost(p): Ghost<spec_fn(Seq<u64>) -> bool>,
    Ghost(live): Ghost<Seq<RowV>>,
) -> (r: (Vec<Vec<u64>>, Vec<u64>))
    requires
        work.wf(),
        work.ids@.len() == ncols,
        ncols > 0,
        work.live_view() == blocks(g, ss, p, live, live.len()),
        outer_rows@.len() == live.len(),
        outer_w@.len() == live.len(),
        forall|k: int| 0 <= k < live.len() ==> (#[trigger] outer_rows@[k])@ == live[k].ids,
        forall|k: int| 0 <= k < live.len() ==> (#[trigger] live[k]).ids.len() <= ncols,
        forall|k: int| 0 <= k < live.len() ==> #[trigger] outer_w@[k] == live[k].weight,
    ensures
        r.0@.len() == ncols,
        table::aligned(r.0@),
        rows_match(
            table::rows_of(r.0@),
            r.1@,
            left_join_rows(g, ss, p, ncols as nat, live),
        ),
{
    let n_outer = outer_rows.len();
    let ghost surv = work.live_view();
    let mut cols = empty_lists(ncols);
    let mut out_w: Vec<u64> = Vec::new();
    let ghost mut made: Seq<RowV> = Seq::empty();
    let mut s: usize = 0;
    let mut i: usize = 0;
    proof {
        assert(cols@[0]@.len() == 0);
        assert(table::rows_of(cols@) =~= Seq::empty());
        assert(live.take(0) =~= Seq::empty());
        lemma_blocks_later(g, ss, p, live, 0, live.len());
        assert forall|k: int| 0 <= k < surv.len() implies (#[trigger] surv[k]).prov is Some by {
            assert(tag_within(blocks(g, ss, p, live, live.len())[k], 0, live.len() as int));
        }
        if surv.len() > 0 {
            assert(surv[0].prov is Some);
        }
    }
    while i < n_outer
        invariant
            i <= n_outer,
            n_outer == live.len(),
            ncols > 0,
            work.wf(),
            work.ids@.len() == ncols,
            surv == work.live_view(),
            surv == blocks(g, ss, p, live, live.len()),
            forall|k: int| 0 <= k < surv.len() ==> (#[trigger] surv[k]).prov is Some,
            work.selection@.len() > 0 ==> work.prov@.len() == work.rows(),
            s <= work.selection@.len(),
            s == blocks(g, ss, p, live, i as nat).len(),
            outer_rows@.len() == live.len(),
            outer_w@.len() == live.len(),
            forall|k: int| 0 <= k < live.len() ==> (#[trigger] outer_rows@[k])@ == live[k].ids,
            forall|k: int| 0 <= k < live.len() ==> (#[trigger] live[k]).ids.len() <= ncols,
            forall|k: int| 0 <= k < live.len() ==> #[trigger] outer_w@[k] == live[k].weight,
            cols@.len() == ncols,
            table::aligned(cols@),
            made == left_join_rows(g, ss, p, ncols as nat, live.take(i as int)),
            rows_match(table::rows_of(cols@), out_w@, made),
        decreases n_outer - i,
    {
        let start = s;
        let ghost done = blocks(g, ss, p, live, i as nat);
        let ghost blk = block(g, ss, p, live, i as int);
        let ghost found = leg_matches(g, ss, p, live[i as int]);
        let ghost bf = |r: RowV| bare(r);
        let ghost made0 = made;
        proof {
            seqs::lemma_take_last(live, i as int);
            lemma_blocks_later(g, ss, p, live, i as nat, live.len());
            lemma_blocks_later(g, ss, p, live, (i + 1) as nat, live.len());
            let nxt = blocks(g, ss, p, live, (i + 1) as nat);
            assert(nxt == done + blk);
            assert forall|k: int| 0 <= k < blk.len() implies surv[start + k] == #[trigger] blk[k] by {
                assert(nxt[done.len() + k] == blk[k]);
                assert(surv.take(nxt.len() as int)[done.len() + k] == surv[done.len() + k]);
            }
            assert(made0 + found.take(0).map_values(bf) =~= made0);
        }
        while s < work.selection.len() && work.prov[work.selection[s]] == i
            invariant
                i < n_outer,
                n_outer == live.len(),
                work.wf(),
                work.ids@.len() == ncols,
                ncols > 0,
                surv == work.live_view(),
                forall|k: int| 0 <= k < surv.len() ==> (#[trigger] surv[k]).prov is Some,
                work.selection@.len() > 0 ==> work.prov@.len() == work.rows(),
                forall|k: int|
                    0 <= k < work.selection@.len() ==> #[trigger] work.selection@[k] < work.rows(),
                start <= s <= work.selection@.len(),
                start + blk.len() <= surv.len(),
                s <= start + blk.len(),
                forall|k: int| 0 <= k < blk.len() ==> surv[start + k] == #[trigger] blk[k],
                blk == retag_all(found, Some(i)),
                forall|k: int|
                    start + blk.len() <= k < surv.len() ==> tag_within(
                        #[trigger] surv[k],
                        i + 1,
                        live.len() as int,
                    ),
                bf == (|r: RowV| bare(r)),
                cols@.len() == ncols,
                table::aligned(cols@),
                made == made0 + found.take(s - start).map_values(bf),
                rows_match(table::rows_of(cols@), out_w@, made),
            decreases work.selection.len() - s,
        {
            let r = work.selection[s];
            assert(work.selection@[s as int] < work.rows());
            let ids = work.row_ids(r);
            let w: u64 = if work.weights.len() == 0 {
                1
            } else {
                work.weights[r]
            };
            proof {
                assert(surv[s as int] == work.row(r as int));
                assert(surv[s as int].prov == Some(i));
                assert(s < start + blk.len());
                assert(surv[start + (s - start)] == blk[s - start]);
                seqs::lemma_take_last(found, s - start);
                let x = bare(found[s - start]);
                assert(found.take(s + 1 - start).map_values(bf) =~= found.take(
                    s - start,
                ).map_values(bf).push(x));
                assert(made0 + found.take(s + 1 - start).map_values(bf) =~= made.push(x));
            }
            table::push_row(&mut cols, &ids);
            out_w.push(w);
            proof {
                made = made.push(bare(found[s - start]));
            }
            s = s + 1;
        }
        proof {
            if s < start + blk.len() {
                assert(surv[start + (s - start)] == blk[s - start]);
                assert(surv[s as int] == work.row(work.selection@[s as int] as int));
                assert(false);
            }
        }
        if s == start {
            let mut ids = crate::names::copy_ids(&outer_rows[i]);
            assert(outer_rows@[i as int]@ == live[i as int].ids);
            let ghost ids0 = ids@;
            while ids.len() < ncols
                invariant
                    ids0.len() <= ids@.len() <= ncols,
                    ids@ == ids0 + Seq::new((ids@.len() - ids0.len()) as nat, |i: int| NULL_ID),
                decreases ncols - ids.len(),
            {
                ids.push(NULL_ID);
                assert(ids@ =~= ids0 + Seq::new((ids@.len() - ids0.len()) as nat, |i: int| NULL_ID));
            }
            table::push_row(&mut cols, &ids);
            out_w.push(outer_w[i]);
            proof {
                let x = null_filled(live[i as int], ncols as nat);
                assert(ids@ =~= x.ids);
                made = made0.push(x);
                assert(made =~= made0 + seq![x]);
            }
        } else {
            proof {
                assert(found.take(s - start) =~= found);
            }
        }
        i = i + 1;
    }
    proof {
        assert(live.take(i as int) =~= live);
    }
    (cols, out_w)
}

/// Left join: run an optional pattern over the outer rows in one pass, then
/// give each outer row its matches, or itself without any. `None` when the
/// filter cannot be answered.
pub fn left_join_null_extend(
    g: &Graph,
    outer: DataChunk,
    hops: &Vec<Hop>,
    tokens: &Vec<Option<Vec<u32>>>,
    members: &Vec<Option<BTreeSet<u64>>>,
    filter: Option<&Filter>,
    vars: &Vec<String>,
    kinds: &Vec<VarKind>,
) -> (res: Result<Option<DataChunk>, RunError>)
    requires
        g.types@.len() <= u32::MAX,
        outer.wf(),
        outer.ids@.len() > 0,
        outer.selection@.no_duplicates(),
        tokens@.len() == hops@.len(),
        members@.len() == hops@.len(),
        forall|i: int| 0 <= i < hops@.len() ==> (#[trigger] hops@[i]).varlen is None,
        steps_bound(leg_steps(hops@, tokens@, members@), outer.ids@.len()),
        vars@.len() == width_after(
            leg_steps(hops@, tokens@, members@),
            hops@.len(),
            outer.ids@.len(),
        ),
        kinds@.len() == vars@.len(),
        filter matches Some(f) ==> f.bound(leg_vars(hops@, hops@.len(), names::of(outer.vars@))),
    ensures
        ({
            let ss = leg_steps(hops@, tokens@, members@);
            let bound = leg_vars(hops@, hops@.len(), names::of(outer.vars@));
            let made = leg_kinds(hops@, hops@.len(), outer.var_kinds@);
            let reached = steps_rows(*g, ss, ss.len(), outer.live_view());
            match res {
                Err(e) => e == RunError::RowBudget && !steps_fit(
                    *g,
                    ss,
                    ss.len(),
                    outer.live_view(),
                ),
                Ok(None) => {
                    &&& steps_fit(*g, ss, ss.len(), outer.live_view())
                    &&& filter matches Some(f) && !f.answers(bound, made, reached)
                },
                Ok(Some(c)) => {
                    &&& steps_fit(*g, ss, ss.len(), outer.live_view())
                    &&& filter matches Some(f) ==> f.answers(bound, made, reached)
                    &&& c.wf()
                    &&& c.dense()
                    &&& c.vars@ == vars@
                    &&& c.var_kinds@ == kinds@
                    &&& c.prov@.len() == 0
                    &&& c.live_view() == left_join_rows(
                        *g,
                        ss,
                        passes(*g, filter, bound),
                        vars@.len(),
                        outer.live_view(),
                    )
                },
            }
        }),
{
    let ghost ss = leg_steps(hops@, tokens@, members@);
    let ghost live = outer.live_view();
    let ghost bound = leg_vars(hops@, hops@.len(), names::of(outer.vars@));
    let ghost p = passes(*g, filter, bound);
    let ghost width = outer.ids@.len();
    let outer_rows = outer.live_rows();
    let outer_w = live_weights(&outer);
    let weighted = outer.weights.len() > 0;
    proof {
        lemma_tagged_fit(*g, ss, live);
        lemma_tagged_answers(
            *g,
            ss,
            live,
            filter,
            bound,
            leg_kinds(hops@, hops@.len(), outer.var_kinds@),
        );
        lemma_width_grows(ss, ss.len(), width);
        assert forall|k: int| 0 <= k < live.len() implies (#[trigger] live[k]).ids.len()
            <= vars@.len() by {}
        if !weighted {
            lemma_join_weights(*g, ss, p, vars@.len(), live);
        }
    }
    let work = tag_rows(outer);
    let mut work = match run_leg(g, work, hops, tokens, members) {
        Ok(c) => c,
        Err(e) => {
            return Err(e);
        },
    };
    let ghost reached = work.live_view();
    match filter {
        Some(f) => {
            if work.filter(g, f).is_none() {
                return Ok(None);
            }
        },
        None => {},
    }
    let ghost q = |r: RowV| p(r.ids);
    let ghost surv = work.live_view();
    proof {
        assert(surv == reached.filter(q)) by {
            match filter {
                Some(f) => {
                    assert(q =~= (|row: RowV| f.holds(*g, bound, row.ids)));
                },
                None => {
                    select::lemma_filter_same(reached, q, true);
                },
            }
        }
        lemma_blocks(*g, ss, p, live, live.len());
        assert(tagged(live).take(live.len() as int) =~= tagged(live));
    }
    let (cols, out_w) = merge_leg(
        &outer_rows,
        &outer_w,
        &work,
        vars.len(),
        Ghost(*g),
        Ghost(ss),
        Ghost(p),
        Ghost(live),
    );
    let n = cols[0].len();
    let weights: Vec<u64> = if weighted {
        out_w
    } else {
        Vec::new()
    };
    let c = DataChunk {
        vars: copy_names(vars),
        var_kinds: copy_kinds(kinds),
        ids: cols,
        selection: index_range(n),
        used_rels: empty_lists(n),
        prov: Vec::new(),
        weights,
    };
    proof {
        let made = left_join_rows(*g, ss, p, vars@.len(), live);
        assert(table::rows_of(cols@).len() == n);
        assert forall|k: int| 0 <= k < n implies c.live_view()[k] =~= made[k] by {
            assert(table::rows_of(cols@)[k] == made[k].ids);
            assert(c.row(k).ids =~= table::rows_of(cols@)[k]);
        }
        assert(c.live_view() =~= made);
    }
    Ok(Some(c))
}

/// Steps add columns and remove none.
proof fn lemma_width_grows(ss: Seq<StepV>, n: nat, width: nat)
    ensures
        width_after(ss, n, width) >= width,
    decreases n,
{
    if n > 0 {
        lemma_width_grows(ss, (n - 1) as nat, width);
    }
}

proof fn lemma_tagged_fit(g: Graph, ss: Seq<StepV>, live: Seq<RowV>)
    ensures
        steps_fit(g, ss, ss.len(), tagged(live)) == steps_fit(g, ss, ss.len(), live),
{
    assert forall|i: int| 0 < i <= ss.len() implies (#[trigger] steps_rows(
        g,
        ss,
        i as nat,
        live,
    )).len() == steps_rows(g, ss, i as nat, tagged(live)).len() by {
        lemma_tagged_len(g, ss, live, i as nat);
    }
    if steps_fit(g, ss, ss.len(), live) {
        assert forall|i: int| 0 < i <= ss.len() implies !g.over_budget(
            (#[trigger] steps_rows(g, ss, i as nat, tagged(live))).len() as int,
        ) by {
            assert(!g.over_budget(steps_rows(g, ss, i as nat, live).len() as int));
        }
    }
    if steps_fit(g, ss, ss.len(), tagged(live)) {
        assert forall|i: int| 0 < i <= ss.len() implies !g.over_budget(
            (#[trigger] steps_rows(g, ss, i as nat, live)).len() as int,
        ) by {
            assert(!g.over_budget(steps_rows(g, ss, i as nat, tagged(live)).len() as int));
        }
    }
}

/// The names after the first `n` hops of a pattern.
pub open spec fn leg_vars(hops: Seq<Hop>, n: nat, vars: Seq<Seq<char>>) -> Seq<Seq<char>>
    decreases n,
{
    if n == 0 {
        vars
    } else {
        hop::hop_vars(hops[n - 1], leg_vars(hops, (n - 1) as nat, vars))
    }
}

/// The kinds after the first `n` hops of a pattern.
pub open spec fn leg_kinds(hops: Seq<Hop>, n: nat, kinds: Seq<VarKind>) -> Seq<VarKind>
    decreases n,
{
    if n == 0 {
        kinds
    } else {
        hop::hop_kinds(hops[n - 1], leg_kinds(hops, (n - 1) as nat, kinds))
    }
}

/// Rows of ids with their weights are rows without used relationships or an
/// outer row.
spec fn rows_match(ids: Seq<Seq<u64>>, w: Seq<u64>, rows: Seq<RowV>) -> bool {
    &&& ids.len() == rows.len()
    &&& w.len() == rows.len()
    &&& forall|k: int|
        0 <= k < rows.len() ==> (#[trigger] rows[k]).ids == ids[k] && rows[k].weight == w[k]
            && rows[k].used == Seq::<u64>::empty() && rows[k].prov is None
}

proof fn lemma_tagged_split(g: Graph, ss: Seq<StepV>, live: Seq<RowV>, n: nat, m: nat)
    requires
        m <= live.len(),
    ensures
        steps_rows(g, ss, n, tagged(live).take(m as int)).len() == steps_rows(
            g,
            ss,
            n,
            live.take(m as int),
        ).len(),
        forall|k: int|
            0 <= k < steps_rows(g, ss, n, live.take(m as int)).len() ==> (#[trigger] steps_rows(
                g,
                ss,
                n,
                live.take(m as int),
            )[k]).ids == steps_rows(g, ss, n, tagged(live).take(m as int))[k].ids,
    decreases m,
{
    let t = tagged(live);
    if m == 0 {
        assert(t.take(0) =~= Seq::empty());
        assert(live.take(0) =~= Seq::empty());
    } else {
        lemma_tagged_split(g, ss, live, n, (m - 1) as nat);
        let one = seq![live[m - 1]];
        let prov = Some((m - 1) as usize);
        assert(t.take(m as int) =~= t.take(m - 1) + retag_all(one, prov));
        assert(live.take(m as int) =~= live.take(m - 1) + one);
        lemma_steps_add(g, ss, n, t.take(m - 1), retag_all(one, prov));
        lemma_steps_add(g, ss, n, live.take(m - 1), one);
        lemma_steps_retag(g, ss, n, one, prov);
        let a = steps_rows(g, ss, n, live.take(m - 1));
        let b = steps_rows(g, ss, n, one);
        let x = steps_rows(g, ss, n, t.take(m - 1));
        let y = steps_rows(g, ss, n, retag_all(one, prov));
        assert forall|k: int| 0 <= k < (a + b).len() implies (#[trigger] (a + b)[k]).ids == (x
            + y)[k].ids by {
            if k < a.len() {
                assert((a + b)[k] == a[k]);
                assert((x + y)[k] == x[k]);
                assert(a[k].ids == x[k].ids);
            } else {
                assert((a + b)[k] == b[k - a.len()]);
                assert((x + y)[k] == y[k - x.len()]);
            }
        }
    }
}

proof fn lemma_tagged_len(g: Graph, ss: Seq<StepV>, live: Seq<RowV>, n: nat)
    ensures
        steps_rows(g, ss, n, tagged(live)).len() == steps_rows(g, ss, n, live).len(),
        forall|k: int|
            0 <= k < steps_rows(g, ss, n, live).len() ==> (#[trigger] steps_rows(
                g,
                ss,
                n,
                live,
            )[k]).ids == steps_rows(g, ss, n, tagged(live))[k].ids,
{
    lemma_tagged_split(g, ss, live, n, live.len());
    assert(live.take(live.len() as int) =~= live);
    assert(tagged(live).take(live.len() as int) =~= tagged(live));
}

proof fn lemma_tagged_answers(
    g: Graph,
    ss: Seq<StepV>,
    live: Seq<RowV>,
    f: Option<&Filter>,
    vars: Seq<Seq<char>>,
    kinds: Seq<VarKind>,
)
    ensures
        f matches Some(p) ==> p.answers(vars, kinds, steps_rows(g, ss, ss.len(), live))
            == p.answers(vars, kinds, steps_rows(g, ss, ss.len(), tagged(live))),
{
    lemma_tagged_len(g, ss, live, ss.len());
    if f is Some {
        let p = *f->0;
        let a = steps_rows(g, ss, ss.len(), live);
        let b = steps_rows(g, ss, ss.len(), tagged(live));
        match p {
            Filter::Property { var, verdicts } => {
                let c = select::column(vars, var@);
                if p.answers(vars, kinds, a) {
                    assert forall|k: int| 0 <= k < b.len() implies select::verdict_known(
                        verdicts@,
                        (#[trigger] b[k]).ids[c],
                    ) by {
                        assert(a[k].ids == b[k].ids);
                    }
                }
                if p.answers(vars, kinds, b) {
                    assert forall|k: int| 0 <= k < a.len() implies select::verdict_known(
                        verdicts@,
                        (#[trigger] a[k]).ids[c],
                    ) by {
                        assert(a[k].ids == b[k].ids);
                    }
                }
            },
            _ => {},
        }
    }
}

/// When every outer row stands for one match, so does every joined row.
proof fn lemma_join_weights(
    g: Graph,
    ss: Seq<StepV>,
    p: spec_fn(Seq<u64>) -> bool,
    width: nat,
    rows: Seq<RowV>,
)
    ensures
        (forall|k: int| 0 <= k < rows.len() ==> (#[trigger] rows[k]).weight == 1) ==> forall|k: int|
            0 <= k < left_join_rows(g, ss, p, width, rows).len() ==> (#[trigger] left_join_rows(
                g,
                ss,
                p,
                width,
                rows,
            )[k]).weight == 1,
    decreases rows.len(),
{
    if rows.len() > 0 && forall|k: int| 0 <= k < rows.len() ==> (#[trigger] rows[k]).weight == 1 {
        let d = rows.drop_last();
        assert forall|k: int| 0 <= k < d.len() implies (#[trigger] d[k]).weight == 1 by {
            assert(rows[k].weight == 1);
        }
        lemma_join_weights(g, ss, p, width, d);
        assert(rows[rows.len() - 1].weight == 1);
        let one = seq![rows.last()];
        lemma_steps_weight(g, ss, ss.len(), one, 1);
        let all = steps_rows(g, ss, ss.len(), one);
        let m = leg_matches(g, ss, p, rows.last());
        assert forall|k: int| 0 <= k < m.len() implies (#[trigger] m[k]).weight == 1 by {
            all.lemma_filter_pred(|r: RowV| p(r.ids), k);
            lemma_filter_source(all, |r: RowV| p(r.ids), k);
            let i = choose|i: int| 0 <= i < all.len() && all[i] == m[k];
            assert(all[i].weight == 1);
        }
        let a = left_join_rows(g, ss, p, width, d);
        let b = joined_row(g, ss, p, width, rows.last());
        let c = left_join_rows(g, ss, p, width, rows);
        assert forall|k: int| 0 <= k < c.len() implies (#[trigger] c[k]).weight == 1 by {
            if k < a.len() {
                assert(c[k] == a[k]);
            } else {
                assert(c[k] == b[k - a.len()]);
                if m.len() > 0 {
                    assert(m[k - a.len()].weight == 1);
                }
            }
        }
    }
}

proof fn lemma_filter_source<A>(s: Seq<A>, p: spec_fn(A) -> bool, i: int)
    requires
        0 <= i < s.filter(p).len(),
    ensures
        exists|k: int| 0 <= k < s.len() && s[k] == s.filter(p)[i],
    decreases s.len(),
{
    if s.len() == 0 {
        seqs::lemma_filter_empty(p);
        assert(s =~= Seq::empty());
    } else {
        let d = s.drop_last();
        seqs::lemma_filter_last(s, p);
        if i < d.filter(p).len() {
            lemma_filter_source(d, p, i);
            let k = choose|k: int| 0 <= k < d.len() && d[k] == d.filter(p)[i];
            assert(s[k] == s.filter(p)[i]);
        } else {
            assert(s[s.len() - 1] == s.filter(p)[i]);
        }
    }
}

/// A step gives each row it makes the weight of the row it comes from.
proof fn lemma_steps_weight(g: Graph, ss: Seq<StepV>, n: nat, rows: Seq<RowV>, w: u64)
    requires
        forall|k: int| 0 <= k < rows.len() ==> (#[trigger] rows[k]).weight == w,
    ensures
        forall|k: int|
            0 <= k < steps_rows(g, ss, n, rows).len() ==> (#[trigger] steps_rows(
                g,
                ss,
                n,
                rows,
            )[k]).weight == w,
    decreases n,
{
    if n > 0 {
        lemma_steps_weight(g, ss, (n - 1) as nat, rows, w);
        lemma_step_weight(g, ss[n - 1], steps_rows(g, ss, (n - 1) as nat, rows), w);
    }
}

proof fn lemma_step_weight(g: Graph, s: StepV, rows: Seq<RowV>, w: u64)
    requires
        forall|k: int| 0 <= k < rows.len() ==> (#[trigger] rows[k]).weight == w,
    ensures
        forall|k: int|
            0 <= k < step_rows(g, s, rows).len() ==> (#[trigger] step_rows(g, s, rows)[k]).weight
                == w,
    decreases rows.len(),
{
    if rows.len() > 0 {
        let d = rows.drop_last();
        assert forall|k: int| 0 <= k < d.len() implies (#[trigger] d[k]).weight == w by {
            assert(rows[k].weight == w);
        }
        lemma_step_weight(g, s, d, w);
        assert(rows[rows.len() - 1].weight == w);
        let a = step_rows(g, s, d);
        let c = step_rows(g, s, rows);
        assert forall|k: int| 0 <= k < c.len() implies (#[trigger] c[k]).weight == w by {
            if k < a.len() {
                assert(c[k] == a[k]);
            }
        }
    }
}

} // verus!
