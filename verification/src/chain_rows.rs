//! Building the rows of a chain: a seed, its steps, and each condition as soon
//! as what it reads is bound.

use std::collections::BTreeSet;

use vstd::prelude::*;

use crate::chunk;
use crate::chunk::{DataChunk, RowV};
use crate::fold;
use crate::fold::FoldPlan;
use crate::fold_build;
use crate::fold_model;
use crate::fold_model::{CountHop, FoldV};
use crate::fold_run;
use crate::fold_run::run_hop_folded;
use crate::graph;
use crate::graph::{Graph, RunError, VarKind};
use crate::hop;
use crate::hop::{run_hop, Hop, InlinePred};
use crate::layout;
use crate::names;
use crate::names::has_name;
use crate::ready;
use crate::seeds;
use crate::seeds::{end_set, start_ids};
use crate::select::Filter;
use crate::seqs;

verus! {

broadcast use {vstd::std_specs::btree::group_btree_axioms, vstd::laws_cmp::group_laws_cmp};

/// How far a chain has been built.
pub struct StageV {
    pub rows: Seq<RowV>,
    pub vars: Seq<Seq<char>>,
    pub kinds: Seq<VarKind>,
    /// The conditions that have not been applied.
    pub pending: Seq<int>,
}

/// What building a chain comes to.
pub enum Built {
    At(StageV),
    /// A condition cannot be answered on the rows.
    Decline,
    OverBudget,
    Overflow,
}

/// Rows with one more condition applied; none when it cannot be answered.
pub open spec fn narrowed(g: Graph, f: Filter, st: StageV) -> Option<Seq<RowV>> {
    if f.answers(st.vars, st.kinds, st.rows) {
        Some(st.rows.filter(|row: RowV| f.holds(g, st.vars, row.ids)))
    } else {
        None
    }
}

/// The rows once the first `n` waiting conditions that are bound are applied.
pub open spec fn apply_first(g: Graph, fs: Seq<Filter>, st: StageV, n: nat) -> Option<Seq<RowV>>
    decreases n,
{
    if n == 0 {
        Some(st.rows)
    } else {
        match apply_first(g, fs, st, (n - 1) as nat) {
            Some(rows) => {
                let f = fs[st.pending[n - 1]];
                if f.bound(st.vars) {
                    narrowed(g, f, StageV { rows, ..st })
                } else {
                    Some(rows)
                }
            },
            None => None,
        }
    }
}

/// The waiting conditions that are not bound.
pub open spec fn unready(fs: Seq<Filter>, st: StageV) -> Seq<int> {
    st.pending.filter(|p: int| !fs[p].bound(st.vars))
}

/// A stage with every condition applied that is bound.
#[verifier::opaque]
pub open spec fn settle(g: Graph, fs: Seq<Filter>, st: StageV) -> Built {
    match apply_first(g, fs, st, st.pending.len()) {
        Some(rows) => Built::At(StageV { rows, pending: unready(fs, st), ..st }),
        None => Built::Decline,
    }
}

/// A hop as counting reads it.
pub open spec fn counted_hop(g: Graph, hops: Seq<Hop>, i: int) -> CountHop {
    let h = hops[i];
    CountHop {
        src: h.src as int,
        dir: h.dir,
        types: names::of(h.types@),
        tokens: g.type_tokens(names::of(h.types@)),
        members: seeds::end_members(g, names::of(h.labels@)),
        track: h.track,
        reset: h.reset,
        tgt: fold::opt_int(h.tgt),
        end: fold::opt_int(h.end_vi),
        preds: h.inline@.map_values(|p: InlinePred| fold::pred_view(g, p)),
        fold: h.fold,
        path: fold::path_of(hops, i),
    }
}

/// A chain as counting reads it.
pub open spec fn count_view(g: Graph, hops: Seq<Hop>, width: int) -> FoldV {
    FoldV { g, hops: Seq::new(hops.len(), |i: int| counted_hop(g, hops, i)), width }
}

/// What a chain is built with.
pub struct BuildV {
    pub g: Graph,
    pub hops: Seq<Hop>,
    pub filters: Seq<Filter>,
    pub cap: Option<u64>,
}

/// How many variables a step adds.
pub open spec fn adds(h: Hop) -> nat {
    if h.varlen is Some {
        1
    } else {
        (if h.tgt is None {
            1nat
        } else {
            0
        }) + (if h.rel_var is Some {
            1nat
        } else {
            0
        })
    }
}

/// How many variables are bound after `k` steps.
pub open spec fn bound_after(hops: Seq<Hop>, k: int) -> nat
    decreases k,
{
    if k <= 0 {
        1
    } else {
        bound_after(hops, k - 1) + adds(hops[k - 1])
    }
}

/// The chain as its counted steps read it.
pub open spec fn fold_of(b: BuildV) -> FoldV {
    count_view(
        b.g,
        b.hops,
        fold_build::fold_width(b.hops, bound_after(b.hops, b.hops.len() as int) as int),
    )
}

/// Whether a counted step starts at a variable that is bound.
pub open spec fn is_root(b: BuildV, k: int) -> bool {
    b.hops[k].fold && !fold_model::is_folded(fold_of(b), b.hops[k].src as int)
}

/// Whether nothing after a step counts, expands or drops rows.
pub open spec fn is_last(b: BuildV, k: int) -> bool {
    forall|j: int| k < j < b.hops.len() ==> (#[trigger] b.hops[j]).fold && !is_root(b, j)
}

/// The cap that a counted step may stop at. Rows that it leaves out are missed
/// only where every row that it keeps is a row of the chain: after it nothing
/// counts, expands or drops rows, and no condition is left.
pub open spec fn cap_at(b: BuildV, k: int, st: StageV) -> Option<u64> {
    if is_last(b, k) && st.pending.len() == 0 {
        b.cap
    } else {
        None
    }
}

/// A stage after one more step, before any condition.
#[verifier::opaque]
pub open spec fn step(b: BuildV, k: int, st: StageV) -> Built {
    let h = b.hops[k];
    if h.fold {
        let c = if is_root(b, k) {
            fold_run::fold_live(fold_of(b), k, cap_at(b, k, st), 0, st.rows)
        } else {
            Some((st.rows, 0))
        };
        match c {
            Some((rows, _)) => Built::At(
                StageV {
                    rows: fold_run::folded_rows(h, rows),
                    vars: chunk::vars_after(
                        st.vars,
                        if h.tgt is None {
                            Some(h.var@)
                        } else {
                            None
                        },
                        hop::own_name(h.rel_var),
                    ),
                    kinds: chunk::kinds_after(st.kinds, h.tgt is None, h.rel_var is Some),
                    pending: st.pending,
                },
            ),
            None => Built::Overflow,
        }
    } else {
        match hop::hop_rows(
            b.g,
            h,
            b.g.type_tokens(names::of(h.types@)),
            seeds::end_members(b.g, names::of(h.labels@)),
            st.rows,
        ) {
            Some(rows) => Built::At(
                StageV {
                    rows,
                    vars: hop::hop_vars(h, st.vars),
                    kinds: hop::hop_kinds(h, st.kinds),
                    ..st
                },
            ),
            None => Built::OverBudget,
        }
    }
}

/// The rows of a seed.
pub open spec fn seed_rows(ids: Seq<u64>) -> Seq<RowV> {
    ids.map_values(
        |id: u64| RowV { ids: seq![id], used: Seq::empty(), prov: None, weight: 1 },
    )
}

/// Whether some step has a type that no relationship has.
pub open spec fn edgeless(g: Graph, hops: Seq<Hop>) -> bool {
    exists|i: int|
        0 <= i < hops.len() && (g.type_tokens(names::of((#[trigger] hops[i]).types@)) matches Some(t)
            && t.len() == 0)
}

/// The seed of a chain. A chain with a step that no relationship can take is
/// seeded with nothing.
pub open spec fn seed_of(b: BuildV, var: Seq<char>, ids: Seq<u64>) -> StageV {
    StageV {
        rows: seed_rows(
            if edgeless(b.g, b.hops) {
                Seq::empty()
            } else {
                ids
            },
        ),
        vars: seq![var],
        kinds: seq![VarKind::Node],
        pending: Seq::new(b.filters.len(), |i: int| i),
    }
}

/// A chain after `k` steps, each condition applied as soon as it is bound.
pub open spec fn built(b: BuildV, var: Seq<char>, ids: Seq<u64>, k: int) -> Built
    decreases k,
{
    if k <= 0 {
        settle(b.g, b.filters, seed_of(b, var, ids))
    } else {
        match built(b, var, ids, k - 1) {
            Built::At(st) => match step(b, k - 1, st) {
                Built::At(st) => settle(b.g, b.filters, st),
                x => x,
            },
            x => x,
        }
    }
}

/// The steps of a chain read what is bound.
pub open spec fn steps_fit(hops: Seq<Hop>) -> bool {
    forall|k: int|
        0 <= k < hops.len() ==> hop::hop_fits(#[trigger] hops[k], bound_after(hops, k))
}

/// A counted step that starts at a bound variable finds rows that are ready.
pub open spec fn roots_ready(b: BuildV, var: Seq<char>, ids: Seq<u64>) -> bool {
    forall|k: int|
        0 <= k < b.hops.len() && is_root(b, k) ==> (#[trigger] built(b, var, ids, k) matches
            Built::At(st) ==> forall|i: int|
            0 <= i < st.rows.len() ==> fold_run::row_ready(
                fold_of(b),
                k,
                #[trigger] st.rows[i],
            ))
}

fn count_added(h: &Hop) -> (n: usize)
    ensures
        n == adds(*h),
        n <= 2,
{
    if h.varlen.is_some() {
        return 1;
    }
    let mut n: usize = 0;
    if h.tgt.is_none() {
        n = n + 1;
    }
    if h.rel_var.is_some() {
        n = n + 1;
    }
    n
}

proof fn lemma_bound_after(hops: Seq<Hop>, k: int)
    requires
        0 <= k <= hops.len(),
    ensures
        1 <= bound_after(hops, k) <= bound_after(hops, hops.len() as int),
        bound_after(hops, k) <= 1 + 2 * k,
    decreases hops.len() - k,
{
    if k < hops.len() {
        lemma_bound_after(hops, k + 1);
    }
    lemma_bound_low(hops, k);
}

pub proof fn lemma_bound_low(hops: Seq<Hop>, k: int)
    requires
        0 <= k,
    ensures
        1 <= bound_after(hops, k) <= 1 + 2 * k,
    decreases k,
{
    if k > 0 {
        lemma_bound_low(hops, k - 1);
    }
}

fn count_bound(hops: &Vec<Hop>) -> (n: usize)
    requires
        hops@.len() < usize::MAX / 2,
    ensures
        n == bound_after(hops@, hops@.len() as int),
{
    let mut n: usize = 1;
    let mut k: usize = 0;
    while k < hops.len()
        invariant
            k <= hops@.len(),
            hops@.len() < usize::MAX / 2,
            n == bound_after(hops@, k as int),
            n <= 1 + 2 * k,
        decreases hops.len() - k,
    {
        n = n + count_added(&hops[k]);
        k = k + 1;
    }
    n
}

/// Whether the variables that a condition reads are bound.
fn is_bound(f: &Filter, vars: &Vec<String>) -> (b: bool)
    ensures
        b == f.bound(names::of(vars@)),
{
    match f {
        Filter::Property { var, .. } => has_name(vars, var),
        Filter::Identity { var, other, .. } => has_name(vars, var) && has_name(vars, other),
        Filter::Edge { src, dst, .. } => has_name(vars, src) && has_name(vars, dst),
    }
}

/// A chunk as a stage that leaves conditions.
pub open spec fn stage_with(c: DataChunk, pending: Seq<int>) -> StageV {
    StageV { rows: c.live_view(), vars: names::of(c.vars@), kinds: c.var_kinds@, pending }
}

/// Indices as integers.
pub open spec fn indices(s: Seq<usize>) -> Seq<int> {
    s.map_values(|i: usize| i as int)
}

/// A chunk as a stage.
pub open spec fn stage_view(c: DataChunk, pending: Seq<usize>) -> StageV {
    StageV {
        rows: c.live_view(),
        vars: names::of(c.vars@),
        kinds: c.var_kinds@,
        pending: indices(pending),
    }
}

proof fn lemma_apply_none(g: Graph, fs: Seq<Filter>, st: StageV, n: nat, m: nat)
    requires
        n <= m,
        apply_first(g, fs, st, n) is None,
    ensures
        apply_first(g, fs, st, m) is None,
    decreases m - n,
{
    if n < m {
        lemma_apply_none(g, fs, st, n, (m - 1) as nat);
    }
}

/// Applies every waiting condition that is bound; false where one cannot be
/// answered on the rows.
pub fn apply_ready_preds(
    g: &Graph,
    c: &mut DataChunk,
    pending: &mut Vec<usize>,
    filters: &Vec<Filter>,
) -> (ok: bool)
    requires
        old(c).wf(),
        g.types@.len() <= u32::MAX,
        forall|i: int|
            0 <= i < old(pending)@.len() ==> (#[trigger] old(pending)@[i]) < filters@.len(),
    ensures
        final(c).wf(),
        final(c).ids == old(c).ids,
        final(c).prov == old(c).prov,
        final(c).weights == old(c).weights,
        old(c).selection@.no_duplicates() ==> final(c).selection@.no_duplicates(),
        forall|i: int|
            0 <= i < final(pending)@.len() ==> (#[trigger] final(pending)@[i]) < filters@.len(),
        match settle(*g, filters@, stage_view(*old(c), old(pending)@)) {
            Built::At(st) => ok && st == stage_view(*final(c), final(pending)@),
            _ => !ok,
        },
{
    reveal(settle);
    let ghost st = stage_view(*c, pending@);
    let ghost keep = |p: int| !filters@[p].bound(st.vars);
    let mut rest: Vec<usize> = Vec::new();
    let n = pending.len();
    let mut i: usize = 0;
    proof {
        assert(st.pending.take(0) =~= Seq::empty());
        seqs::lemma_filter_empty(keep);
        assert(indices(rest@) =~= Seq::empty());
    }
    while i < n
        invariant
            i <= n == pending@.len(),
            pending@ == old(pending)@,
            c.wf(),
            c.ids == old(c).ids,
            c.vars == old(c).vars,
            c.var_kinds == old(c).var_kinds,
            c.prov == old(c).prov,
            c.weights == old(c).weights,
            old(c).selection@.no_duplicates() ==> c.selection@.no_duplicates(),
            g.types@.len() <= u32::MAX,
            st == stage_view(*old(c), old(pending)@),
            keep == (|p: int| !filters@[p].bound(st.vars)),
            forall|i: int| 0 <= i < pending@.len() ==> (#[trigger] pending@[i]) < filters@.len(),
            forall|i: int| 0 <= i < rest@.len() ==> (#[trigger] rest@[i]) < filters@.len(),
            apply_first(*g, filters@, st, i as nat) == Some(c.live_view()),
            indices(rest@) == st.pending.take(i as int).filter(keep),
        decreases n - i,
    {
        let ghost rest0 = rest@;
        let p = pending[i];
        let ghost rows0 = c.live_view();
        proof {
            assert(st.pending[i as int] == p as int);
            seqs::lemma_take_last(st.pending, i as int);
            seqs::lemma_filter_last(st.pending.take(i + 1), keep);
        }
        if is_bound(&filters[p], &c.vars) {
            assert(!keep(p as int));
            if c.filter(g, &filters[p]).is_none() {
                proof {
                    reveal(settle);
                    assert(apply_first(*g, filters@, st, (i + 1) as nat) is None);
                    lemma_apply_none(*g, filters@, st, (i + 1) as nat, n as nat);
                }
                return false;
            }
        } else {
            assert(keep(p as int));
            rest.push(p);
            assert(indices(rest@) =~= indices(rest0).push(p as int));
        }
        i = i + 1;
    }
    proof {
        assert(st.pending.take(n as int) =~= st.pending);
    }
    *pending = rest;
    true
}

/// The member sets and token lists of steps, and whether one can never be taken.
pub struct Lookups {
    pub members: Vec<Option<BTreeSet<u64>>>,
    pub tokens: Vec<Option<Vec<u32>>>,
    pub empty: bool,
}

/// Looks up the member sets and token lists of steps.
pub fn look_up(g: &Graph, hops: &Vec<Hop>) -> (r: Lookups)
    requires
        g.wf(),
    ensures
        r.members@.len() == hops@.len(),
        r.tokens@.len() == hops@.len(),
        forall|i: int|
            0 <= i < hops@.len() ==> fold::own_members(#[trigger] r.members@[i])
                == seeds::end_members(*g, names::of(hops@[i].labels@)),
        forall|i: int|
            0 <= i < hops@.len() ==> graph::tokens_view(#[trigger] r.tokens@[i]) == g.type_tokens(
                names::of(hops@[i].types@),
            ),
        r.empty == edgeless(*g, hops@),
{
    let mut members: Vec<Option<BTreeSet<u64>>> = Vec::new();
    let mut tokens: Vec<Option<Vec<u32>>> = Vec::new();
    let mut empty = false;
    let mut i: usize = 0;
    while i < hops.len()
        invariant
            i <= hops@.len(),
            g.wf(),
            members@.len() == i,
            tokens@.len() == i,
            forall|j: int|
                0 <= j < i ==> fold::own_members(#[trigger] members@[j]) == seeds::end_members(
                    *g,
                    names::of(hops@[j].labels@),
                ),
            forall|j: int|
                0 <= j < i ==> graph::tokens_view(#[trigger] tokens@[j]) == g.type_tokens(
                    names::of(hops@[j].types@),
                ),
            empty == exists|j: int|
                0 <= j < i && (g.type_tokens(names::of((#[trigger] hops@[j]).types@)) matches Some(
                    t,
                ) && t.len() == 0),
        decreases hops.len() - i,
    {
        let m = end_set(g, &hops[i].labels);
        let t = g.type_tokens_peek(&hops[i].types);
        match &t {
            Some(v) => {
                if v.len() == 0 {
                    empty = true;
                }
            },
            None => {},
        }
        members.push(m);
        tokens.push(t);
        i = i + 1;
    }
    Lookups { members, tokens, empty }
}

fn any_folded(hops: &Vec<Hop>) -> (b: bool)
    ensures
        b == exists|i: int| 0 <= i < hops@.len() && (#[trigger] hops@[i]).fold,
{
    let mut i: usize = 0;
    while i < hops.len()
        invariant
            i <= hops@.len(),
            forall|j: int| 0 <= j < i ==> !(#[trigger] hops@[j]).fold,
        decreases hops.len() - i,
    {
        if hops[i].fold {
            return true;
        }
        i = i + 1;
    }
    false
}

proof fn lemma_built_stops(b: BuildV, var: Seq<char>, ids: Seq<u64>, k: int, n: int)
    requires
        0 <= k <= n,
        !(built(b, var, ids, k) is At),
    ensures
        built(b, var, ids, n) == built(b, var, ids, k),
    decreases n - k,
{
    if k < n {
        lemma_built_stops(b, var, ids, k, n - 1);
    }
}

/// What building a chain comes to, as a result.
pub open spec fn built_as(out: Built, r: Result<Option<DataChunk>, RunError>) -> bool {
    match out {
        Built::At(st) => r matches Ok(Some(c)) && c.wf() && c.live_view() == st.rows && names::of(
            c.vars@,
        ) == st.vars && c.var_kinds@ == st.kinds,
        Built::Decline => r matches Ok(None),
        Built::OverBudget => r matches Err(e) && e == RunError::RowBudget,
        Built::Overflow => r matches Err(e) && fold_run::is_overflow(e),
    }
}

fn own_members(m: &Option<BTreeSet<u64>>) -> (r: Option<&BTreeSet<u64>>)
    ensures
        graph::members_view(r) == fold::own_members(*m),
{
    match m {
        Some(s) => Some(s),
        None => None,
    }
}

proof fn lemma_vars_len(h: Hop, vars: Seq<Seq<char>>)
    ensures
        hop::hop_vars(h, vars).len() == vars.len() + adds(h),
        h.varlen is None ==> chunk::vars_after(
            vars,
            if h.tgt is None {
                Some(h.var@)
            } else {
                None
            },
            hop::own_name(h.rel_var),
        ).len() == vars.len() + adds(h),
{
}

/// Whether a fold's lookups are those of a chain.
spec fn plan_of(b: BuildV, hops: Vec<Hop>, plan: Option<FoldPlan>) -> bool {
    match plan {
        Some(p) => p.wf() && p.view() == fold_of(b) && *p.hops == hops
            && p.children@.len() >= bound_after(hops@, hops@.len() as int),
        None => forall|i: int| 0 <= i < hops@.len() ==> !(#[trigger] hops@[i]).fold,
    }
}

fn make_plan<'a>(
    g: &'a Graph,
    hops: &'a Vec<Hop>,
    members: &'a Vec<Option<BTreeSet<u64>>>,
    tokens: &'a Vec<Option<Vec<u32>>>,
    memo_on: bool,
    Ghost(b): Ghost<BuildV>,
) -> (plan: Option<FoldPlan<'a>>)
    requires
        b.g == *g,
        b.hops == hops@,
        hops@.len() < usize::MAX / 2,
        (exists|i: int| 0 <= i < hops@.len() && (#[trigger] hops@[i]).fold) ==> fold::chain_ok(
            *g,
            hops@,
            tokens@,
        ),
        members@.len() == hops@.len(),
        forall|i: int|
            0 <= i < hops@.len() ==> fold::own_members(#[trigger] members@[i])
                == seeds::end_members(*g, names::of(hops@[i].labels@)),
        tokens_of(*g, hops@, tokens@),
    ensures
        plan_of(b, *hops, plan),
{
    if !any_folded(hops) {
        return None;
    }
    let bound = count_bound(hops);
    let p = FoldPlan::new(g, hops, members, tokens, bound, None, memo_on);
    proof {
        assert forall|i: int| 0 <= i < hops@.len() implies p.view().hops[i] == fold_of(
            b,
        ).hops[i] by {
            assert(fold::own_members(members@[i]) == seeds::end_members(
                *g,
                names::of(hops@[i].labels@),
            ));
            assert(graph::tokens_view(tokens@[i]) == g.type_tokens(names::of(hops@[i].types@)));
        }
        assert(p.view().hops =~= fold_of(b).hops);
        fold_build::lemma_width_min(hops@, bound as int);
    }
    Some(p)
}

/// Lookups whose counts may stop at a cap.
fn with_cap<'a>(
    plan: Option<FoldPlan<'a>>,
    cap: Option<u64>,
    Ghost(b): Ghost<BuildV>,
    Ghost(hops): Ghost<Vec<Hop>>,
) -> (r: Option<FoldPlan<'a>>)
    requires
        plan_of(b, hops, plan),
        cap matches Some(c) ==> c <= i64::MAX,
    ensures
        plan_of(b, hops, r),
        r matches Some(p) ==> p.cap == cap,
        r is Some == plan is Some,
{
    match plan {
        Some(p) => {
            let mut p = p;
            p.cap = cap;
            Some(p)
        },
        None => None,
    }
}

/// Whether nothing after a step counts, expands or drops rows.
fn counts_last(hops: &Vec<Hop>, k: usize, plan: &Option<FoldPlan>, Ghost(b): Ghost<BuildV>) -> (r:
    bool)
    requires
        b.hops == hops@,
        k < hops@.len(),
        plan_of(b, *hops, *plan),
    ensures
        r == is_last(b, k as int),
{
    let n = hops.len();
    let mut j: usize = k + 1;
    while j < n
        invariant
            k < j <= n == hops@.len(),
            b.hops == hops@,
            plan_of(b, *hops, *plan),
            forall|i: int| k < i < j ==> (#[trigger] b.hops[i]).fold && !is_root(b, i),
        decreases n - j,
    {
        if !hops[j].fold {
            assert(!b.hops[j as int].fold);
            return false;
        }
        match plan {
            Some(p) => {
                assert(p.root@[j as int] == is_root(b, j as int));
                if p.root[j] {
                    assert(b.hops[j as int].fold && is_root(b, j as int));
                    return false;
                }
            },
            None => {
                assert(!hops@[j as int].fold);
                return false;
            },
        }
        j = j + 1;
    }
    true
}

/// What a step comes to, as a result.
spec fn stepped_as(out: Built, r: Result<DataChunk, RunError>, pending: Seq<int>) -> bool {
    match out {
        Built::At(st) => r matches Ok(c) && c.wf() && st.rows == c.live_view() && st.vars
            == names::of(c.vars@) && st.kinds == c.var_kinds@ && st.pending == pending,
        Built::Decline => false,
        Built::OverBudget => r matches Err(e) && e == RunError::RowBudget,
        Built::Overflow => r matches Err(e) && fold_run::is_overflow(e),
    }
}

fn run_step(
    g: &Graph,
    c: DataChunk,
    hops: &Vec<Hop>,
    k: usize,
    members: &Option<BTreeSet<u64>>,
    tokens: &Option<Vec<u32>>,
    plan: &Option<FoldPlan>,
    Ghost(b): Ghost<BuildV>,
    Ghost(pending): Ghost<Seq<int>>,
) -> (r: Result<DataChunk, RunError>)
    requires
        b.g == *g,
        b.hops == hops@,
        k < hops@.len(),
        plan_of(b, *hops, *plan),
        fold::own_members(*members) == seeds::end_members(
            *g,
            names::of(hops@[k as int].labels@),
        ),
        graph::tokens_view(*tokens) == g.type_tokens(names::of(hops@[k as int].types@)),
        hops@[k as int].fold ==> hops@[k as int].varlen is None,
        c.wf(),
        c.ids@.len() == bound_after(hops@, k as int),
        hop::hop_fits(hops@[k as int], bound_after(hops@, k as int)),
        is_root(b, k as int) ==> forall|i: int|
            0 <= i < c.live_view().len() ==> fold_run::row_ready(
                fold_of(b),
                k as int,
                #[trigger] c.live_view()[i],
            ),
        plan matches Some(p) ==> p.cap == cap_at(b, k as int, stage_with(c, pending)),
    ensures
        stepped_as(step(b, k as int, stage_with(c, pending)), r, pending),
        r matches Ok(d) ==> d.ids@.len() == bound_after(hops@, k + 1),
        r matches Ok(d) ==> !hops@[k as int].fold ==> d.dense(),
{
    let h = &hops[k];
    proof {
        reveal(step);
        lemma_bound_after(hops@, k as int);
        lemma_vars_len(*h, names::of(c.vars@));
    }
    if h.fold {
        match plan {
            Some(p) => {
                assert(p.root@[k as int] == is_root(b, k as int));
                let mut reached: u64 = 0;
                run_hop_folded(c, h, k, p, &mut reached)
            },
            None => {
                assert(!hops@[k as int].fold);
                Ok(c)
            },
        }
    } else {
        run_hop(g, c, h, own_members(members), tokens)
    }
}

/// No row of a dense chunk is live twice.
pub proof fn lemma_dense_distinct(c: DataChunk)
    requires
        c.wf(),
        c.dense(),
    ensures
        c.selection@.no_duplicates(),
{
    assert forall|i: int, j: int|
        0 <= i < c.selection@.len() && 0 <= j < c.selection@.len() && i != j implies c.selection@[i]
        != c.selection@[j] by {
        assert(c.ids@[0].len() == c.rows());
        assert(c.selection@[i] == names::upto(c.rows())[i]);
        assert(c.selection@[j] == names::upto(c.rows())[j]);
    }
}

/// Builds the rows of a chain from the ids of its start.
pub fn build_chunk_from_ids(
    g: &Graph,
    var: &String,
    ids: Vec<u64>,
    hops: &Vec<Hop>,
    filters: &Vec<Filter>,
    cap: Option<u64>,
    memo_on: bool,
) -> (r: Result<Option<DataChunk>, RunError>)
    requires
        g.wf(),
        hops@.len() < usize::MAX / 2,
        layout::runnable(hop::steps_v(hops@)),
        cap matches Some(c) ==> c <= i64::MAX,
    ensures
        built_as(
            built(
                BuildV { g: *g, hops: hops@, filters: filters@, cap },
                var@,
                ids@,
                hops@.len() as int,
            ),
            r,
        ),
        r matches Ok(Some(c)) ==> (forall|i: int| 0 <= i < hops@.len() ==> !(#[trigger] hops@[i]).fold)
            ==> c.selection@.no_duplicates(),
{
    let ghost b = BuildV { g: *g, hops: hops@, filters: filters@, cap };
    let ghost idv = ids@;
    let ghost n = hops@.len() as int;
    let look = look_up(g, hops);
    proof {
        assert(tokens_of(*g, hops@, look.tokens@));
        ready::law_runnable_folds(*g, hops@, look.tokens@);
        ready::law_roots_are_ready(b, var@, ids@);
        assert forall|i: int| 0 <= i < hops@.len() && (#[trigger] hops@[i]).fold implies hops@[i].varlen is None by {
            assert(hop::steps_v(hops@)[i] == hops@[i].v());
            assert(layout::step_laid(hop::steps_v(hops@), 1, i));
        }
    }
    let seeds: Vec<u64> = if look.empty {
        Vec::new()
    } else {
        ids
    };
    let mut c = DataChunk::seed(var.as_str(), seeds);
    let mut pending = names::index_range(filters.len());
    let ghost st0 = stage_view(c, pending@);
    proof {
        assert(c.live_view() =~= seed_of(b, var@, idv).rows);
        assert(indices(pending@) =~= seed_of(b, var@, idv).pending);
        assert(st0 == seed_of(b, var@, idv));
    }
    proof {
        lemma_dense_distinct(c);
    }
    if !apply_ready_preds(g, &mut c, &mut pending, filters) {
        proof {
            assert(!(settle(*g, filters@, st0) is At));
            lemma_settle(*g, filters@, st0);
            lemma_built_stops(b, var@, idv, 0, n);
        }
        return Ok(None);
    }
    assert(settle(*g, filters@, st0) == Built::At(stage_view(c, pending@)));
    assert(tokens_of(*g, hops@, look.tokens@));
    let mut plan = make_plan(g, hops, &look.members, &look.tokens, memo_on, Ghost(b));
    let mut k: usize = 0;
    while k < hops.len()
        invariant
            k <= hops@.len(),
            n == hops@.len(),
            idv == ids@,
            g.wf(),
            b == (BuildV { g: *g, hops: hops@, filters: filters@, cap }),
            steps_fit(hops@),
            roots_ready(b, var@, idv),
            look.members@.len() == hops@.len(),
            tokens_of(*g, hops@, look.tokens@),
            forall|i: int|
                0 <= i < hops@.len() ==> fold::own_members(#[trigger] look.members@[i])
                    == seeds::end_members(*g, names::of(hops@[i].labels@)),
            forall|i: int|
                0 <= i < hops@.len() && (#[trigger] hops@[i]).fold ==> hops@[i].varlen is None,
            plan_of(b, *hops, plan),
            c.wf(),
            c.ids@.len() == bound_after(hops@, k as int),
            cap matches Some(c) ==> c <= i64::MAX,
            (forall|i: int| 0 <= i < hops@.len() ==> !(#[trigger] hops@[i]).fold)
                ==> c.selection@.no_duplicates(),
            built(b, var@, idv, k as int) == Built::At(stage_view(c, pending@)),
            forall|i: int| 0 <= i < pending@.len() ==> (#[trigger] pending@[i]) < filters@.len(),
        decreases hops.len() - k,
    {
        let ghost st = stage_view(c, pending@);
        let ghost pv = indices(pending@);
        proof {
            assert(hop::hop_fits(hops@[k as int], bound_after(hops@, k as int)));
            assert(fold::own_members(look.members@[k as int]) == seeds::end_members(
                *g,
                names::of(hops@[k as int].labels@),
            ));
            assert(graph::tokens_view(look.tokens@[k as int]) == g.type_tokens(
                names::of(hops@[k as int].types@),
            ));
            if is_root(b, k as int) {
                assert(built(b, var@, idv, k as int) == Built::At(st));
                assert forall|i: int| 0 <= i < c.live_view().len() implies fold_run::row_ready(
                    fold_of(b),
                    k as int,
                    #[trigger] c.live_view()[i],
                ) by {
                    assert(st.rows[i] == c.live_view()[i]);
                }
            }
        }
        let here = if pending.len() == 0 && counts_last(hops, k, &plan, Ghost(b)) {
            cap
        } else {
            None
        };
        plan = with_cap(plan, here, Ghost(b), Ghost(*hops));
        match run_step(
            g,
            c,
            hops,
            k,
            &look.members[k],
            &look.tokens[k],
            &plan,
            Ghost(b),
            Ghost(pv),
        ) {
            Ok(d) => {
                c = d;
            },
            Err(e) => {
                proof {
                    assert(!(step(b, k as int, st) is At));
                    assert(built(b, var@, idv, k + 1) == step(b, k as int, st));
                    lemma_built_stops(b, var@, idv, k + 1, n);
                    assert(built_as(step(b, k as int, st), Err(e)));
                }
                return Err(e);
            },
        }
        let ghost st1 = stage_view(c, pending@);
        proof {
            if !hops@[k as int].fold {
                lemma_dense_distinct(c);
            }
        }
        assert(step(b, k as int, st) == Built::At(st1));
        if !apply_ready_preds(g, &mut c, &mut pending, filters) {
            proof {
                assert(!(settle(*g, filters@, st1) is At));
                lemma_settle(*g, filters@, st1);
                assert(built(b, var@, idv, k + 1) == settle(*g, filters@, st1));
                lemma_built_stops(b, var@, idv, k + 1, n);
            }
            return Ok(None);
        }
        proof {
            assert(settle(*g, filters@, st1) == Built::At(
                stage_view(c, pending@),
            ));
        }
        k = k + 1;
    }
    Ok(Some(c))
}

/// Where the rows of a chain start.
pub struct Start<'a> {
    pub labels: &'a Vec<String>,
    pub var: &'a String,
    /// What a look-up by a property of the start found.
    pub found: Option<&'a Vec<u64>>,
    /// Whether a sparse first step may give the start.
    pub tables: bool,
}

/// The ids that a chain starts at.
pub open spec fn ids_at(g: Graph, s: Start, hops: Seq<Hop>) -> Seq<u64> {
    seeds::starts(g, names::of(s.labels@), hops, seeds::found_v(s.found), s.tables)
}

/// Builds the rows of a chain.
pub fn build_chunk(
    g: &Graph,
    s: &Start,
    hops: &Vec<Hop>,
    filters: &Vec<Filter>,
    cap: Option<u64>,
    memo_on: bool,
) -> (r: Result<Option<DataChunk>, RunError>)
    requires
        g.wf(),
        hops@.len() < usize::MAX / 2,
        layout::runnable(hop::steps_v(hops@)),
        cap matches Some(c) ==> c <= i64::MAX,
    ensures
        built_as(
            built(
                BuildV { g: *g, hops: hops@, filters: filters@, cap },
                s.var@,
                ids_at(*g, *s, hops@),
                hops@.len() as int,
            ),
            r,
        ),
        r matches Ok(Some(c)) ==> (forall|i: int| 0 <= i < hops@.len() ==> !(#[trigger] hops@[i]).fold)
            ==> c.selection@.no_duplicates(),
{
    let ids = start_ids(g, s.labels, hops, s.found, s.tables);
    build_chunk_from_ids(g, s.var, ids, hops, filters, cap, memo_on)
}

proof fn lemma_settle(g: Graph, fs: Seq<Filter>, st: StageV)
    ensures
        settle(g, fs, st) is At || settle(g, fs, st) is Decline,
{
    reveal(settle);
}

/// Whether token lists are those of steps.
pub open spec fn tokens_of(g: Graph, hops: Seq<Hop>, t: Seq<Option<Vec<u32>>>) -> bool {
    t.len() == hops.len() && forall|i: int|
        0 <= i < hops.len() ==> graph::tokens_view(#[trigger] t[i]) == g.type_tokens(
            names::of(hops[i].types@),
        )
}

} // verus!
