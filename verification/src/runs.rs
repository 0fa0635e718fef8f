//! The rows of queries of several stages and of joins.

use vstd::prelude::*;

use crate::batch;
use crate::batch::expand_last_stage_batch;
use crate::chain_rows::{build_chunk_from_ids, built, Built, BuildV};
use crate::chain_rows;
use crate::chunk::{DataChunk, RowV};
use crate::graph::{Graph, RunError, VarKind};
use crate::hop;
use crate::hop::{hops_have_varlen, Hop};
use crate::join;
use crate::join::hash_join_chunks;
use crate::layout;
use crate::names;
use crate::select;
use crate::select::Filter;
use crate::stages::PipeStage;
use crate::table;

verus! {

/// Whether variable-length steps may run where they are.
pub fn frontier_allows(hops: &Vec<Hop>, on: bool) -> (b: bool)
    ensures
        b <==> (on || forall|i: int| 0 <= i < hops@.len() ==> (#[trigger] hops@[i]).varlen is None),
{
    on || !hops_have_varlen(hops)
}

/// Rows and what their columns are.
pub struct RowsV {
    pub rows: Seq<RowV>,
    pub vars: Seq<Seq<char>>,
    pub kinds: Seq<VarKind>,
}

/// A chunk as its rows.
pub open spec fn rows_of(c: DataChunk) -> RowsV {
    RowsV { rows: c.live_view(), vars: names::of(c.vars@), kinds: c.var_kinds@ }
}

/// What a stage comes to.
pub enum Staged {
    At(RowsV),
    /// A condition cannot be answered on the rows.
    Decline,
    OverBudget,
}

/// The columns of rows that are handed on, without repeats when `distinct`.
pub open spec fn carried_on(carried: Seq<usize>, distinct: bool, r: RowsV) -> RowsV {
    let all = select::carried_rows(r.rows, carried);
    RowsV {
        rows: table::plain_rows(
            if distinct {
                table::first_seen(all)
            } else {
                all
            },
        ),
        vars: carried.map_values(|i: usize| r.vars[i as int]),
        kinds: carried.map_values(|i: usize| r.kinds[i as int]),
    }
}

/// What is handed on to a stage.
pub open spec fn handed_on(s: PipeStage, r: RowsV) -> RowsV {
    carried_on(s.carried@, s.distinct, r)
}

/// The variables of a stage.
pub open spec fn stage_vars(s: PipeStage, vars: Seq<Seq<char>>) -> Seq<Seq<char>> {
    batch::steps_vars(s.hops@, s.carried@.map_values(|i: usize| vars[i as int]), s.hops@.len())
}

/// The kinds of the variables of a stage.
pub open spec fn stage_kinds(s: PipeStage, kinds: Seq<VarKind>) -> Seq<VarKind> {
    batch::steps_kinds(s.hops@, s.carried@.map_values(|i: usize| kinds[i as int]), s.hops@.len())
}

/// A stage: what is handed on, its steps, and its conditions.
#[verifier::opaque]
pub open spec fn staged(g: Graph, s: PipeStage, fs: Seq<Filter>, r: RowsV) -> Staged {
    let h = handed_on(s, r);
    if s.distinct && g.over_budget(h.rows.len() as int) {
        Staged::OverBudget
    } else {
        match batch::steps_rows(g, s.hops@, h.rows, s.hops@.len()) {
            None => Staged::OverBudget,
            Some(rows) => match batch::filtered(
                g,
                fs,
                stage_vars(s, r.vars),
                stage_kinds(s, r.kinds),
                rows,
                fs.len(),
            ) {
                None => Staged::Decline,
                Some(rows) => Staged::At(
                    RowsV { rows, vars: stage_vars(s, r.vars), kinds: stage_kinds(s, r.kinds) },
                ),
            },
        }
    }
}

/// A stage hands on what is bound, its steps are where they belong, and its
/// conditions read what is bound.
pub open spec fn stage_fits(s: PipeStage, fs: Seq<Filter>, vars: Seq<Seq<char>>) -> bool {
    &&& s.carried@.len() > 0
    &&& forall|k: int| 0 <= k < s.carried@.len() ==> #[trigger] s.carried@[k] < vars.len()
    &&& layout::laid_out(hop::steps_v(s.hops@), s.carried@.len())
    &&& forall|k: int| 0 <= k < fs.len() ==> (#[trigger] fs[k]).bound(stage_vars(s, vars))
}

/// What a stage comes to, as a result.
pub open spec fn staged_as(out: Staged, r: Result<Option<DataChunk>, RunError>) -> bool {
    match out {
        Staged::At(x) => r matches Ok(Some(c)) && c.wf() && rows_of(c) == x,
        Staged::Decline => r matches Ok(None),
        Staged::OverBudget => r matches Err(e) && e == RunError::RowBudget,
    }
}

/// Runs a stage over the rows of the one before.
pub fn run_stage(g: &Graph, c: &DataChunk, s: &PipeStage, fs: &Vec<Filter>) -> (r: Result<
    Option<DataChunk>,
    RunError,
>)
    requires
        g.wf(),
        c.wf(),
        stage_fits(*s, fs@, names::of(c.vars@)),
    ensures
        staged_as(staged(*g, *s, fs@, rows_of(*c)), r),
{
    reveal(staged);
    let ghost vars = names::of(c.vars@);
    let ghost first = s.carried@.map_values(|i: usize| vars[i as int]);
    proof {
        assert forall|k: int| 0 <= k < s.carried@.len() implies #[trigger] s.carried@[k]
            < c.ids@.len() by {}
        assert(first =~= s.carried@.map_values(|i: usize| c.vars@[i as int]@));
    }
    let d = match c.project_carried(g, &s.carried, s.distinct) {
        Ok(d) => d,
        Err(e) => {
            return Err(e);
        },
    };
    proof {
        assert(names::of(d.vars@) =~= first);
        assert(d.var_kinds@ =~= s.carried@.map_values(|i: usize| c.var_kinds@[i as int]));
        assert(rows_of(d) == handed_on(*s, rows_of(*c)));
    }
    proof {
        assert forall|k: int| 0 <= k < s.hops@.len() implies hop::hop_fits(
            #[trigger] s.hops@[k],
            batch::steps_vars(s.hops@, first, k as nat).len(),
        ) by {
            lemma_stage_width(s.hops@, first, k as nat);
            assert(hop::steps_v(s.hops@)[k] == s.hops@[k].v());
            assert(layout::step_laid(hop::steps_v(s.hops@), first.len(), k));
        }
    }
    expand_last_stage_batch(g, d, &s.hops, fs)
}

proof fn lemma_stage_width(hops: Seq<Hop>, first: Seq<Seq<char>>, k: nat)
    requires
        k <= hops.len(),
    ensures
        batch::steps_vars(hops, first, k).len() == layout::width_at(
            hop::steps_v(hops),
            first.len(),
            k as int,
        ),
    decreases k,
{
    if k > 0 {
        lemma_stage_width(hops, first, (k - 1) as nat);
        assert(hop::steps_v(hops)[k - 1] == hops[k - 1].v());
    }
}

/// The rows after `n` stages.
pub open spec fn all_staged(
    g: Graph,
    ss: Seq<PipeStage>,
    fs: Seq<Vec<Filter>>,
    r: RowsV,
    n: nat,
) -> Staged
    decreases n,
{
    if n == 0 {
        Staged::At(r)
    } else {
        match all_staged(g, ss, fs, r, (n - 1) as nat) {
            Staged::At(x) => staged(g, ss[n - 1], fs[n - 1]@, x),
            x => x,
        }
    }
}

/// The variables after `n` stages.
pub open spec fn vars_after_stages(ss: Seq<PipeStage>, vars: Seq<Seq<char>>, n: nat) -> Seq<Seq<char>>
    decreases n,
{
    if n == 0 {
        vars
    } else {
        stage_vars(ss[n - 1], vars_after_stages(ss, vars, (n - 1) as nat))
    }
}

proof fn lemma_staged_stops(
    g: Graph,
    ss: Seq<PipeStage>,
    fs: Seq<Vec<Filter>>,
    r: RowsV,
    k: nat,
    n: nat,
)
    requires
        k <= n,
        !(all_staged(g, ss, fs, r, k) is At),
    ensures
        all_staged(g, ss, fs, r, n) == all_staged(g, ss, fs, r, k),
    decreases n - k,
{
    if k < n {
        lemma_staged_stops(g, ss, fs, r, k, (n - 1) as nat);
    }
}

proof fn lemma_staged_vars(g: Graph, s: PipeStage, fs: Seq<Filter>, r: RowsV)
    ensures
        staged(g, s, fs, r) matches Staged::At(x) ==> x.vars == stage_vars(s, r.vars),
{
    reveal(staged);
}

/// Runs the stages of a query one after the other.
pub fn run_pipeline(g: &Graph, c: DataChunk, ss: &Vec<PipeStage>, fs: &Vec<Vec<Filter>>) -> (r: Result<
    Option<DataChunk>,
    RunError,
>)
    requires
        g.wf(),
        c.wf(),
        fs@.len() == ss@.len(),
        forall|k: int|
            0 <= k < ss@.len() ==> stage_fits(
                #[trigger] ss@[k],
                fs@[k]@,
                vars_after_stages(ss@, names::of(c.vars@), k as nat),
            ),
    ensures
        staged_as(all_staged(*g, ss@, fs@, rows_of(c), ss@.len()), r),
{
    let ghost r0 = rows_of(c);
    let ghost n = ss@.len();
    let mut d = c;
    let mut k: usize = 0;
    while k < ss.len()
        invariant
            k <= ss@.len() == n,
            g.wf(),
            r0 == rows_of(c),
            fs@.len() == ss@.len(),
            forall|k: int|
                0 <= k < ss@.len() ==> stage_fits(
                    #[trigger] ss@[k],
                    fs@[k]@,
                    vars_after_stages(ss@, r0.vars, k as nat),
                ),
            d.wf(),
            all_staged(*g, ss@, fs@, r0, k as nat) == Staged::At(rows_of(d)),
            names::of(d.vars@) == vars_after_stages(ss@, r0.vars, k as nat),
        decreases ss.len() - k,
    {
        let ghost x = rows_of(d);
        assert(stage_fits(ss@[k as int], fs@[k as int]@, names::of(d.vars@)));
        proof {
            lemma_staged_vars(*g, ss@[k as int], fs@[k as int]@, x);
        }
        match run_stage(g, &d, &ss[k], &fs[k]) {
            Ok(Some(e)) => {
                d = e;
            },
            Ok(None) => {
                proof {
                    lemma_staged_stops(*g, ss@, fs@, r0, (k + 1) as nat, n);
                }
                return Ok(None);
            },
            Err(e) => {
                proof {
                    lemma_staged_stops(*g, ss@, fs@, r0, (k + 1) as nat, n);
                }
                return Err(e);
            },
        }
        k = k + 1;
    }
    Ok(Some(d))
}

/// One side of a join: where it starts, its steps and its conditions.
pub struct JoinSide<'a> {
    pub var: &'a String,
    pub hops: &'a Vec<Hop>,
    pub filters: &'a Vec<Filter>,
}

/// What a side is built with.
pub open spec fn side_build(g: Graph, s: JoinSide) -> BuildV {
    BuildV { g, hops: s.hops@, filters: s.filters@, cap: None }
}

/// A side can run, and none of its steps is counted.
pub open spec fn side_fits(s: JoinSide) -> bool {
    &&& s.hops@.len() < usize::MAX / 2
    &&& layout::runnable(hop::steps_v(s.hops@))
    &&& forall|i: int| 0 <= i < s.hops@.len() ==> !(#[trigger] s.hops@[i]).fold
}

/// The distinct ids that a variable takes in rows, ascending.
pub open spec fn is_seed_of(ids: Seq<u64>, rows: Seq<RowV>, vi: int) -> bool {
    &&& select::ascending(ids)
    &&& forall|x: u64| #[trigger]
        ids.contains(x) <==> exists|k: int|
            0 <= k < rows.len() && (#[trigger] rows[k]).ids[vi] == x
}

/// The rows that two sides join to, on the variables that they share.
pub open spec fn joined(a: RowsV, b: RowsV) -> RowsV {
    let shared = join::shared_cols(a.vars, b.vars);
    let j = join::JoinV {
        left: join::left_of(shared),
        right: join::right_of(shared),
        extra: join::extra_cols(a.vars, b.vars),
    };
    RowsV {
        rows: table::plain_rows(join::join_rows(j, a.rows, b.rows)),
        vars: a.vars + j.extra.map_values(|i: usize| b.vars[i as int]),
        kinds: a.kinds + j.extra.map_values(|i: usize| b.kinds[i as int]),
    }
}

/// A stage of a build as rows.
pub open spec fn built_rows(st: chain_rows::StageV) -> RowsV {
    RowsV { rows: st.rows, vars: st.vars, kinds: st.kinds }
}

/// What a join comes to: one side from the ids it starts at, the other from the
/// distinct ids that a variable of the first takes, and their rows joined.
pub open spec fn join_as(
    g: Graph,
    a: JoinSide,
    ids: Seq<u64>,
    vi: int,
    b: JoinSide,
    seed: Seq<u64>,
    r: Result<Option<DataChunk>, RunError>,
) -> bool {
    match built(side_build(g, a), a.var@, ids, a.hops@.len() as int) {
        Built::At(x) => is_seed_of(seed, x.rows, vi) && match built(
            side_build(g, b),
            b.var@,
            seed,
            b.hops@.len() as int,
        ) {
            Built::At(y) => {
                let out = joined(built_rows(x), built_rows(y));
                if g.over_budget(out.rows.len() as int) {
                    r matches Err(e) && e == RunError::RowBudget
                } else {
                    r matches Ok(Some(c)) && c.wf() && rows_of(c) == out
                }
            },
            other => chain_rows::built_as(other, r),
        },
        other => chain_rows::built_as(other, r),
    }
}

pub fn build_side(g: &Graph, s: &JoinSide, ids: Vec<u64>) -> (r: Result<Option<DataChunk>, RunError>)
    requires
        g.wf(),
        side_fits(*s),
    ensures
        chain_rows::built_as(
            built(side_build(*g, *s), s.var@, ids@, s.hops@.len() as int),
            r,
        ),
{
    build_chunk_from_ids(g, s.var, ids, s.hops, s.filters, None, false)
}

/// Runs a join: builds one side from the ids it starts at, the other from the
/// distinct ids that a variable of the first takes, and joins their rows.
pub fn run_join(g: &Graph, a: &JoinSide, ids: Vec<u64>, vi: usize, b: &JoinSide) -> (r: Result<
    Option<DataChunk>,
    RunError,
>)
    requires
        g.wf(),
        side_fits(*a),
        side_fits(*b),
        vi < chain_rows::bound_after(a.hops@, a.hops@.len() as int),
    ensures
        exists|seed: Seq<u64>| #[trigger] join_as(*g, *a, ids@, vi as int, *b, seed, r),
{
    let ghost ba = built(side_build(*g, *a), a.var@, ids@, a.hops@.len() as int);
    let ghost none = Seq::<u64>::empty();
    let ra = build_side(g, a, ids);
    let ca = match ra {
        Ok(Some(c)) => c,
        Ok(None) => {
            assert(join_as(*g, *a, ids@, vi as int, *b, none, Ok(None)));
            return Ok(None);
        },
        Err(e) => {
            assert(join_as(*g, *a, ids@, vi as int, *b, none, Err(e)));
            return Err(e);
        },
    };
    proof {
        lemma_built_width(side_build(*g, *a), a.var@, ids@, a.hops@.len() as int);
        assert(names::of(ca.vars@).len() == ca.vars@.len());
    }
    let seed = ca.distinct_ids(vi);
    let ghost sv = seed@;
    let cb = match build_side(g, b, seed) {
        Ok(Some(c)) => c,
        Ok(None) => {
            assert(join_as(*g, *a, ids@, vi as int, *b, sv, Ok(None)));
            return Ok(None);
        },
        Err(e) => {
            assert(join_as(*g, *a, ids@, vi as int, *b, sv, Err(e)));
            return Err(e);
        },
    };
    match hash_join_chunks(g, &ca, &cb) {
        Ok(c) => {
            proof {
                let out = joined(rows_of(ca), rows_of(cb));
                assert(rows_of(c) == out);
                assert(join_as(*g, *a, ids@, vi as int, *b, sv, Ok(Some(c))));
            }
            Ok(Some(c))
        },
        Err(e) => {
            assert(join_as(*g, *a, ids@, vi as int, *b, sv, Err(e)));
            Err(e)
        },
    }
}

pub proof fn lemma_built_width(b: BuildV, var: Seq<char>, ids: Seq<u64>, k: int)
    requires
        0 <= k <= b.hops.len(),
        forall|i: int| 0 <= i < b.hops.len() ==> !(#[trigger] b.hops[i]).fold,
    ensures
        built(b, var, ids, k) matches Built::At(st) ==> st.vars.len() == chain_rows::bound_after(
            b.hops,
            k,
        ),
    decreases k,
{
    reveal(chain_rows::settle);
    reveal(chain_rows::step);
    if k > 0 {
        lemma_built_width(b, var, ids, k - 1);
        assert(!b.hops[k - 1].fold);
    }
}

/// What a query of two stages comes to.
pub open spec fn multistage_as(
    g: Graph,
    first: JoinSide,
    ids: Seq<u64>,
    s: PipeStage,
    fs: Seq<Filter>,
    on: bool,
    r: Result<Option<DataChunk>, RunError>,
) -> bool {
    if !on && exists|i: int| 0 <= i < first.hops@.len() && (#[trigger] first.hops@[i]).varlen is Some {
        r matches Ok(None)
    } else {
        match built(side_build(g, first), first.var@, ids, first.hops@.len() as int) {
            Built::At(x) => staged_as(staged(g, s, fs, built_rows(x)), r),
            other => chain_rows::built_as(other, r),
        }
    }
}

/// The variables of a side.
pub open spec fn side_vars(s: JoinSide) -> Seq<Seq<char>> {
    batch::steps_vars(s.hops@, seq![s.var@], s.hops@.len())
}

proof fn lemma_built_vars(b: BuildV, var: Seq<char>, ids: Seq<u64>, k: int)
    requires
        0 <= k <= b.hops.len(),
        forall|i: int| 0 <= i < b.hops.len() ==> !(#[trigger] b.hops[i]).fold,
    ensures
        built(b, var, ids, k) matches Built::At(st) ==> st.vars == batch::steps_vars(
            b.hops,
            seq![var],
            k as nat,
        ),
    decreases k,
{
    reveal(chain_rows::settle);
    reveal(chain_rows::step);
    if k > 0 {
        lemma_built_vars(b, var, ids, k - 1);
        assert(!b.hops[k - 1].fold);
    }
}

/// Runs a query of two stages: the first from the ids it starts at, the second
/// over what is handed on. Steps of variable length run only when `on`.
pub fn run_multistage(
    g: &Graph,
    first: &JoinSide,
    ids: Vec<u64>,
    s: &PipeStage,
    fs: &Vec<Filter>,
    on: bool,
) -> (r: Result<Option<DataChunk>, RunError>)
    requires
        g.wf(),
        side_fits(*first),
        stage_fits(*s, fs@, side_vars(*first)),
    ensures
        multistage_as(*g, *first, ids@, *s, fs@, on, r),
{
    if !frontier_allows(first.hops, on) {
        assert(exists|i: int|
            0 <= i < first.hops@.len() && (#[trigger] first.hops@[i]).varlen is Some);
        return Ok(None);
    }
    proof {
        lemma_built_vars(side_build(*g, *first), first.var@, ids@, first.hops@.len() as int);
    }
    match build_side(g, first, ids) {
        Ok(Some(c)) => run_stage(g, &c, s, fs),
        Ok(None) => Ok(None),
        Err(e) => Err(e),
    }
}

} // verus!
