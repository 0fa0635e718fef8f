//! Queries of three stages or more.

use vstd::prelude::*;

use crate::aggregate;
use crate::ast;
use crate::ast::{Expr, ExprV};
use crate::carry::{carry_of, pipeline_carry, recognise_scan, scan_of, Scan, ScanV, StageTail, StageTailV};
use crate::chain::{bound_hops, collect_hops, Allow, Prebound};
use crate::distinct::has_varlen;
use crate::fuse::{bare_chain, build_pipeline_tail, chain_of_columns, pipeline_tail};
use crate::graph::VarKind;
use crate::hop;
use crate::hop::{copy_all, Hop, StepHop};
use crate::legs::steps_have_varlen;
use crate::multistage::{as_match, as_with, get_match, get_with, later_allow};
use crate::names;
use crate::names::copy_names;
use crate::plan::{varlen_distinct_consumed, varlen_ok};
use crate::preds;
use crate::preds::{and_all, and_node_anchors, chain_allow, recognise_where_preds, where_preds, WherePred, WhereV};
use crate::query::{Clause, ClauseV, Pattern, PatternV, ProjV, Projection, SingleQuery};

verus! {

/// A later stage of a query.
#[derive(Debug)]
pub struct PipeStage {
    /// The columns of the stage before that are handed on.
    pub carried: Vec<usize>,
    /// Whether repeats of them are dropped.
    pub distinct: bool,
    pub hops: Vec<Hop>,
    pub wheres: Vec<WherePred>,
}

/// A [`PipeStage`].
pub struct PipeStageV {
    pub carried: Seq<usize>,
    pub distinct: bool,
    pub hops: Seq<StepHop>,
    pub wheres: Seq<WhereV>,
}

impl PipeStage {
    pub open spec fn v(self) -> PipeStageV {
        PipeStageV {
            carried: self.carried@,
            distinct: self.distinct,
            hops: hop::steps_v(self.hops@),
            wheres: preds::wheres_v(self.wheres@),
        }
    }
}

/// Later stages.
pub open spec fn stages_v(s: Seq<PipeStage>) -> Seq<PipeStageV> {
    s.map_values(|x: PipeStage| x.v())
}

/// A query of three stages or more.
#[derive(Debug)]
pub struct PipelinePlan {
    pub s0: Scan,
    pub stages: Vec<PipeStage>,
    pub tail: StageTail,
}

/// A [`PipelinePlan`].
pub struct PipelineV {
    pub s0: ScanV,
    pub stages: Seq<PipeStageV>,
    pub tail: StageTailV,
}

impl PipelinePlan {
    pub open spec fn v(self) -> PipelineV {
        PipelineV { s0: self.s0.v(), stages: stages_v(self.stages@), tail: self.tail.v() }
    }
}

/// The stages so far, and what the last of them binds.
pub struct PipeState {
    pub stages: Seq<PipeStageV>,
    pub vars: Seq<Seq<char>>,
    pub kinds: Seq<VarKind>,
    pub labels: Map<Seq<char>, Seq<Seq<char>>>,
    /// The steps of the last stage.
    pub hops: Seq<StepHop>,
}

/// The stages once a projection hands on and a match goes on from it.
pub open spec fn pipe_step(st: PipeState, proj: ProjV, pattern: PatternV, w: Option<ExprV>) -> Option<
    PipeState,
> {
    match carry_of(proj, st.vars, st.kinds, st.labels) {
        None => None,
        Some(c) => if !varlen_ok(st.hops, proj) {
            None
        } else {
            match bound_hops(pattern, c.vars, c.kinds, c.labels, later_allow()) {
                None => None,
                Some(h) => match where_preds(and_all(w, h.node_anchors), h.vars) {
                    None => None,
                    Some(wheres) => if has_varlen(h.hops) {
                        None
                    } else {
                        Some(
                            PipeState {
                                stages: st.stages.push(
                                    PipeStageV {
                                        carried: c.carried,
                                        distinct: c.distinct,
                                        hops: h.hops,
                                        wheres,
                                    },
                                ),
                                vars: h.vars,
                                kinds: h.kinds,
                                labels: h.labels,
                                hops: h.hops,
                            },
                        )
                    },
                },
            }
        },
    }
}

/// The stages once two clauses are read: a projection without a condition and
/// a match.
pub open spec fn pipe_pair(st: PipeState, a: ClauseV, b: ClauseV) -> Option<PipeState> {
    match (as_with(a), as_match(b)) {
        (Some((proj, None)), Some((p, w))) => pipe_step(st, proj, p, w),
        _ => None,
    }
}

/// The first `n` later stages of a query.
pub open spec fn pipe_stages(q: Seq<ClauseV>, st: PipeState, n: nat) -> Option<PipeState>
    decreases n,
{
    if n == 0 {
        Some(st)
    } else {
        match pipe_stages(q, st, (n - 1) as nat) {
            Some(mid) => pipe_pair(mid, q[2 * n - 1], q[2 * n as int]),
            None => None,
        }
    }
}

/// How many of the first `n` clauses are matches that must succeed.
pub open spec fn match_count(q: Seq<ClauseV>, n: nat) -> nat
    decreases n,
{
    if n == 0 {
        0
    } else {
        match_count(q, (n - 1) as nat) + if as_match(q[n - 1]) is Some {
            1nat
        } else {
            0nat
        }
    }
}

/// One past the last match among the first `n` clauses.
pub open spec fn last_match(q: Seq<ClauseV>, n: nat) -> nat
    decreases n,
{
    if n == 0 {
        0
    } else if as_match(q[n - 1]) is Some {
        n
    } else {
        last_match(q, (n - 1) as nat)
    }
}

/// The query of three stages or more that a query is.
pub open spec fn pipeline_of(q: Seq<ClauseV>) -> Option<PipelineV> {
    let end = last_match(q, q.len());
    if match_count(q, q.len()) < 3 || end % 2 != 1 {
        None
    } else {
        match as_match(q[0]) {
            None => None,
            Some((p0, w0)) => match scan_of(p0, w0, chain_allow()) {
                None => None,
                Some(s0) => match pipe_stages(
                    q,
                    PipeState {
                        stages: Seq::empty(),
                        vars: s0.vars,
                        kinds: s0.kinds,
                        labels: s0.labels,
                        hops: s0.hops,
                    },
                    (end / 2) as nat,
                ) {
                    None => None,
                    Some(st) => if st.stages.len() == 0 || st.vars.len() == 0 {
                        None
                    } else {
                        match pipeline_tail(bare_chain(st.vars, st.kinds), q.skip(end as int)) {
                            Some(tail) => Some(PipelineV { s0, stages: st.stages, tail }),
                            None => None,
                        }
                    },
                },
            },
        }
    }
}

fn count_matches(q: &SingleQuery) -> (r: usize)
    ensures
        r == match_count(q.v(), q.v().len()),
{
    let mut n: usize = 0;
    let mut i: usize = 0;
    while i < q.clauses.len()
        invariant
            i <= q.clauses@.len(),
            n == match_count(q.v(), i as nat),
            n <= i,
        decreases q.clauses.len() - i,
    {
        assert(q.v()[i as int] == q.clauses@[i as int].v());
        if get_match(&q.clauses[i]).is_some() {
            n = n + 1;
        }
        i = i + 1;
    }
    n
}

fn end_of_matches(q: &SingleQuery) -> (r: usize)
    ensures
        r == last_match(q.v(), q.v().len()),
        r <= q.clauses@.len(),
{
    let mut i: usize = q.clauses.len();
    while i > 0
        invariant
            i <= q.clauses@.len(),
            last_match(q.v(), q.v().len()) == last_match(q.v(), i as nat),
        decreases i,
    {
        assert(q.v()[i - 1] == q.clauses@[i - 1].v());
        if get_match(&q.clauses[i - 1]).is_some() {
            return i;
        }
        i = i - 1;
    }
    0
}

struct PipeRun {
    stages: Vec<PipeStage>,
    bound: Prebound,
    hops: Vec<Hop>,
}

impl PipeRun {
    spec fn v(self) -> PipeState {
        PipeState {
            stages: stages_v(self.stages@),
            vars: names::of(self.bound.vars@),
            kinds: self.bound.kinds@,
            labels: self.bound.labels.v(),
            hops: hop::steps_v(self.hops@),
        }
    }
}

fn add_stage(st: &mut PipeRun, proj: &Projection, pattern: &Pattern, w: &Option<Expr>) -> (ok: bool)
    requires
        old(st).bound.kinds@.len() == old(st).bound.vars@.len(),
    ensures
        match pipe_step(old(st).v(), proj.v(), pattern.v(), ast::opt_v(*w)) {
            Some(s) => {
                &&& ok
                &&& final(st).v() == s
                &&& final(st).bound.kinds@.len() == final(st).bound.vars@.len()
            },
            None => !ok,
        },
{
    let ghost st0 = st.v();
    let c = match pipeline_carry(proj, &st.bound.vars, &st.bound.kinds, &st.bound.labels) {
        Some(c) => c,
        None => {
            return false;
        },
    };
    if !varlen_distinct_consumed(&st.hops, proj) {
        return false;
    }
    proof {
        aggregate::lemma_pattern_fits(*pattern);
        aggregate::law_bound_steps_are_bound(
            pattern.v(),
            names::of(c.bound.vars@),
            c.bound.kinds@,
            c.bound.labels.v(),
            later_allow(),
        );
    }
    let h = match collect_hops(
        pattern,
        Some(&c.bound),
        Allow { hopless: false, start: false, node: true },
    ) {
        Some(h) => h,
        None => {
            return false;
        },
    };
    let all = and_node_anchors(ast::copy_opt(ast::as_opt(w)), &h.node_anchors);
    let wheres = match recognise_where_preds(ast::as_opt(&all), &h.vars) {
        Some(w) => w,
        None => {
            return false;
        },
    };
    if steps_have_varlen(&h.hops) {
        return false;
    }
    let hops = copy_all(&h.hops);
    let s = PipeStage { carried: c.carried, distinct: c.distinct, hops: h.hops, wheres };
    let ghost s0 = st.stages@;
    st.stages.push(s);
    assert(stages_v(st.stages@) =~= stages_v(s0).push(s.v()));
    st.bound = Prebound { vars: h.vars, kinds: h.kinds, labels: h.labels };
    st.hops = hops;
    true
}

fn add_pair(st: &mut PipeRun, a: &Clause, b: &Clause) -> (ok: bool)
    requires
        old(st).bound.kinds@.len() == old(st).bound.vars@.len(),
    ensures
        match pipe_pair(old(st).v(), a.v(), b.v()) {
            Some(s) => {
                &&& ok
                &&& final(st).v() == s
                &&& final(st).bound.kinds@.len() == final(st).bound.vars@.len()
            },
            None => !ok,
        },
{
    match (get_with(a), get_match(b)) {
        (Some((proj, None)), Some((p, w))) => add_stage(st, proj, p, w),
        _ => false,
    }
}

proof fn lemma_pipe_none(q: Seq<ClauseV>, st: PipeState, n: nat, m: nat)
    requires
        n <= m,
        pipe_stages(q, st, n) is None,
    ensures
        pipe_stages(q, st, m) is None,
    decreases m - n,
{
    if n < m {
        lemma_pipe_none(q, st, n, (m - 1) as nat);
    }
}

fn run_stages(q: &SingleQuery, s0: &Scan, n: usize) -> (r: Option<PipeRun>)
    requires
        2 * n + 1 <= q.clauses@.len(),
        s0.kinds@.len() == s0.vars@.len(),
    ensures
        ({
            let st0 = PipeState {
                stages: Seq::empty(),
                vars: s0.v().vars,
                kinds: s0.v().kinds,
                labels: s0.v().labels,
                hops: s0.v().hops,
            };
            match r {
                Some(st) => pipe_stages(q.v(), st0, n as nat) == Some(st.v()),
                None => pipe_stages(q.v(), st0, n as nat) is None,
            }
        }),
{
    let ghost st0 = PipeState {
        stages: Seq::empty(),
        vars: s0.v().vars,
        kinds: s0.v().kinds,
        labels: s0.v().labels,
        hops: s0.v().hops,
    };
    let mut st = PipeRun {
        stages: Vec::new(),
        bound: Prebound {
            vars: copy_names(&s0.vars),
            kinds: crate::chunk::copy_kinds(&s0.kinds),
            labels: s0.labels.copy(),
        },
        hops: copy_all(&s0.hops),
    };
    assert(stages_v(st.stages@) =~= Seq::empty());
    let mut i: usize = 0;
    while i < n
        invariant
            i <= n,
            2 * n + 1 <= q.clauses@.len(),
            st0 == (PipeState {
                stages: Seq::empty(),
                vars: s0.v().vars,
                kinds: s0.v().kinds,
                labels: s0.v().labels,
                hops: s0.v().hops,
            }),
            st.bound.kinds@.len() == st.bound.vars@.len(),
            pipe_stages(q.v(), st0, i as nat) == Some(st.v()),
        decreases n - i,
    {
        assert(q.clauses@.len() == q.clauses.len());
        let at: usize = 2 * i + 1;
        assert(q.v()[at as int] == q.clauses@[at as int].v());
        assert(q.v()[at + 1] == q.clauses@[at + 1].v());
        let ok = add_pair(&mut st, &q.clauses[at], &q.clauses[at + 1]);
        if !ok {
            proof {
                lemma_pipe_none(q.v(), st0, (i + 1) as nat, n as nat);
            }
            return None;
        }
        i = i + 1;
    }
    Some(st)
}

/// A query of three stages or more that may be missing.
pub open spec fn pipeline_opt(p: Option<PipelinePlan>) -> Option<PipelineV> {
    match p {
        Some(p) => Some(p.v()),
        None => None,
    }
}

/// The query of three stages or more that a query is: a match, pairs of a
/// projection that hands columns on and a match that starts from them, and a
/// tail.
pub fn recognise_pipeline(q: &SingleQuery) -> (r: Option<PipelinePlan>)
    ensures
        pipeline_opt(r) == pipeline_of(q.v()),
{
    let end = end_of_matches(q);
    if count_matches(q) < 3 || end % 2 != 1 {
        return None;
    }
    assert(q.v()[0] == q.clauses@[0].v());
    let s0 = match get_match(&q.clauses[0]) {
        Some((p, w)) => match recognise_scan(
            p,
            w,
            Allow { hopless: false, start: true, node: true },
        ) {
            Some(s) => s,
            None => {
                return None;
            },
        },
        None => {
            return None;
        },
    };
    let st = match run_stages(q, &s0, end / 2) {
        Some(s) => s,
        None => {
            return None;
        },
    };
    if st.stages.len() == 0 || st.bound.vars.len() == 0 {
        return None;
    }
    let chain = chain_of_columns(&st.bound);
    match build_pipeline_tail(chain, &q.clauses, end) {
        Some(tail) => Some(PipelinePlan { s0, stages: st.stages, tail }),
        None => None,
    }
}

} // verus!
