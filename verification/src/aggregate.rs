//! Queries that group, and what their chains keep.

use vstd::prelude::*;

use crate::ast;
use crate::ast::Expr;
use crate::chain;
use crate::chain::{add_hop, enter_path, walk_hops, walk_path, walk_paths, Allow, HopsV, Place};
use crate::fold;
use crate::fold_plan;
use crate::fold_plan::{folded_plan, plan_count_fold, step_wf};
use crate::graph;
use crate::graph::Graph;
use crate::hop;
use crate::hop::{Hop, StepHop};
use crate::levers;
use crate::levers::Levers;
use crate::names;
use crate::plan;
use crate::plan::{agg_opt, aggregate_over_chain, aggregate_plan, varlen_distinct_consumed, varlen_ok, AggPlan, AggV, SiteV};
use crate::preds::{chain_of, recognise_chain, ChainV, WhereV};
use crate::query::{Clause, ClauseV, NodeV, PathV, PatternV, ProjV, Projection, RelV, SingleQuery};
use crate::readset;
use crate::seqs;

verus! {

/// A step that starts where another ends comes later, and directly after it
/// when it goes on with its path.
pub open spec fn linked(hops: Seq<StepHop>) -> bool {
    forall|a: int, b: int|
        #![trigger hops[a], hops[b]]
        0 <= a < hops.len() && 0 <= b < hops.len() && hops[a].end_vi == Some(hops[b].src) ==> a < b
            && (hops[b].track && !hops[b].reset ==> b == a + 1)
}

/// Later steps bind later variables.
pub open spec fn ascending_ends(hops: Seq<StepHop>) -> bool {
    forall|a: int, b: int|
        #![trigger hops[a], hops[b]]
        0 <= a < b < hops.len() && hops[a].end_vi is Some && hops[b].end_vi is Some
            ==> hops[a].end_vi->0 < hops[b].end_vi->0
}

/// What holds of the steps and variables of a pattern.
pub open spec fn state_wf(st: HopsV) -> bool {
    &&& st.kinds.len() == st.vars.len()
    &&& forall|i: int| 0 <= i < st.hops.len() ==> step_wf(#[trigger] st.hops[i], st.vars.len())
    &&& forall|i: int| 0 <= i < st.hops.len() ==> !(#[trigger] st.hops[i]).fold
    &&& forall|i: int| 0 <= i < st.hops.len() ==> (#[trigger] st.hops[i]).inline.len() == 0
    &&& linked(st.hops)
    &&& ascending_ends(st.hops)
}

/// Where a path goes on: from the end of the last step, or from the start.
spec fn at_hop(st: HopsV, src: int, path: int, n: int, total: int) -> bool {
    &&& 0 <= src < st.vars.len()
    &&& 0 < n < total ==> st.hops.len() > 0 && st.hops.last().end_vi == Some(src)
    &&& n == 0 && path == 0 ==> st.hops.len() == 0
}

proof fn lemma_add_hop(st: HopsV, at: Place, src: int, rel: RelV, node: NodeV, allow: Allow)
    requires
        state_wf(st),
        at_hop(st, src, at.path as int, at.hop as int, at.hops as int),
        at.hop < at.hops,
    ensures
        match add_hop(st, at, src, rel, node, allow) {
            Some((st1, s)) => state_wf(st1) && at_hop(
                st1,
                s,
                at.path as int,
                at.hop + 1,
                at.hops as int,
            ) && st1.vars.len() >= st.vars.len() && st1.hops.len() > 0,
            None => true,
        },
{
    match add_hop(st, at, src, rel, node, allow) {
        Some((st1, s)) => {
            let h = st1.hops.last();
            assert(st1.hops =~= st.hops.push(h));
            if h.tgt is Some {
                names::lemma_position(st.vars, h.var);
            }
            assert forall|i: int| 0 <= i < st1.hops.len() implies step_wf(
                #[trigger] st1.hops[i],
                st1.vars.len(),
            ) by {
                if i < st.hops.len() {
                    assert(step_wf(st.hops[i], st.vars.len()));
                }
            }
            assert forall|a: int, b: int|
                #![trigger st1.hops[a], st1.hops[b]]
                0 <= a < b < st1.hops.len() && st1.hops[a].end_vi is Some && st1.hops[b].end_vi is Some
                implies st1.hops[a].end_vi->0 < st1.hops[b].end_vi->0 by {
                assert(step_wf(st.hops[a], st.vars.len()));
                if b < st.hops.len() {
                    assert(st.hops[a].end_vi->0 < st.hops[b].end_vi->0);
                }
            }
            assert forall|a: int, b: int|
                #![trigger st1.hops[a], st1.hops[b]]
                0 <= a < st1.hops.len() && 0 <= b < st1.hops.len() && st1.hops[a].end_vi == Some(
                    st1.hops[b].src,
                ) implies a < b && (st1.hops[b].track && !st1.hops[b].reset ==> b == a + 1) by {
                if b < st.hops.len() {
                    assert(step_wf(st.hops[b], st.vars.len()));
                    if a < st.hops.len() {
                        assert(a < b);
                    }
                } else {
                    assert(step_wf(h, st1.vars.len()));
                    if a < st.hops.len() && st1.hops[b].track && !st1.hops[b].reset {
                        if a < st.hops.len() - 1 {
                            assert(st.hops[a].end_vi->0 < st.hops[st.hops.len() - 1].end_vi->0);
                        }
                    }
                }
            }
        },
        None => {},
    }
}

proof fn lemma_walk_hops(
    st: HopsV,
    src: int,
    path: PathV,
    paths: usize,
    pi: usize,
    n: nat,
    allow: Allow,
)
    requires
        state_wf(st),
        at_hop(st, src, pi as int, 0, path.hops.len() as int),
        n <= path.hops.len() <= usize::MAX,
    ensures
        match walk_hops(st, src, path, paths, pi, n, allow) {
            Some((st1, s)) => state_wf(st1) && at_hop(
                st1,
                s,
                pi as int,
                n as int,
                path.hops.len() as int,
            ) && st1.vars.len() >= st.vars.len(),
            None => true,
        },
    decreases n,
{
    if n > 0 {
        lemma_walk_hops(st, src, path, paths, pi, (n - 1) as nat, allow);
        match walk_hops(st, src, path, paths, pi, (n - 1) as nat, allow) {
            Some((mid, s)) => {
                lemma_add_hop(
                    mid,
                    Place { paths, path: pi, hops: path.hops.len() as usize, hop: (n - 1) as usize },
                    s,
                    path.hops[n - 1].0,
                    path.hops[n - 1].1,
                    allow,
                );
            },
            None => {},
        }
    }
}

proof fn lemma_walk_path(
    st: HopsV,
    path: PathV,
    paths: usize,
    pi: usize,
    fresh: bool,
    allow: Allow,
)
    requires
        state_wf(st),
        fresh ==> st.vars.len() == 0,
        pi == 0 ==> st.hops.len() == 0,
        path.hops.len() <= usize::MAX,
    ensures
        walk_path(st, path, paths, pi, fresh, allow) matches Some(st1) ==> state_wf(st1)
            && st1.vars.len() >= st.vars.len(),
{
    match enter_path(st, path, fresh, allow) {
        Some((mid, Some(src))) => {
            match chain::node_name(st, path.start.var) {
                Some((named, x)) => {
                    names::lemma_position(st.vars, x);
                },
                None => {},
            }
            assert(mid.hops == st.hops);
            assert forall|i: int| 0 <= i < mid.hops.len() implies step_wf(
                #[trigger] mid.hops[i],
                mid.vars.len(),
            ) by {
                assert(step_wf(st.hops[i], st.vars.len()));
            }
            lemma_walk_hops(mid, src, path, paths, pi, path.hops.len(), allow);
        },
        Some((mid, None)) => {
            assert(mid.hops == st.hops);
            assert forall|i: int| 0 <= i < mid.hops.len() implies step_wf(
                #[trigger] mid.hops[i],
                mid.vars.len(),
            ) by {
                assert(step_wf(st.hops[i], st.vars.len()));
            }
        },
        None => {},
    }
}

/// Whether the counts of a pattern fit a machine word.
pub open spec fn pattern_fits(p: PatternV) -> bool {
    &&& p.paths.len() <= usize::MAX
    &&& forall|i: int| 0 <= i < p.paths.len() ==> (#[trigger] p.paths[i]).hops.len() <= usize::MAX
}

proof fn lemma_walk_paths(st: HopsV, pattern: PatternV, scan: bool, n: nat, allow: Allow)
    requires
        state_wf(st),
        st.hops.len() == 0,
        scan ==> st.vars.len() == 0,
        pattern_fits(pattern),
        n <= pattern.paths.len(),
    ensures
        walk_paths(st, pattern, scan, n, allow) matches Some(st1) ==> state_wf(st1)
            && st1.vars.len() >= st.vars.len(),
        n == 0 ==> walk_paths(st, pattern, scan, n, allow) == Some(st),
    decreases n,
{
    if n > 0 {
        lemma_walk_paths(st, pattern, scan, (n - 1) as nat, allow);
        match walk_paths(st, pattern, scan, (n - 1) as nat, allow) {
            Some(mid) => {
                lemma_walk_path(
                    mid,
                    pattern.paths[n - 1],
                    pattern.paths.len() as usize,
                    (n - 1) as usize,
                    n == 1 && scan,
                    allow,
                );
            },
            None => {},
        }
    }
}

/// The steps of a pattern use only variables that are bound, each source
/// before its end.
pub proof fn law_steps_are_bound(pattern: PatternV, allow: Allow)
    requires
        pattern_fits(pattern),
    ensures
        chain::scan_hops(pattern, allow) matches Some(h) ==> state_wf(h),
{
    if pattern.paths.len() > 0 {
        lemma_walk_paths(
            chain::before(Seq::empty(), Seq::empty(), Map::empty()),
            pattern,
            true,
            pattern.paths.len(),
            allow,
        );
    }
}

/// The steps of a pattern that starts at bound variables use only variables
/// that are bound.
pub proof fn law_bound_steps_are_bound(
    pattern: PatternV,
    vars: Seq<Seq<char>>,
    kinds: Seq<graph::VarKind>,
    labels: Map<Seq<char>, Seq<Seq<char>>>,
    allow: Allow,
)
    requires
        pattern_fits(pattern),
        kinds.len() == vars.len(),
    ensures
        chain::bound_hops(pattern, vars, kinds, labels, allow) matches Some(h) ==> state_wf(h)
            && h.vars.len() >= vars.len(),
{
    if pattern.paths.len() > 0 {
        lemma_walk_paths(
            chain::before(vars, kinds, labels),
            pattern,
            false,
            pattern.paths.len(),
            allow,
        );
    }
}

pub proof fn lemma_agg_wf(c: ChainV, proj: ProjV, with: Option<(Option<ast::ExprV>, ProjV)>)
    requires
        c.vars.len() <= usize::MAX,
    ensures
        aggregate_plan(c, proj, with) matches Some(p) ==> readset::tail_wf(p) && p.chain == c,
{
    if aggregate_plan(c, proj, with) is Some {
        let p = aggregate_plan(c, proj, with)->0;
        let (agg_items, sites) = plan::plan_items(proj.items);
        plan::lemma_keys_in(proj.items, agg_items, c.vars);
        let f = |s: SiteV| plan::arg_of(s, c.vars);
        assert forall|i: int| 0 <= i < p.site_args.len() implies (readset::arg_var(
            #[trigger] p.site_args[i],
        ) matches Some(v) ==> v < c.vars.len()) by {
            assert(f(sites[i]) is Some);
            if sites[i].args.len() > 0 {
                plan::lemma_single_in(sites[i].args[0], c.vars);
            }
        }
    }
}

/// The groups that a query makes, with their folds.
pub open spec fn aggregate_of(q: Seq<ClauseV>, fold_on: bool) -> Option<AggV> {
    let (pattern, where_, proj, with) = if q.len() == 2 {
        match (q[0], q[1]) {
            (
                ClauseV::Match { optional: false, pattern, where_ },
                ClauseV::Return { proj },
            ) => (Some(pattern), where_, proj, None),
            _ => (None, None, arbitrary(), None),
        }
    } else if q.len() == 3 {
        match (q[0], q[1], q[2]) {
            (
                ClauseV::Match { optional: false, pattern, where_ },
                ClauseV::With { proj, where_: post },
                ClauseV::Return { proj: rp },
            ) => (Some(pattern), where_, proj, Some((post, rp))),
            _ => (None, None, arbitrary(), None),
        }
    } else {
        (None, None, arbitrary(), None)
    };
    match pattern {
        None => None,
        Some(pattern) => match chain_of(pattern, where_) {
            None => None,
            Some(chain) => if varlen_ok(chain.hops, proj) {
                match aggregate_plan(chain, proj, with) {
                    Some(p) => Some(folded_plan(p, fold_on)),
                    None => None,
                }
            } else {
                None
            },
        },
    }
}

fn aggregate_match(
    pattern: &crate::query::Pattern,
    where_: &Option<Expr>,
    proj: &Projection,
    with: Option<(Option<&Expr>, &Projection)>,
    levers: &Levers,
) -> (r: Option<AggPlan>)
    ensures
        agg_opt(r) == match chain_of(pattern.v(), ast::opt_v(*where_)) {
            None => None,
            Some(chain) => if varlen_ok(chain.hops, proj.v()) {
                match aggregate_plan(chain, proj.v(), plan::with_v(with)) {
                    Some(p) => Some(folded_plan(p, levers::count_fold_on(*levers))),
                    None => None,
                }
            } else {
                None
            },
        },
{
    let chain = match recognise_chain(pattern, ast::as_opt(where_)) {
        Some(c) => c,
        None => {
            return None;
        },
    };
    if !varlen_distinct_consumed(&chain.hops, proj) {
        return None;
    }
    proof {
        lemma_pattern_fits(*pattern);
        law_steps_are_bound(pattern.v(), crate::preds::chain_allow());
        assert(chain.vars@.len() == chain.vars.len());
        lemma_agg_wf(chain.v(), proj.v(), plan::with_v(with));
    }
    match aggregate_over_chain(chain, proj, with) {
        Some(p) => {
            let mut p = p;
            plan_count_fold(&mut p, levers);
            Some(p)
        },
        None => None,
    }
}

/// A pattern that is held in memory fits.
pub proof fn lemma_pattern_fits(p: crate::query::Pattern)
    ensures
        pattern_fits(p.v()),
{
    assert(p.paths@.len() == p.paths.len());
    assert forall|i: int| 0 <= i < p.v().paths.len() implies (#[trigger] p.v().paths[i]).hops.len()
        <= usize::MAX by {
        assert(p.v().paths[i] == p.paths@[i].v());
        assert(p.paths@[i].hops@.len() == p.paths@[i].hops.len());
    }
}

/// The groups that a query makes: a match and an aggregating return, or a
/// match, an aggregating projection and a return over its columns.
pub fn recognise_aggregate(q: &SingleQuery, levers: &Levers) -> (r: Option<AggPlan>)
    ensures
        agg_opt(r) == aggregate_of(q.v(), levers::count_fold_on(*levers)),
{
    if q.clauses.len() == 2 {
        assert(q.v()[0] == q.clauses@[0].v());
        assert(q.v()[1] == q.clauses@[1].v());
        match (&q.clauses[0], &q.clauses[1]) {
            (Clause::Match { optional: false, pattern, where_ }, Clause::Return { proj }) => {
                aggregate_match(pattern, where_, proj, None, levers)
            },
            _ => None,
        }
    } else if q.clauses.len() == 3 {
        assert(q.v()[0] == q.clauses@[0].v());
        assert(q.v()[1] == q.clauses@[1].v());
        assert(q.v()[2] == q.clauses@[2].v());
        match (&q.clauses[0], &q.clauses[1], &q.clauses[2]) {
            (
                Clause::Match { optional: false, pattern, where_ },
                Clause::With { proj, where_: post },
                Clause::Return { proj: rp },
            ) => {
                aggregate_match(pattern, where_, proj, Some((ast::as_opt(post), rp)), levers)
            },
            _ => None,
        }
    } else {
        None
    }
}

/// The steps of a planned chain bind ascending variables.
pub proof fn lemma_planned_steps(q: Seq<ClauseV>, on: bool)
    requires
        q.len() > 0,
        q[0] matches ClauseV::Match { pattern, .. } ==> pattern_fits(pattern),
    ensures
        aggregate_of(q, on) matches Some(p) ==> ascending_ends(p.chain.hops) && forall|i: int|
            0 <= i < p.chain.hops.len() ==> ((#[trigger] p.chain.hops[i]).end_vi matches Some(e)
                ==> 0 <= e < p.chain.vars.len()),
{
    match aggregate_of(q, on) {
        Some(p) => {
            let pattern = q[0]->Match_pattern;
            let where_ = q[0]->Match_where_;
            law_steps_are_bound(pattern, crate::preds::chain_allow());
            let c = chain_of(pattern, where_)->0;
            assert(p.chain.vars == c.vars);
            assert(p.chain.hops.len() == c.hops.len());
            assert forall|i: int| 0 <= i < p.chain.hops.len() implies (
            #[trigger] p.chain.hops[i]).end_vi == c.hops[i].end_vi && step_wf(
                c.hops[i],
                c.vars.len(),
            ) by {}
            assert forall|a: int, b: int|
                #![trigger p.chain.hops[a], p.chain.hops[b]]
                0 <= a < b < p.chain.hops.len() && p.chain.hops[a].end_vi is Some
                    && p.chain.hops[b].end_vi is Some implies p.chain.hops[a].end_vi->0
                < p.chain.hops[b].end_vi->0 by {
                assert(c.hops[a].end_vi->0 < c.hops[b].end_vi->0);
            }
        },
        None => {},
    }
}

/// A chain that a count was planned on is one that a fold can run: every
/// folded step binds a later variable than its source, and a step that goes on
/// with a path follows the step that it goes on from.
pub proof fn law_planned_fold_runs(
    q: Seq<ClauseV>,
    on: bool,
    p: AggV,
    g: Graph,
    hops: Seq<Hop>,
    tokens: Seq<Option<Vec<u32>>>,
)
    requires
        aggregate_of(q, on) == Some(p),
        q.len() > 0,
        q[0] matches ClauseV::Match { pattern, .. } && pattern_fits(pattern),
        p.chain.vars.len() <= usize::MAX,
        hop::steps_v(hops) == p.chain.hops,
        g.wf(),
        tokens.len() == hops.len(),
        forall|i: int|
            0 <= i < hops.len() ==> graph::tokens_view(#[trigger] tokens[i]) == g.type_tokens(
                names::of(hops[i].types@),
            ),
    ensures
        fold::chain_ok(g, hops, tokens),
{
    let pattern = q[0]->Match_pattern;
    let where_ = q[0]->Match_where_;
    law_steps_are_bound(pattern, crate::preds::chain_allow());
    let c = chain_of(pattern, where_)->0;
    let with = if q.len() == 3 {
        Some((q[1]->With_where_, q[2]->Return_proj))
    } else {
        None
    };
    let proj = if q.len() == 3 {
        q[1]->With_proj
    } else {
        q[1]->Return_proj
    };
    let p0 = aggregate_plan(c, proj, with)->0;
    assert(p == folded_plan(p0, on));
    lemma_agg_wf(c, proj, with);
    let f = fold_plan::fold_marks(p0, on);
    assert(p0.chain == c);
    assert(hop::steps_v(hops).len() == hops.len());
    assert(p.chain.hops.len() == c.hops.len());
    assert forall|i: int| 0 <= i < hops.len() implies {
        let h = #[trigger] hops[i];
        &&& graph::tokens_view(tokens[i]) == g.type_tokens(names::of(h.types@))
        &&& h.src < usize::MAX
        &&& h.tgt matches Some(t) ==> t < usize::MAX && h.end_vi is None
        &&& h.end_vi matches Some(e) ==> e < usize::MAX
        &&& h.fold && h.tgt is None ==> (h.end_vi matches Some(e) && h.src < e)
        &&& forall|k: int|
            0 <= k < h.inline@.len() ==> fold::inline_var(#[trigger] h.inline@[k]) < usize::MAX
    } by {
        let h = hops[i];
        assert(p.chain.hops[i] == h.v());
        assert(step_wf(c.hops[i], c.vars.len()));
        assert(graph::tokens_view(tokens[i]) == g.type_tokens(names::of(hops[i].types@)));
        assert forall|k: int| 0 <= k < h.inline@.len() implies fold::inline_var(
            #[trigger] h.inline@[k],
        ) < usize::MAX by {
            assert(h.v().inline[k] == h.inline@[k].v());
            if f is Some {
                lemma_inlines_in(c, c.wheres, f->0, i);
                assert(c.hops[i].inline.len() == 0);
                assert(h.v().inline =~= fold_plan::inlines_at(c, c.wheres, f->0, i));
            }
        }
    }
    assert forall|a: int, b: int|
        #![trigger hops[a], hops[b]]
        0 <= a < hops.len() && 0 <= b < hops.len() && hops[a].fold && hops[a].tgt is None
            && hops[a].end_vi == Some(hops[b].src) implies a < b && (hops[b].track && !hops[b].reset
        ==> fold::path_of(hops, a) == fold::path_of(hops, b)) by {
        assert(p.chain.hops[a] == hops[a].v());
        assert(p.chain.hops[b] == hops[b].v());
        assert(c.hops[a].end_vi == Some(c.hops[b].src));
    }
}

/// The variable that an inline test reads.
pub open spec fn inline_vi(p: hop::InlineV) -> int {
    match p {
        hop::InlineV::Ne(o) => o,
        hop::InlineV::Eq(o) => o,
        hop::InlineV::Edge { vi, .. } => vi,
    }
}

pub proof fn lemma_inlines_in(c: ChainV, wheres: Seq<WhereV>, f: Seq<bool>, hi: int)
    ensures
        forall|k: int|
            0 <= k < fold_plan::inlines_at(c, wheres, f, hi).len() ==> 0 <= inline_vi(
                #[trigger] fold_plan::inlines_at(c, wheres, f, hi)[k],
            ) < c.vars.len(),
    decreases wheres.len(),
{
    let keep = |w: WhereV| fold_plan::where_folds(c, w, f) && fold_plan::where_at(c, w, f) == hi;
    let make = |w: WhereV| fold_plan::inline_of(c, w, f);
    if wheres.len() == 0 {
        seqs::lemma_keep_map_empty(wheres, keep, make);
        assert(wheres.take(0) =~= wheres);
    } else {
        let n = wheres.len() - 1;
        lemma_inlines_in(c, wheres.drop_last(), f, hi);
        seqs::lemma_keep_map_take(wheres, n, keep, make);
        assert(wheres.take(n) =~= wheres.drop_last());
        assert(wheres.take(n + 1) =~= wheres);
        if keep(wheres[n]) {
            fold_plan::lemma_pair_in(wheres[n], c.vars);
        }
        let old_at = fold_plan::inlines_at(c, wheres.drop_last(), f, hi);
        assert forall|k: int|
            0 <= k < fold_plan::inlines_at(c, wheres, f, hi).len() implies 0 <= inline_vi(
            #[trigger] fold_plan::inlines_at(c, wheres, f, hi)[k],
        ) < c.vars.len() by {
            if k < old_at.len() {
                assert(0 <= inline_vi(old_at[k]) < c.vars.len());
            }
        }
    }
}

} // verus!
