//! A planned query can be read back: its stages are the clauses of the query, and lose
//! nothing of what they say.

use vstd::prelude::*;

use crate::aggregate;
use crate::ast;
use crate::ast::{ExprV, HeadV, Op};
use crate::carry;
use crate::carry::{breaker_tail, carry_of, carries, fixes, return_tail, scan_of, AnchorV, ScanV, StageTailV};
use crate::chain::{Allow, HopsV};
use crate::distinct;
use crate::fold_plan;
use crate::fuse;
use crate::graph::VarKind;
use crate::meaning;
use crate::meaning::{bound, looks_only, projected, value_of, EvalV};
use crate::multistage;
use crate::multistage::{as_match, as_return, as_with, multistage_of, stem_of, MultiV};
use crate::names;
use crate::plan;
use crate::plan::{aggregate_plan, AggV};
use crate::plan_law;
use crate::plan_law::{agg_back, distinct_back, unlifted};
use crate::preds;
use crate::preds::ChainV;
use crate::query;
use crate::query::{ClauseV, ItemV, NodeV, PatternV, ProjV, RelV};
use crate::read_back_law;
use crate::read_back_law::{conds_back, fits, hops_of, joined, plain_paths, start_props, steps_back, whole};
use crate::seqs;
use crate::stages::{pipe_stages, pipeline_of, PipeStageV, PipeState, PipelineV};

verus! {

/// The hops of a pattern, path by path.
pub open spec fn all_hops(p: PatternV) -> Seq<(NodeV, (RelV, NodeV))> {
    hops_of(p.paths, p.paths.len())
}

/// Whether a condition says that a property of a variable is one of some values.
pub open spec fn says_one_of(c: ExprV, x: Seq<char>, a: AnchorV) -> bool {
    &&& c.args.len() == 2
    &&& c.args[0].head == HeadV::Prop(a.prop)
    &&& c.args[0].args.len() == 1
    &&& c.args[0].args[0].head == HeadV::Var(x)
    &&& {
        ||| c.head == HeadV::Op(Op::Eq) && a.values == seq![c.args[1]]
        ||| c.head == HeadV::Op(Op::In) && c.args[1].head == HeadV::Op(Op::List) && a.values
            == c.args[1].args
    }
}

/// Whether a first stage is a pattern and its condition.
pub open spec fn scan_back(s: ScanV, p: PatternV, w: Option<ExprV>) -> bool {
    &&& p.paths.len() > 0
    &&& plain_paths(p)
    &&& steps_back(s.hops, s.vars, s.kinds, all_hops(p))
    &&& s.a_labels == p.paths[0].start.labels
    &&& p.paths[0].start.var matches Some(x) ==> s.a_var == x
    &&& s.vars.len() > 0 && s.vars[0] == s.a_var && s.vars.len() == s.kinds.len()
    &&& conds_back(s.wheres, s.vars, s.hops, all_hops(p), start_props(p, s.a_var), joined(w))
    &&& s.anchor matches Some(a) ==> exists|i: int|
        0 <= i < s.wheres.len() && says_one_of((#[trigger] s.wheres[i]).expr, s.a_var, a)
}

/// A first stage is planned as its pattern and its condition say. Where it may be looked
/// up, a condition says so.
pub proof fn law_scan_reads_back(p: PatternV, w: Option<ExprV>, allow: Allow, s: ScanV)
    requires
        scan_of(p, w, allow) == Some(s),
        fits(p),
    ensures
        scan_back(s, p, w),
{
    let h = crate::chain::scan_hops(p, allow)->0;
    read_back_law::law_scanned_steps_read_back(p, allow, h);
    read_back_law::law_scanned_conditions_read_back(p, allow, w, h, s.wheres);
    if let Some(a) = s.anchor {
        let full = preds::full_where(h, w);
        let cs = ast::conjuncts(full->0);
        let f = |c: ExprV| fixes(c, h.a_var);
        lemma_found(cs, f);
        let i = choose|i: int| 0 <= i < cs.len() && f(#[trigger] cs[i]) == Some(a);
        let plan = |c: ExprV| preds::where_pred(c, h.vars);
        assert(plan(cs[i]) is Some);
        assert(s.wheres[i].expr == cs[i]);
        if cs[i].head == HeadV::Op(Op::Eq) {
            assert(a.values =~= seq![cs[i].args[1]]);
        }
        assert(says_one_of(s.wheres[i].expr, s.a_var, a));
    }
}

proof fn lemma_found<A, B>(s: Seq<A>, f: spec_fn(A) -> Option<B>)
    requires
        seqs::find_map(s, f) is Some,
    ensures
        exists|i: int| 0 <= i < s.len() && f(#[trigger] s[i]) == seqs::find_map(s, f),
    decreases s.len(),
{
    let p = s.drop_last();
    if seqs::find_map(p, f) is Some {
        lemma_found(p, f);
        let i = choose|i: int| 0 <= i < p.len() && f(#[trigger] p[i]) == seqs::find_map(p, f);
        assert(s[i] == p[i]);
    } else {
        assert(f(s[s.len() - 1]) == seqs::find_map(s, f));
    }
}

/// Whether what is handed on is what a projection names: variables, each under its own
/// name, in its order, and nothing else.
pub open spec fn carry_back(
    carried: Seq<usize>,
    repeats: bool,
    vars: Seq<Seq<char>>,
    kinds: Seq<VarKind>,
    to: Seq<Seq<char>>,
    to_kinds: Seq<VarKind>,
    proj: ProjV,
) -> bool {
    &&& !proj.star && proj.order.len() == 0 && proj.skip is None && proj.limit is None
    &&& repeats == !proj.distinct
    &&& carried.len() == proj.items.len()
    &&& to.len() == carried.len() && to_kinds.len() == carried.len()
    &&& forall|i: int|
        0 <= i < carried.len() ==> {
            let c = #[trigger] carried[i];
            let it = proj.items[i];
            &&& c < vars.len()
            &&& it.expr.head == HeadV::Var(vars[c as int])
            &&& it.alias is None || it.alias == Some(vars[c as int])
            &&& to[i] == vars[c as int]
            &&& to_kinds[i] == kinds[c as int]
        }
}

/// What is handed on is what a projection names.
pub proof fn law_carry_reads_back(
    proj: ProjV,
    vars: Seq<Seq<char>>,
    kinds: Seq<VarKind>,
    labels: Map<Seq<char>, Seq<Seq<char>>>,
    c: carry::CarryV,
)
    requires
        carry_of(proj, vars, kinds, labels) == Some(c),
        vars.len() <= usize::MAX,
    ensures
        carry_back(c.carried, !c.distinct, vars, kinds, c.vars, c.kinds, proj),
{
    let f = |it: ItemV| carries(it, vars);
    let xs = seqs::try_map(proj.items, f)->0;
    assert(xs == proj.items.map_values(|it: ItemV| f(it)->0));
    assert forall|i: int| 0 <= i < c.carried.len() implies {
        let k = #[trigger] c.carried[i];
        let it = proj.items[i];
        &&& k < vars.len()
        &&& it.expr.head == HeadV::Var(vars[k as int])
        &&& it.alias is None || it.alias == Some(vars[k as int])
        &&& c.vars[i] == vars[k as int]
        &&& c.kinds[i] == kinds[k as int]
    } by {
        assert(f(proj.items[i]) is Some);
        names::lemma_position(vars, xs[i]);
    }
}

/// Whether the rows of a last stage are turned into what a projection says, or what a
/// grouping or distinct one and the return after it do.
pub open spec fn tail_back(
    t: StageTailV,
    chain: ChainV,
    breaker: Option<(ProjV, Option<ExprV>)>,
    rp: ProjV,
) -> bool {
    match (t, breaker) {
        (StageTailV::Core(c), None) => c.chain == chain && c.proj == rp && !rp.distinct && !rp.star
            && !query::any_aggregate(rp.items),
        (StageTailV::Agg(p), None) => agg_back(p, chain, rp, None),
        (StageTailV::Distinct(p), None) => distinct_back(p, chain, rp, None),
        (StageTailV::Agg(p), Some((proj, having))) => if proj.distinct {
            distinct_back(p, chain, proj, Some((having, rp)))
        } else {
            agg_back(p, chain, proj, Some((having, rp)))
        },
        _ => false,
    }
}

/// Whether no expression of a projection holds the number of a lifted aggregate.
pub open spec fn raw(p: ProjV) -> bool {
    forall|i: int| 0 <= i < p.items.len() ==> unlifted((#[trigger] p.items[i]).expr)
}

/// How many aggregates groups have fits.
pub open spec fn sites_fit(t: StageTailV) -> bool {
    match t {
        StageTailV::Agg(p) => p.sites.len() <= usize::MAX,
        _ => true,
    }
}

/// What the rows of a last stage are turned into is what the last clauses say.
pub proof fn law_tail_reads_back(
    t: StageTailV,
    chain: ChainV,
    breaker: Option<(ProjV, Option<ExprV>)>,
    rp: ProjV,
)
    requires
        match breaker {
            Some((proj, having)) => breaker_tail(chain, proj, having, rp),
            None => return_tail(chain, rp),
        } == Some(t),
        chain.vars.len() <= usize::MAX,
        raw(rp),
        breaker matches Some((proj, _)) ==> raw(proj),
        sites_fit(t),
    ensures
        tail_back(t, chain, breaker, rp),
{
    match breaker {
        None => {
            if query::any_aggregate(rp.items) {
                plan_law::law_aggregate_plan_is_projection(chain, rp, None, t->Agg_0);
            } else if rp.distinct {
                plan_law::law_distinct_plan_is_projection(chain, rp, t->Distinct_0);
            }
        },
        Some((proj, having)) => {
            if proj.distinct {
                plan_law::law_distinct_with_plan_is_projection(chain, proj, having, rp, t->Agg_0);
            } else {
                plan_law::law_aggregate_plan_is_projection(
                    chain,
                    proj,
                    Some((having, rp)),
                    t->Agg_0,
                );
            }
        },
    }
}

/// Whether two clauses hand on the distinct values of a variable: they collect them into
/// a list, and unwind it straight back under the name of the variable.
pub open spec fn collects_distinct(a: ClauseV, b: ClauseV, x: Seq<char>) -> bool {
    a matches ClauseV::With { proj, where_: None } && b matches ClauseV::Unwind { expr, alias } && {
        &&& !proj.distinct && !proj.star && proj.order.len() == 0 && proj.skip is None
            && proj.limit is None && proj.items.len() == 1
        &&& proj.items[0].expr.head matches HeadV::Call(f) && f.name == "collect"@ && f.distinct
            && !f.star
        &&& proj.items[0].expr.args.len() == 1 && proj.items[0].expr.args[0].head == HeadV::Var(x)
        &&& proj.items[0].alias matches Some(list) && expr.head == HeadV::Var(list)
        &&& alias == x
    }
}

/// Whether a projection only drops the repeats of a variable.
pub open spec fn drops_repeats(p: ProjV, x: Seq<char>) -> bool {
    &&& p.distinct && !p.star && p.order.len() == 0 && p.skip is None && p.limit is None
    &&& p.items.len() == 1 && p.items[0].expr.head == HeadV::Var(x) && p.items[0].alias is None
}

/// Whether clauses hand on what a projection says: it is one of them, or they collect
/// and unwind what it keeps the distinct values of.
pub open spec fn hands_over(q: Seq<ClauseV>, carry: ProjV, at: int) -> bool {
    ||| at == 2 && q[1] == (ClauseV::With { proj: carry, where_: None })
    ||| at == 3 && exists|x: Seq<char>| #[trigger]
        collects_distinct(q[1], q[2], x) && drops_repeats(carry, x)
}

/// The chain of the rows of a stage.
pub open spec fn over(c: ChainV, hops: Seq<crate::hop::StepHop>) -> bool {
    c.hops == hops && c.wheres.len() == 0
}

/// A query of two stages is planned as its clauses say: the first stage is the first
/// match, what is handed on is what the projection after it names, the second stage goes
/// on from there as the second match says, and the rows of both are turned into what the
/// last clauses say.
pub open spec fn multistage_back(q: Seq<ClauseV>, p: MultiV) -> bool {
    exists|at: int, carry: ProjV, chain: ChainV|
        2 <= at <= 3 && at + 1 < q.len() && #[trigger] hands_over(q, carry, at) && {
            &&& q[0] matches ClauseV::Match { optional: false, pattern, where_ } && scan_back(
                p.s1,
                pattern,
                where_,
            )
            &&& carry_back(
                p.carried,
                !p.distinct,
                p.s1.vars,
                p.s1.kinds,
                chain.vars.take(p.carried.len() as int),
                chain.kinds.take(p.carried.len() as int),
                carry,
            )
            &&& q[at] matches ClauseV::Match { optional: false, pattern, where_ } && steps_back(
                p.s2_hops,
                chain.vars,
                chain.kinds,
                all_hops(pattern),
            ) && conds_back(
                p.s2_wheres,
                chain.vars,
                p.s2_hops,
                all_hops(pattern),
                None,
                whole(where_),
            )
            &&& #[trigger] over(chain, p.s2_hops)
            &&& {
                ||| q.len() == at + 2 && (q[at + 1] matches ClauseV::Return { proj } && tail_back(
                    p.tail,
                    chain,
                    None,
                    proj,
                ))
                ||| q.len() == at + 3 && (q[at + 1] matches ClauseV::With { proj, where_ } && q[at
                    + 2] matches ClauseV::Return { proj: rp } && tail_back(
                    p.tail,
                    chain,
                    Some((proj, where_)),
                    rp,
                ))
            }
        }
}

/// Whether what is bound starts with what was bound.
spec fn grows(st: HopsV, end: HopsV) -> bool {
    &&& st.vars.len() <= end.vars.len()
    &&& st.kinds.len() <= end.kinds.len()
    &&& forall|i: int| 0 <= i < st.vars.len() ==> end.vars[i] == #[trigger] st.vars[i]
    &&& forall|i: int| 0 <= i < st.kinds.len() ==> end.kinds[i] == #[trigger] st.kinds[i]
}

proof fn lemma_grows_hops(
    st: HopsV,
    src: int,
    path: query::PathV,
    paths: usize,
    pi: usize,
    n: nat,
    allow: Allow,
)
    requires
        crate::chain::walk_hops(st, src, path, paths, pi, n, allow) is Some,
    ensures
        ({
            let (end, _) = crate::chain::walk_hops(st, src, path, paths, pi, n, allow)->0;
            grows(st, end)
        }),
    decreases n,
{
    if n > 0 {
        lemma_grows_hops(st, src, path, paths, pi, (n - 1) as nat, allow);
        let (mid, s) = crate::chain::walk_hops(st, src, path, paths, pi, (n - 1) as nat, allow)->0;
        let (end, _) = crate::chain::walk_hops(st, src, path, paths, pi, n, allow)->0;
        assert(grows(mid, end));
        assert forall|i: int| 0 <= i < st.vars.len() implies end.vars[i] == #[trigger] st.vars[i] by {
            assert(mid.vars[i] == st.vars[i]);
            assert(end.vars[i] == mid.vars[i]);
        }
        assert forall|i: int| 0 <= i < st.kinds.len() implies end.kinds[i] == #[trigger] st.kinds[i] by {
            assert(mid.kinds[i] == st.kinds[i]);
            assert(end.kinds[i] == mid.kinds[i]);
        }
    }
}

proof fn lemma_grows_paths(b: HopsV, pattern: PatternV, n: nat, allow: Allow)
    requires
        crate::chain::walk_paths(b, pattern, false, n, allow) is Some,
    ensures
        grows(b, crate::chain::walk_paths(b, pattern, false, n, allow)->0),
    decreases n,
{
    if n > 0 {
        let m = (n - 1) as nat;
        lemma_grows_paths(b, pattern, m, allow);
        let mid = crate::chain::walk_paths(b, pattern, false, m, allow)->0;
        let p = pattern.paths[n - 1];
        let end = crate::chain::walk_paths(b, pattern, false, n, allow)->0;
        let (st, src) = crate::chain::enter_path(mid, p, false, allow)->0;
        if let Some(i) = src {
            lemma_grows_hops(
                st,
                i,
                p,
                pattern.paths.len() as usize,
                m as usize,
                p.hops.len(),
                allow,
            );
        }
        assert(grows(mid, end));
        assert forall|i: int| 0 <= i < b.vars.len() implies end.vars[i] == #[trigger] b.vars[i] by {
            assert(mid.vars[i] == b.vars[i]);
            assert(end.vars[i] == mid.vars[i]);
        }
        assert forall|i: int| 0 <= i < b.kinds.len() implies end.kinds[i] == #[trigger] b.kinds[i] by {
            assert(mid.kinds[i] == b.kinds[i]);
            assert(end.kinds[i] == mid.kinds[i]);
        }
    }
}

/// What a later stage binds starts with what is handed to it, in its order.
pub proof fn lemma_bound_starts(
    p: PatternV,
    vars: Seq<Seq<char>>,
    kinds: Seq<VarKind>,
    labels: Map<Seq<char>, Seq<Seq<char>>>,
    allow: Allow,
    h: HopsV,
)
    requires
        crate::chain::bound_hops(p, vars, kinds, labels, allow) == Some(h),
    ensures
        vars.len() <= h.vars.len(),
        kinds.len() <= h.kinds.len(),
        h.vars.take(vars.len() as int) == vars,
        h.kinds.take(kinds.len() as int) == kinds,
{
    let b = crate::chain::before(vars, kinds, labels);
    lemma_grows_paths(b, p, p.paths.len(), allow);
    assert(h.vars.take(vars.len() as int) =~= vars) by {
        assert forall|i: int| 0 <= i < vars.len() implies h.vars[i] == vars[i] by {
            assert(b.vars[i] == vars[i]);
        }
    }
    assert(h.kinds.take(kinds.len() as int) =~= kinds) by {
        assert forall|i: int| 0 <= i < kinds.len() implies h.kinds[i] == kinds[i] by {
            assert(b.kinds[i] == kinds[i]);
        }
    }
}

/// Whether the clauses of a query fit and hold nothing that planning makes.
pub open spec fn plain_query(q: Seq<ClauseV>) -> bool {
    forall|i: int|
        0 <= i < q.len() ==> match #[trigger] q[i] {
            ClauseV::Match { pattern, .. } => fits(pattern),
            ClauseV::With { proj, .. } => raw(proj),
            ClauseV::Return { proj } => raw(proj),
            _ => true,
        }
}

/// A query of two stages is planned as its clauses say.
pub proof fn law_multistage_reads_back(q: Seq<ClauseV>, p: MultiV)
    requires
        multistage_of(q) == Some(p),
        plain_query(q),
        p.s1.vars.len() <= usize::MAX,
        sites_fit(p.tail),
        match p.tail {
            StageTailV::Core(c) => c.chain.vars.len(),
            StageTailV::Agg(a) => a.chain.vars.len(),
            StageTailV::Distinct(a) => a.chain.vars.len(),
        } <= usize::MAX,
    ensures
        multistage_back(q, p),
{
    let s = stem_of(q)->0;
    let (carry, n) = multistage::handed(q)->0;
    let at = 1 + n as int;
    assert(q[0] is Match && q[at] is Match);
    law_scan_reads_back(s.p1, s.w1, multistage::first_allow(), p.s1);
    let c = carry_of(s.carry, p.s1.vars, p.s1.kinds, p.s1.labels)->0;
    law_carry_reads_back(s.carry, p.s1.vars, p.s1.kinds, p.s1.labels, c);
    let h = crate::chain::bound_hops(s.p2, c.vars, c.kinds, c.labels, multistage::later_allow())->0;
    read_back_law::law_bound_steps_read_back(
        s.p2,
        c.vars,
        c.kinds,
        c.labels,
        multistage::later_allow(),
        h,
    );
    read_back_law::law_one_condition_reads_back(s.p2, s.w2, h, p.s2_wheres);
    lemma_bound_starts(s.p2, c.vars, c.kinds, c.labels, multistage::later_allow(), h);
    let chain = multistage::stage_chain(h);
    assert(raw(s.rp));
    assert(s.breaker matches Some((proj, _)) ==> raw(proj));
    lemma_tail_chain(p.tail, chain, s.breaker, s.rp);
    law_tail_reads_back(p.tail, chain, s.breaker, s.rp);
    assert(hands_over(q, s.carry, at)) by {
        if n == 2 {
            let (proj, _) = as_with(q[1])->0;
            let x = multistage::collected_var(proj, q[2]->Unwind_expr, q[2]->Unwind_alias)->0;
            assert(collects_distinct(q[1], q[2], x));
            assert(drops_repeats(s.carry, x));
        }
    }
    assert(over(chain, p.s2_hops));
}

/// The chain of a tail is the one that it is planned over.
proof fn lemma_tail_chain(
    t: StageTailV,
    chain: ChainV,
    breaker: Option<(ProjV, Option<ExprV>)>,
    rp: ProjV,
)
    requires
        match breaker {
            Some((proj, having)) => breaker_tail(chain, proj, having, rp),
            None => return_tail(chain, rp),
        } == Some(t),
    ensures
        match t {
            StageTailV::Core(c) => c.chain,
            StageTailV::Agg(a) => a.chain,
            StageTailV::Distinct(a) => a.chain,
        } == chain,
{
}

/// Whether a pattern asks for no property.
pub open spec fn asks_nothing(p: PatternV) -> bool {
    forall|j: int|
        0 <= j < p.paths.len() ==> (#[trigger] p.paths[j]).start.props is None && ends_ask_nothing(
            p.paths[j],
            p.paths[j].hops.len(),
        )
}

/// Whether the ends of the first hops of a path ask for no property.
pub open spec fn ends_ask_nothing(p: query::PathV, n: nat) -> bool {
    forall|i: int| 0 <= i < n ==> (#[trigger] p.hops[i]).1.props is None
}

proof fn lemma_ends_ask_nothing(
    st: HopsV,
    src: int,
    path: query::PathV,
    paths: usize,
    pi: usize,
    n: nat,
    allow: Allow,
)
    requires
        !allow.node,
        crate::chain::walk_hops(st, src, path, paths, pi, n, allow) is Some,
    ensures
        ends_ask_nothing(path, n),
    decreases n,
{
    if n > 0 {
        lemma_ends_ask_nothing(st, src, path, paths, pi, (n - 1) as nat, allow);
        assert(path.hops[n - 1].1.props is None);
    }
}

pub proof fn lemma_asks_nothing(b: HopsV, p: PatternV, scan: bool, n: nat, allow: Allow)
    requires
        !allow.node,
        !allow.start,
        n <= p.paths.len(),
        crate::chain::walk_paths(b, p, scan, n, allow) is Some,
    ensures
        forall|j: int|
            0 <= j < n ==> (#[trigger] p.paths[j]).start.props is None && ends_ask_nothing(
                p.paths[j],
                p.paths[j].hops.len(),
            ),
    decreases n,
{
    if n > 0 {
        let m = (n - 1) as nat;
        lemma_asks_nothing(b, p, scan, m, allow);
        let mid = crate::chain::walk_paths(b, p, scan, m, allow)->0;
        let path = p.paths[n - 1];
        let (st, src) = crate::chain::enter_path(mid, path, n == 1 && scan, allow)->0;
        if let Some(i) = src {
            lemma_ends_ask_nothing(
                st,
                i,
                path,
                p.paths.len() as usize,
                m as usize,
                path.hops.len(),
                allow,
            );
        }
    }
}

/// Whether one planned condition is the one that is written.
pub open spec fn one_back(p: Option<preds::WhereV>, w: Option<ExprV>, vars: Seq<Seq<char>>) -> bool {
    match (p, w) {
        (None, None) => true,
        (Some(p), Some(w)) => p.expr == w && preds::where_pred(w, vars) == Some(p),
        _ => false,
    }
}

/// A query of one match and a return is planned as it says.
pub proof fn law_core_reads_back(q: Seq<ClauseV>, c: plan::CoreV)
    requires
        plan::core_of(q) == Some(c),
    ensures
        q.len() == 2,
        q[0] matches ClauseV::Match { optional: false, pattern, where_ } && preds::chain_of(
            pattern,
            where_,
        ) == Some(c.chain),
        q[1] == (ClauseV::Return { proj: c.proj }),
        !c.proj.distinct && !c.proj.star && !query::any_aggregate(c.proj.items),
{
}

/// A query of one match and groups is planned as it says, before steps are counted.
pub proof fn law_aggregate_reads_back(q: Seq<ClauseV>, on: bool, p: AggV)
    requires
        aggregate::aggregate_of(q, on) == Some(p),
        plain_query(q),
        p.sites.len() <= usize::MAX,
        p.chain.vars.len() <= usize::MAX,
    ensures
        exists|u: AggV|
            #![trigger fold_plan::folded_plan(u, on)]
            p == fold_plan::folded_plan(u, on) && (q[0] matches ClauseV::Match {
                optional: false,
                pattern,
                where_,
            } && preds::chain_of(pattern, where_) == Some(u.chain)) && {
                ||| q.len() == 2 && (q[1] matches ClauseV::Return { proj } && agg_back(
                    u,
                    u.chain,
                    proj,
                    None,
                ))
                ||| q.len() == 3 && (q[1] matches ClauseV::With { proj, where_ }
                    && q[2] matches ClauseV::Return { proj: rp } && agg_back(
                    u,
                    u.chain,
                    proj,
                    Some((where_, rp)),
                ))
            },
{
    let (pattern, where_) = as_match(q[0])->0;
    let chain = preds::chain_of(pattern, where_)->0;
    let (proj, with) = if q.len() == 2 {
        (q[1]->Return_proj, None)
    } else {
        (q[1]->With_proj, Some((q[1]->With_where_, q[2]->Return_proj)))
    };
    let u = aggregate_plan(chain, proj, with)->0;
    assert(p == fold_plan::folded_plan(u, on));
    assert(u.sites == p.sites && u.chain.vars == p.chain.vars);
    assert(raw(proj)) by {
        assert(q[1] is Return || q[1] is With);
    }
    plan_law::law_aggregate_plan_is_projection(chain, proj, with, u);
}

/// A query of one match and distinct rows is planned as it says.
pub proof fn law_distinct_reads_back(q: Seq<ClauseV>, p: AggV)
    requires
        distinct::distinct_of(q) == Some(p),
        p.chain.vars.len() <= usize::MAX,
    ensures
        q[0] matches ClauseV::Match { optional: false, pattern, where_ } && preds::chain_of(
            pattern,
            where_,
        ) == Some(p.chain),
        ({
            ||| q.len() == 2 && (q[1] matches ClauseV::Return { proj } && distinct_back(
                p,
                p.chain,
                proj,
                None,
            ))
            ||| q.len() == 3 && (q[1] matches ClauseV::With { proj, where_ }
                && q[2] matches ClauseV::Return { proj: rp } && distinct_back(
                p,
                p.chain,
                proj,
                Some((where_, rp)),
            ))
        }),
{
    if q.len() == 2 {
        plan_law::law_distinct_plan_is_projection(p.chain, q[1]->Return_proj, p);
    } else {
        plan_law::law_distinct_with_plan_is_projection(
            p.chain,
            q[1]->With_proj,
            q[1]->With_where_,
            q[2]->Return_proj,
            p,
        );
    }
}

/// Whether a stage goes on from what is bound as a projection and a match say.
pub open spec fn stage_back(
    s: PipeStageV,
    vars: Seq<Seq<char>>,
    kinds: Seq<VarKind>,
    to: Seq<Seq<char>>,
    to_kinds: Seq<VarKind>,
    proj: ProjV,
    p: PatternV,
    w: Option<ExprV>,
) -> bool {
    &&& carry_back(
        s.carried,
        !s.distinct,
        vars,
        kinds,
        to.take(s.carried.len() as int),
        to_kinds.take(s.carried.len() as int),
        proj,
    )
    &&& steps_back(s.hops, to, to_kinds, all_hops(p))
    &&& plain_paths(p)
    &&& conds_back(s.wheres, to, s.hops, all_hops(p), None, joined(w))
}

/// Whether a stage goes on from what is bound as two clauses say.
pub open spec fn stage_from(
    a: ClauseV,
    b: ClauseV,
    s: PipeStageV,
    vars: Seq<Seq<char>>,
    kinds: Seq<VarKind>,
    to: Seq<Seq<char>>,
    to_kinds: Seq<VarKind>,
) -> bool {
    match (a, b) {
        (
            ClauseV::With { proj, where_: None },
            ClauseV::Match { optional: false, pattern, where_ },
        ) => stage_back(s, vars, kinds, to, to_kinds, proj, pattern, where_),
        _ => false,
    }
}

/// Whether each of the first stages goes on from what the one before it binds.
pub open spec fn stages_back(
    q: Seq<ClauseV>,
    ss: Seq<PipeStageV>,
    vars: Seq<Seq<Seq<char>>>,
    kinds: Seq<Seq<VarKind>>,
    n: int,
) -> bool {
    &&& vars.len() == n + 1 && kinds.len() == n + 1 && ss.len() == n
    &&& forall|k: int|
        0 <= k < n ==> stage_from(
            q[2 * k + 1],
            q[2 * k + 2],
            #[trigger] ss[k],
            vars[k],
            kinds[k],
            vars[k + 1],
            kinds[k + 1],
        )
}

/// One later stage.
proof fn lemma_stage(st: PipeState, proj: ProjV, p: PatternV, w: Option<ExprV>)
    requires
        crate::stages::pipe_step(st, proj, p, w) is Some,
        st.vars.len() == st.kinds.len(),
        st.vars.len() <= usize::MAX,
        fits(p),
    ensures
        ({
            let end = crate::stages::pipe_step(st, proj, p, w)->0;
            &&& end.vars.len() == end.kinds.len()
            &&& end.stages.len() == st.stages.len() + 1
            &&& end.stages.drop_last() == st.stages
            &&& stage_back(
                end.stages.last(),
                st.vars,
                st.kinds,
                end.vars,
                end.kinds,
                proj,
                p,
                w,
            )
        }),
{
    let end = crate::stages::pipe_step(st, proj, p, w)->0;
    let c = carry_of(proj, st.vars, st.kinds, st.labels)->0;
    law_carry_reads_back(proj, st.vars, st.kinds, st.labels, c);
    let allow = multistage::later_allow();
    let h = crate::chain::bound_hops(p, c.vars, c.kinds, c.labels, allow)->0;
    read_back_law::law_bound_steps_read_back(p, c.vars, c.kinds, c.labels, allow, h);
    read_back_law::law_bound_conditions_read_back(p, w, h, end.stages.last().wheres);
    lemma_bound_starts(p, c.vars, c.kinds, c.labels, allow, h);
    assert(end.stages.drop_last() =~= st.stages);
}

/// What is bound after each of the first stages.
spec fn bound_at(q: Seq<ClauseV>, st: PipeState, n: nat) -> (Seq<Seq<Seq<char>>>, Seq<Seq<VarKind>>)
    decreases n,
{
    if n == 0 {
        (seq![st.vars], seq![st.kinds])
    } else {
        let (vs, ks) = bound_at(q, st, (n - 1) as nat);
        let end = pipe_stages(q, st, n)->0;
        (vs.push(end.vars), ks.push(end.kinds))
    }
}

proof fn lemma_stages(q: Seq<ClauseV>, st: PipeState, n: nat, m: nat)
    requires
        n <= m,
        pipe_stages(q, st, n) is Some,
        st.stages.len() == 0,
        st.vars.len() == st.kinds.len(),
        2 * n < q.len(),
        plain_query(q),
        forall|k: nat|
            k <= m && pipe_stages(q, st, k) is Some ==> (#[trigger] pipe_stages(
                q,
                st,
                k,
            ))->0.vars.len() <= usize::MAX,
    ensures
        ({
            let end = pipe_stages(q, st, n)->0;
            let (vs, ks) = bound_at(q, st, n);
            &&& stages_back(q, end.stages, vs, ks, n as int)
            &&& vs.last() == end.vars && ks.last() == end.kinds
            &&& end.vars.len() == end.kinds.len()
            &&& vs[0] == st.vars && ks[0] == st.kinds
        }),
    decreases n,
{
    if n > 0 {
        let k = (n - 1) as nat;
        lemma_stages(q, st, k, m);
        let mid = pipe_stages(q, st, k)->0;
        let end = pipe_stages(q, st, n)->0;
        let (proj, _) = as_with(q[2 * n - 1])->0;
        let (p, w) = as_match(q[2 * n as int])->0;
        assert(q[2 * n as int] is Match);
        assert(mid.vars.len() <= usize::MAX);
        lemma_stage(mid, proj, p, w);
        let (vs0, ks0) = bound_at(q, st, k);
        let (vs, ks) = bound_at(q, st, n);
        assert forall|j: int| 0 <= j < n implies stage_from(
            q[2 * j + 1],
            q[2 * j + 2],
            #[trigger] end.stages[j],
            vs[j],
            ks[j],
            vs[j + 1],
            ks[j + 1],
        ) by {
            if j < k {
                assert(end.stages[j] == mid.stages[j]) by {
                    assert(end.stages.drop_last()[j] == mid.stages[j]);
                }
                assert(vs[j] == vs0[j] && vs[j + 1] == vs0[j + 1]);
                assert(ks[j] == ks0[j] && ks[j + 1] == ks0[j + 1]);
            } else {
                assert(2 * j + 1 == 2 * n - 1);
                assert(2 * j + 2 == 2 * n);
                assert(vs[j] == vs0.last() && vs[j + 1] == end.vars);
                assert(ks[j] == ks0.last() && ks[j + 1] == end.kinds);
            }
        }
        assert(vs == vs0.push(end.vars) && ks == ks0.push(end.kinds));
        assert(vs[0] == vs0[0] && ks[0] == ks0[0]);
        assert(stages_back(q, end.stages, vs, ks, n as int));
    }
}

/// A query of three stages or more is planned as its clauses say: the first stage is the
/// first match, each projection and the match after it are a stage that goes on from the
/// one before, and the clauses after the last match say what its rows are turned into.
pub proof fn law_pipeline_reads_back(q: Seq<ClauseV>, p: PipelineV, m: nat)
    requires
        pipeline_of(q) == Some(p),
        plain_query(q),
        p.s0.vars.len() <= usize::MAX,
        m == p.stages.len(),
        forall|k: nat|
            k <= m ==> (#[trigger] pipe_stages(q, first_state(p.s0), k) matches Some(st)
                ==> st.vars.len() <= usize::MAX),
    ensures
        q[0] matches ClauseV::Match { optional: false, pattern, where_ } && scan_back(
            p.s0,
            pattern,
            where_,
        ),
        2 * m < q.len(),
        exists|vs: Seq<Seq<Seq<char>>>, ks: Seq<Seq<VarKind>>| #[trigger]
            stages_back(q, p.stages, vs, ks, m as int) && vs[0] == p.s0.vars && ks[0] == p.s0.kinds
                && fuse::pipeline_tail(
                fuse::bare_chain(vs.last(), ks.last()),
                q.skip((2 * m + 1) as int),
            ) == Some(p.tail),
{
    let (p0, w0) = as_match(q[0])->0;
    assert(q[0] is Match);
    law_scan_reads_back(p0, w0, preds::chain_allow(), p.s0);
    let end = crate::stages::last_match(q, q.len());
    lemma_last_match(q, q.len());
    let st = first_state(p.s0);
    let n = (end / 2) as nat;
    lemma_stage_count(q, st, n);
    assert(n == m);
    assert forall|k: nat| k <= m && pipe_stages(q, st, k) is Some implies (#[trigger] pipe_stages(
        q,
        st,
        k,
    ))->0.vars.len() <= usize::MAX by {}
    lemma_stages(q, st, n, m);
    let (vs, ks) = bound_at(q, st, n);
    assert(stages_back(q, p.stages, vs, ks, m as int));
    assert(end == 2 * m + 1);
}

/// The state before any later stage.
pub open spec fn first_state(s: ScanV) -> PipeState {
    PipeState {
        stages: Seq::empty(),
        vars: s.vars,
        kinds: s.kinds,
        labels: s.labels,
        hops: s.hops,
    }
}

proof fn lemma_last_match(q: Seq<ClauseV>, n: nat)
    requires
        n <= q.len(),
    ensures
        crate::stages::last_match(q, n) <= n,
    decreases n,
{
    if n > 0 {
        lemma_last_match(q, (n - 1) as nat);
    }
}

proof fn lemma_stage_count(q: Seq<ClauseV>, st: PipeState, n: nat)
    requires
        pipe_stages(q, st, n) is Some,
        st.stages.len() == 0,
    ensures
        pipe_stages(q, st, n)->0.stages.len() == n,
    decreases n,
{
    if n > 0 {
        lemma_stage_count(q, st, (n - 1) as nat);
    }
}

/// What names stand for in a row after projections that turn each row into one row.
pub open spec fn after_all<V>(cs: Seq<ClauseV>, ev: EvalV<V>, env: spec_fn(Seq<char>) -> V) -> spec_fn(
    Seq<char>,
) -> V
    decreases cs.len(),
{
    if cs.len() == 0 {
        env
    } else {
        let before = after_all(cs.drop_last(), ev, env);
        match cs.last() {
            ClauseV::With { proj, .. } => projected(proj.items, proj.items.len(), ev, before),
            _ => before,
        }
    }
}

/// Whether no expression of a projection has a form that binds names of its own.
pub open spec fn formless(p: ProjV) -> bool {
    forall|i: int| 0 <= i < p.items.len() ==> !ast::has_opaque((#[trigger] p.items[i]).expr)
}

/// Whether clauses are projections of formless expressions that turn each row into one
/// row: they neither group, order, page nor test.
pub open spec fn row_by_row(cs: Seq<ClauseV>) -> bool {
    forall|i: int|
        0 <= i < cs.len() ==> (#[trigger] cs[i] matches ClauseV::With { proj, where_: None }
            && !proj.distinct && !proj.star && proj.order.len() == 0 && proj.skip is None
            && proj.limit is None && !query::any_aggregate(proj.items) && formless(proj))
}

proof fn lemma_formless(e: ExprV, x: Seq<char>)
    requires
        !ast::has_opaque(e),
    ensures
        !meaning::hides(e, x),
    decreases e,
{
    if meaning::hides(e, x) {
        let i = choose|i: int| 0 <= i < e.args.len() && meaning::hides(#[trigger] e.args[i], x);
        assert(!ast::has_opaque(e.args[i]));
        lemma_formless(e.args[i], x);
    }
}

/// What names are defined as after projections is what they stand for after them.
proof fn lemma_defined<V>(
    cs: Seq<ClauseV>,
    m: Map<Seq<char>, ExprV>,
    ev: EvalV<V>,
    env: spec_fn(Seq<char>) -> V,
)
    requires
        fuse::define_all(cs) == Some(m),
        looks_only(ev),
        forall|i: int|
            0 <= i < cs.len() ==> (#[trigger] cs[i] matches ClauseV::With { proj, .. } ==> formless(
                proj,
            )),
    ensures
        bound(m, ev, env) == after_all(cs, ev, env),
    decreases cs.len(),
{
    if cs.len() == 0 {
        assert(bound(m, ev, env) =~= env) by {
            let b = bound(m, ev, env);
            assert forall|x: Seq<char>| #[trigger] b(x) == env(x) by {}
        }
    } else {
        let p = cs.drop_last();
        let m0 = fuse::define_all(p)->0;
        assert forall|i: int| 0 <= i < p.len() implies (#[trigger] p[i] matches ClauseV::With {
            proj,
            ..
        } ==> formless(proj)) by {
            assert(p[i] == cs[i]);
        }
        lemma_defined(p, m0, ev, env);
        assert(cs[cs.len() - 1] == cs.last());
        let (proj, _) = as_with(cs.last())->0;
        let items = proj.items;
        assert forall|i: int, y: Seq<char>|
            #![trigger items[i], m0.contains_key(y)]
            0 <= i < items.len() && m0.contains_key(y) implies !meaning::hides(items[i].expr, y) by {
            lemma_formless(items[i].expr, y);
        }
        let b = bound(m, ev, env);
        let a = after_all(cs, ev, env);
        assert forall|x: Seq<char>| #[trigger] b(x) == a(x) by {
            meaning::law_projections_fuse(m0, items, items.len(), ev, env, x);
        }
        assert(b =~= a);
    }
}

/// Whether a projection over the rows before some projections comes to what another
/// comes to after them: it has the same columns, and each item has the same value.
pub open spec fn same_after<V>(
    f: ProjV,
    p: ProjV,
    cs: Seq<ClauseV>,
    ev: EvalV<V>,
    env: spec_fn(Seq<char>) -> V,
) -> bool {
    &&& f.distinct == p.distinct && f.star == p.star && f.order == p.order && f.skip == p.skip
        && f.limit == p.limit
    &&& f.items.len() == p.items.len()
    &&& forall|i: int|
        0 <= i < p.items.len() ==> {
            &&& query::column_of(#[trigger] f.items[i]) == query::column_of(p.items[i])
            &&& value_of(f.items[i].expr, ev, env) == value_of(
                p.items[i].expr,
                ev,
                after_all(cs, ev, env),
            )
        }
}

/// Projections that turn each row into one row may be left out where the one after them
/// is fused with them.
pub proof fn law_fused_projection_is_same<V>(
    cs: Seq<ClauseV>,
    p: ProjV,
    ev: EvalV<V>,
    env: spec_fn(Seq<char>) -> V,
)
    requires
        fuse::define_all(cs) is Some,
        looks_only(ev),
        formless(p),
        forall|i: int|
            0 <= i < cs.len() ==> (#[trigger] cs[i] matches ClauseV::With { proj, .. } ==> formless(
                proj,
            )),
    ensures
        same_after(fuse::fused(p, fuse::define_all(cs)->0), p, cs, ev, env),
        row_by_row(cs),
{
    let m = fuse::define_all(cs)->0;
    let f = fuse::fused(p, m);
    lemma_defined(cs, m, ev, env);
    lemma_row_by_row(cs);
    assert forall|i: int| 0 <= i < p.items.len() implies {
        &&& query::column_of(#[trigger] f.items[i]) == query::column_of(p.items[i])
        &&& value_of(f.items[i].expr, ev, env) == value_of(
            p.items[i].expr,
            ev,
            after_all(cs, ev, env),
        )
    } by {
        let e = p.items[i].expr;
        assert forall|x: Seq<char>| #[trigger] m.contains_key(x) implies !meaning::hides(e, x) by {
            lemma_formless(e, x);
        }
        meaning::law_replacing_is_binding(e, m, ev, env);
    }
}

proof fn lemma_row_by_row(cs: Seq<ClauseV>)
    requires
        fuse::define_all(cs) is Some,
        forall|i: int|
            0 <= i < cs.len() ==> (#[trigger] cs[i] matches ClauseV::With { proj, .. } ==> formless(
                proj,
            )),
    ensures
        row_by_row(cs),
    decreases cs.len(),
{
    if cs.len() > 0 {
        let p = cs.drop_last();
        assert forall|i: int| 0 <= i < p.len() implies (#[trigger] p[i] matches ClauseV::With {
            proj,
            ..
        } ==> formless(proj)) by {
            assert(p[i] == cs[i]);
        }
        lemma_row_by_row(p);
        assert forall|i: int| 0 <= i < cs.len() implies (#[trigger] cs[i] matches ClauseV::With {
            proj,
            where_: None,
        } && !proj.distinct && !proj.star && proj.order.len() == 0 && proj.skip is None
            && proj.limit is None && !query::any_aggregate(proj.items) && formless(proj)) by {
            if i < p.len() {
                assert(cs[i] == p[i]);
            }
        }
    }
}

/// What the last clauses of a pipeline say: a return alone, or a grouping or distinct
/// projection and a return, after projections that are fused into it.
pub open spec fn pipeline_tail_back(t: StageTailV, chain: ChainV, cs: Seq<ClauseV>, f: ProjV) -> bool {
    &&& cs.len() > 0
    &&& cs.last() matches ClauseV::Return { proj: rp } && if cs.len() == 1 {
        tail_back(t, chain, None, rp)
    } else {
        cs[cs.len() - 2] matches ClauseV::With { proj, where_ } && f.items.len()
            == proj.items.len() && tail_back(t, chain, Some((f, where_)), rp)
    }
}

/// The rows of a last stage are turned into what the last clauses say.
pub proof fn law_pipeline_tail_reads_back<V>(
    t: StageTailV,
    chain: ChainV,
    cs: Seq<ClauseV>,
    ev: EvalV<V>,
    env: spec_fn(Seq<char>) -> V,
) -> (f: ProjV)
    requires
        fuse::pipeline_tail(chain, cs) == Some(t),
        chain.vars.len() <= usize::MAX,
        plain_query(cs),
        sites_fit(t),
        looks_only(ev),
        forall|i: int|
            0 <= i < cs.len() - 1 ==> (#[trigger] cs[i] matches ClauseV::With { proj, .. }
                ==> formless(proj)),
    ensures
        pipeline_tail_back(t, chain, cs, f),
        cs.len() > 1 ==> row_by_row(cs.take(cs.len() - 2)) && (cs[cs.len()
            - 2] matches ClauseV::With { proj, .. } && same_after(
            f,
            proj,
            cs.take(cs.len() - 2),
            ev,
            env,
        )),
{
    let n = cs.len() as int;
    assert(cs[n - 1] == cs.last());
    let rp = as_return(cs.last())->0;
    if n == 1 {
        assert(cs.drop_last().len() == 0);
        law_tail_reads_back(t, chain, None, rp);
        rp
    } else {
        let withs = cs.drop_last();
        assert(withs.last() == cs[n - 2]);
        let pre = withs.drop_last();
        assert(pre =~= cs.take(n - 2));
        let (proj, having) = as_with(cs[n - 2])->0;
        let m = fuse::define_all(pre)->0;
        let f = fuse::fused(proj, m);
        assert forall|i: int| 0 <= i < pre.len() implies (#[trigger] pre[i] matches ClauseV::With {
            proj,
            ..
        } ==> formless(proj)) by {
            assert(pre[i] == cs[i]);
        }
        law_fused_projection_is_same(pre, proj, ev, env);
        assert(raw(f)) by {
            lemma_defined_raw(pre, m);
            assert forall|i: int| 0 <= i < f.items.len() implies unlifted(
                (#[trigger] f.items[i]).expr,
            ) by {
                assert(unlifted(proj.items[i].expr));
                lemma_subst_raw(proj.items[i].expr, m);
            }
        }
        law_tail_reads_back(t, chain, Some((f, having)), rp);
        f
    }
}

spec fn defs_raw(m: Map<Seq<char>, ExprV>) -> bool {
    forall|x: Seq<char>| #[trigger] m.contains_key(x) ==> unlifted(m[x])
}

proof fn lemma_subst_raw(e: ExprV, m: Map<Seq<char>, ExprV>)
    requires
        unlifted(e),
        defs_raw(m),
    ensures
        unlifted(fuse::subst(e, m)),
    decreases e,
{
    match e.head {
        HeadV::Var(_) => {},
        HeadV::Pattern(_) => {},
        HeadV::Opaque(_) => {},
        _ => {
            let s = fuse::subst(e, m);
            assert forall|i: int| 0 <= i < s.args.len() implies unlifted(#[trigger] s.args[i]) by {
                assert(unlifted(e.args[i]));
                lemma_subst_raw(e.args[i], m);
                assert(s.args[i] == fuse::subst(e.args[i], m));
            }
        },
    }
}

proof fn lemma_items_raw(m: Map<Seq<char>, ExprV>, items: Seq<ItemV>, n: nat)
    requires
        defs_raw(m),
        n <= items.len(),
        forall|i: int| 0 <= i < items.len() ==> unlifted((#[trigger] items[i]).expr),
    ensures
        defs_raw(fuse::define_items(m, items, n)),
    decreases n,
{
    if n > 0 {
        lemma_items_raw(m, items, (n - 1) as nat);
        assert(unlifted(items[n - 1].expr));
        lemma_subst_raw(items[n - 1].expr, m);
    }
}

proof fn lemma_defined_raw(cs: Seq<ClauseV>, m: Map<Seq<char>, ExprV>)
    requires
        fuse::define_all(cs) == Some(m),
        plain_query(cs),
    ensures
        defs_raw(m),
    decreases cs.len(),
{
    if cs.len() > 0 {
        let p = cs.drop_last();
        assert(plain_query(p)) by {
            assert forall|i: int| 0 <= i < p.len() implies match #[trigger] p[i] {
                ClauseV::Match { pattern, .. } => fits(pattern),
                ClauseV::With { proj, .. } => raw(proj),
                ClauseV::Return { proj } => raw(proj),
                _ => true,
            } by {
                assert(p[i] == cs[i]);
            }
        }
        lemma_defined_raw(p, fuse::define_all(p)->0);
        assert(cs[cs.len() - 1] == cs.last());
        let (proj, _) = as_with(cs.last())->0;
        lemma_items_raw(fuse::define_all(p)->0, proj.items, proj.items.len());
    }
}

/// A query of a stage, projections that turn each row into one row, and groups is planned
/// as its clauses say.
pub proof fn law_projected_reads_back<V>(
    q: Seq<ClauseV>,
    p: MultiV,
    ev: EvalV<V>,
    env: spec_fn(Seq<char>) -> V,
) -> (f: ProjV)
    requires
        fuse::projected_of(q) == Some(p),
        plain_query(q),
        p.s1.vars.len() <= usize::MAX,
        p.tail matches StageTailV::Agg(a) ==> a.sites.len() <= usize::MAX && a.chain.vars.len()
            <= usize::MAX,
        looks_only(ev),
        forall|i: int|
            2 <= i < q.len() - 1 ==> (#[trigger] q[i] matches ClauseV::With { proj, .. }
                ==> formless(proj)),
    ensures
        q.len() >= 4,
        q[0] matches ClauseV::Match { optional: false, pattern, where_ } && scan_back(
            p.s1,
            pattern,
            where_,
        ),
        p.s2_hops.len() == 0 && p.s2_wheres.len() == 0,
        p.tail matches StageTailV::Agg(a) && (q[1] matches ClauseV::With { proj, where_: None }
            && carry_back(
            p.carried,
            !p.distinct,
            p.s1.vars,
            p.s1.kinds,
            a.chain.vars,
            a.chain.kinds,
            proj,
        )) && (q[q.len() - 2] matches ClauseV::With { proj, where_ } && q[q.len()
            - 1] matches ClauseV::Return { proj: rp } && agg_back(
            a,
            a.chain,
            f,
            Some((where_, rp)),
        ) && same_after(f, proj, q.subrange(2, q.len() - 2), ev, env)),
        row_by_row(q.subrange(2, q.len() - 2)),
{
    let n = q.len() as int;
    let (p1, w1) = as_match(q[0])->0;
    let (carry, _) = as_with(q[1])->0;
    let mid = q.subrange(2, n - 2);
    let (agg, having) = as_with(q[n - 2])->0;
    let rp = as_return(q[n - 1])->0;
    assert(q[0] is Match && q[n - 2] is With);
    law_scan_reads_back(p1, w1, crate::join_plan::anchor_allow(), p.s1);
    let c = carry_of(carry, p.s1.vars, p.s1.kinds, p.s1.labels)->0;
    law_carry_reads_back(carry, p.s1.vars, p.s1.kinds, p.s1.labels, c);
    let m = fuse::define_all(mid)->0;
    let f = fuse::fused(agg, m);
    assert forall|i: int| 0 <= i < mid.len() implies (#[trigger] mid[i] matches ClauseV::With {
        proj,
        ..
    } ==> formless(proj)) by {
        assert(mid[i] == q[i + 2]);
    }
    assert(formless(agg)) by {
        assert(q[n - 2] is With);
    }
    law_fused_projection_is_same(mid, agg, ev, env);
    assert(plain_query(mid)) by {
        assert forall|i: int| 0 <= i < mid.len() implies match #[trigger] mid[i] {
            ClauseV::Match { pattern, .. } => fits(pattern),
            ClauseV::With { proj, .. } => raw(proj),
            ClauseV::Return { proj } => raw(proj),
            _ => true,
        } by {
            assert(mid[i] == q[i + 2]);
        }
    }
    lemma_defined_raw(mid, m);
    assert(raw(f)) by {
        assert(raw(agg));
        assert forall|i: int| 0 <= i < f.items.len() implies unlifted(
            (#[trigger] f.items[i]).expr,
        ) by {
            assert(unlifted(agg.items[i].expr));
            lemma_subst_raw(agg.items[i].expr, m);
        }
    }
    plan_law::law_aggregate_plan_is_projection(
        fuse::bare_chain(c.vars, c.kinds),
        f,
        Some((having, rp)),
        p.tail->Agg_0,
    );
    f
}

} // verus!
