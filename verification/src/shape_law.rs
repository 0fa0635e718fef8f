//! Joined, optional and counted shapes can be read back: each side and each leg is a
//! clause of the query, and the rows of all of them are turned into what the last
//! clauses say.

use vstd::prelude::*;

use crate::ast::{ExprV, HeadV, Op};
use crate::carry::labels_of;
use crate::chain::{bound_hops, HopsV};
use crate::graph::VarKind;
use crate::hop::StepHop;
use crate::join;
use crate::join_plan::{join_of, joined_chain, joined_tail, multi_join_of, second_side, seeded_hops, JoinPlanV, MultiJoinV, SideV};
use crate::legs;
use crate::legs::{optional_of, plain_allow, stages_of, BoundV, OptionalV, StageV, TailV};
use crate::member_posts;
use crate::member_posts::{member_posts_of, MemberPostsV};
use crate::multistage::{as_match, as_return, as_with};
use crate::names;
use crate::plan;
use crate::plan_law;
use crate::plan_law::agg_back;
use crate::preds::{ChainV, WhereV};
use crate::query;
use crate::query::{ClauseV, PatternV, ProjV};
use crate::read_back_law;
use crate::read_back_law::{fits, plain_paths, steps_back};
use crate::reroot;
use crate::stage_law;
use crate::stage_law::{all_hops, asks_nothing, carry_back, one_back, plain_query, raw, scan_back};

verus! {

/// Whether steps go on from what is bound as a match says that asks for no property.
pub open spec fn leg_back(
    hops: Seq<StepHop>,
    vars: Seq<Seq<char>>,
    kinds: Seq<VarKind>,
    where_: Option<WhereV>,
    from: Seq<Seq<char>>,
    from_kinds: Seq<VarKind>,
    p: PatternV,
    w: Option<ExprV>,
) -> bool {
    &&& steps_back(hops, vars, kinds, all_hops(p))
    &&& plain_paths(p)
    &&& asks_nothing(p)
    &&& one_back(where_, w, vars)
    &&& vars.len() == kinds.len()
    &&& from.len() <= vars.len() && vars.take(from.len() as int) == from
    &&& from_kinds.len() <= kinds.len() && kinds.take(from_kinds.len() as int) == from_kinds
}

proof fn lemma_one_where(w: Option<ExprV>, vars: Seq<Seq<char>>, p: Option<WhereV>)
    requires
        legs::one_where(w, vars) == Some(p),
    ensures
        one_back(p, w, vars),
{
}

proof fn lemma_leg(
    p: PatternV,
    w: Option<ExprV>,
    vars: Seq<Seq<char>>,
    kinds: Seq<VarKind>,
    labels: Map<Seq<char>, Seq<Seq<char>>>,
    h: HopsV,
    where_: Option<WhereV>,
)
    requires
        bound_hops(p, vars, kinds, labels, plain_allow()) == Some(h),
        legs::one_where(w, h.vars) == Some(where_),
        vars.len() == kinds.len(),
        fits(p),
    ensures
        leg_back(h.hops, h.vars, h.kinds, where_, vars, kinds, p, w),
{
    read_back_law::law_bound_steps_read_back(p, vars, kinds, labels, plain_allow(), h);
    stage_law::lemma_bound_starts(p, vars, kinds, labels, plain_allow(), h);
    stage_law::lemma_asks_nothing(
        crate::chain::before(vars, kinds, labels),
        p,
        false,
        p.paths.len(),
        plain_allow(),
    );
    lemma_one_where(w, h.vars, where_);
}

/// Whether a first side is a match that asks for no property.
pub open spec fn first_back(a: HopsV, where_: Option<WhereV>, p: PatternV, w: Option<ExprV>) -> bool {
    &&& p.paths.len() > 0
    &&& steps_back(a.hops, a.vars, a.kinds, all_hops(p))
    &&& plain_paths(p)
    &&& asks_nothing(p)
    &&& one_back(where_, w, a.vars)
    &&& a.a_labels == p.paths[0].start.labels
    &&& p.paths[0].start.var matches Some(x) ==> a.a_var == x
    &&& a.vars.len() > 0 && a.vars[0] == a.a_var
}

/// Whether a second side starts at a variable that the first binds, and goes on from it
/// as a match says.
pub open spec fn second_back(b: SideV, a: HopsV, p: PatternV, w: Option<ExprV>) -> bool {
    &&& !b.from_carried
    &&& 0 <= b.seed_from < a.vars.len() && a.vars[b.seed_from] == b.seed_var
    &&& p.paths.len() > 0 && p.paths[0].start.var == Some(b.seed_var)
    &&& leg_back(
        b.bound.hops,
        b.bound.vars,
        b.bound.kinds,
        b.where_,
        seq![b.seed_var],
        seq![a.kinds[b.seed_from]],
        p,
        w,
    )
}

proof fn lemma_second(p: PatternV, w: Option<ExprV>, a: HopsV, b: SideV)
    requires
        second_side(p, w, a) == Some(b),
        fits(p),
    ensures
        second_back(b, a, p, w),
{
    let x = p.paths[0].start.var->0;
    names::lemma_position(a.vars, x);
    let i = names::position(a.vars, x)->0;
    lemma_leg(
        p,
        w,
        seq![x],
        seq![a.kinds[i]],
        labels_of(a.labels, seq![x]),
        b.bound,
        b.where_,
    );
}

/// Whether names are those of two sides, each once: all of the first, and then those of
/// the second that the first does not bind.
pub open spec fn both_vars(vars: Seq<Seq<char>>, a: Seq<Seq<char>>, b: Seq<Seq<char>>) -> bool {
    &&& a.len() <= vars.len() && vars.take(a.len() as int) == a
    &&& forall|i: int|
        a.len() <= i < vars.len() ==> b.contains(#[trigger] vars[i]) && !a.contains(vars[i])
    &&& forall|i: int| 0 <= i < b.len() ==> vars.contains(#[trigger] b[i])
}

proof fn lemma_extra(a: Seq<Seq<char>>, b: Seq<Seq<char>>)
    requires
        b.len() <= usize::MAX,
    ensures
        forall|k: int|
            0 <= k < join::extra_cols(a, b).len() ==> (#[trigger] join::extra_cols(a, b)[k]) < b.len()
                && !a.contains(b[join::extra_cols(a, b)[k] as int]),
        forall|i: int|
            0 <= i < b.len() && !a.contains(#[trigger] b[i]) ==> join::extra_cols(a, b).contains(
                i as usize,
            ),
    decreases b.len(),
{
    if b.len() > 0 {
        let p = b.drop_last();
        let d = join::extra_cols(a, p);
        let e = join::extra_cols(a, b);
        lemma_extra(a, p);
        assert forall|k: int| 0 <= k < e.len() implies (#[trigger] e[k]) < b.len() && !a.contains(
            b[e[k] as int],
        ) by {
            if k < d.len() {
                assert(e[k] == d[k]);
                assert(p[d[k] as int] == b[d[k] as int]);
            }
        }
        assert forall|i: int| 0 <= i < b.len() && !a.contains(#[trigger] b[i]) implies e.contains(
            i as usize,
        ) by {
            if i < p.len() {
                assert(p[i] == b[i]);
                assert(d.contains(i as usize));
                let k = choose|k: int| 0 <= k < d.len() && d[k] == i as usize;
                assert(e[k] == i as usize);
            } else {
                assert(e[e.len() - 1] == i as usize);
            }
        }
    }
}

proof fn lemma_joined_vars(a: HopsV, b: HopsV)
    requires
        b.vars.len() <= usize::MAX,
    ensures
        both_vars(joined_chain(a, b).vars, a.vars, b.vars),
{
    let extra = join::extra_cols(a.vars, b.vars);
    let vars = joined_chain(a, b).vars;
    let more = extra.map_values(|i: usize| b.vars[i as int]);
    lemma_extra(a.vars, b.vars);
    assert(vars.take(a.vars.len() as int) =~= a.vars);
    assert forall|i: int| a.vars.len() <= i < vars.len() implies b.vars.contains(#[trigger] vars[i])
        && !a.vars.contains(vars[i]) by {
        let k = i - a.vars.len();
        assert(vars[i] == more[k]);
        assert(extra[k] < b.vars.len());
    }
    assert forall|i: int| 0 <= i < b.vars.len() implies vars.contains(#[trigger] b.vars[i]) by {
        if a.vars.contains(b.vars[i]) {
            let k = choose|k: int| 0 <= k < a.vars.len() && a.vars[k] == b.vars[i];
            assert(vars[k] == b.vars[i]);
        } else {
            assert(extra.contains(i as usize));
            let k = choose|k: int| 0 <= k < extra.len() && extra[k] == i as usize;
            assert(more[k] == b.vars[i]);
            assert(vars[a.vars.len() + k] == b.vars[i]);
        }
    }
}

/// Whether the groups of joined rows are what a projection says of both sides.
pub open spec fn joined_back(tail: plan::AggV, a: HopsV, b: HopsV, proj: ProjV) -> bool {
    both_vars(tail.chain.vars, a.vars, b.vars) && agg_back(tail, tail.chain, proj, None)
}

proof fn lemma_joined_tail(tail: plan::AggV, a: HopsV, b: HopsV, proj: ProjV)
    requires
        joined_tail(a, b, proj) == Some(tail),
        raw(proj),
        b.vars.len() <= usize::MAX,
        tail.chain.vars.len() <= usize::MAX,
        tail.sites.len() <= usize::MAX,
    ensures
        joined_back(tail, a, b, proj),
{
    lemma_joined_vars(a, b);
    plan_law::law_aggregate_plan_is_projection(joined_chain(a, b), proj, None, tail);
}

/// Two matches that are joined are planned as they say: the first is the first side, the
/// second goes on from a variable that the first binds, and the joined rows are grouped
/// as the return says.
pub proof fn law_join_reads_back(q: Seq<ClauseV>, p: JoinPlanV)
    requires
        join_of(q) == Some(p),
        plain_query(q),
        p.b.bound.vars.len() <= usize::MAX,
        p.tail.chain.vars.len() <= usize::MAX,
        p.tail.sites.len() <= usize::MAX,
    ensures
        q.len() == 3,
        q[0] matches ClauseV::Match { optional: false, pattern, where_ } && first_back(
            p.a,
            p.a_where,
            pattern,
            where_,
        ),
        q[1] matches ClauseV::Match { optional: false, pattern, where_ } && second_back(
            p.b,
            p.a,
            pattern,
            where_,
        ),
        q[2] matches ClauseV::Return { proj } && joined_back(p.tail, p.a, p.b.bound, proj),
{
    let (pa, wa) = as_match(q[0])->0;
    let (pb, wb) = as_match(q[1])->0;
    let proj = as_return(q[2])->0;
    assert(q[0] is Match && q[1] is Match && q[2] is Return);
    read_back_law::law_scanned_steps_read_back(pa, plain_allow(), p.a);
    stage_law::lemma_asks_nothing(
        crate::chain::before(Seq::empty(), Seq::empty(), Map::empty()),
        pa,
        true,
        pa.paths.len(),
        plain_allow(),
    );
    lemma_one_where(wa, p.a.vars, p.a_where);
    lemma_second(pb, wb, p.a, p.b);
    lemma_joined_tail(p.tail, p.a, p.b.bound, proj);
}

/// Whether a second side is turned: it starts at what is carried and goes the path of a
/// match from its other end, which binds the same names.
pub open spec fn turned_back(
    b: SideV,
    x: Seq<char>,
    kind: VarKind,
    p: PatternV,
    w: Option<ExprV>,
) -> bool {
    &&& b.from_carried && b.seed_var == x
    &&& p.paths.len() == 1 && p.paths[0].hops.len() > 0 && p.paths[0].hops.last().1.var == Some(x)
    &&& leg_back(
        b.bound.hops,
        b.bound.vars,
        b.bound.kinds,
        b.where_,
        seq![x],
        seq![kind],
        PatternV { paths: seq![reroot::reversed(p.paths[0])] },
        w,
    )
}

/// A stage and two matches that are joined after it are planned as they say. The second
/// match may be walked from its other end where that is what is carried.
pub proof fn law_multi_join_reads_back(q: Seq<ClauseV>, p: MultiJoinV)
    requires
        multi_join_of(q) == Some(p),
        plain_query(q),
        p.s1.vars.len() <= usize::MAX,
        p.b.bound.vars.len() <= usize::MAX,
        p.tail.chain.vars.len() <= usize::MAX,
        p.tail.sites.len() <= usize::MAX,
    ensures
        q.len() == 5,
        q[0] matches ClauseV::Match { optional: false, pattern, where_ } && scan_back(
            p.s1,
            pattern,
            where_,
        ),
        q[1] matches ClauseV::With { proj, where_: None } && carry_back(
            p.carry.carried,
            !p.carry.distinct,
            p.s1.vars,
            p.s1.kinds,
            p.carry.vars,
            p.carry.kinds,
            proj,
        ),
        p.carry.vars.len() == 1,
        q[2] matches ClauseV::Match { optional: false, pattern, where_ } && leg_back(
            p.a.hops,
            p.a.vars,
            p.a.kinds,
            p.a_where,
            p.carry.vars,
            p.carry.kinds,
            pattern,
            where_,
        ),
        q[3] matches ClauseV::Match { optional: false, pattern, where_ } && (second_back(
            p.b,
            p.a,
            pattern,
            where_,
        ) || turned_back(p.b, p.carry.vars[0], p.carry.kinds[0], pattern, where_)),
        q[4] matches ClauseV::Return { proj } && joined_back(p.tail, p.a, p.b.bound, proj),
{
    let (p1, w1) = as_match(q[0])->0;
    let (carry, _) = as_with(q[1])->0;
    let (pa, wa) = as_match(q[2])->0;
    let (pb, wb) = as_match(q[3])->0;
    let proj = as_return(q[4])->0;
    assert(q[0] is Match && q[2] is Match && q[3] is Match && q[4] is Return);
    let c = p.carry;
    stage_law::law_scan_reads_back(p1, w1, crate::join_plan::anchor_allow(), p.s1);
    stage_law::law_carry_reads_back(carry, p.s1.vars, p.s1.kinds, p.s1.labels, c);
    lemma_leg(pa, wa, c.vars, c.kinds, c.labels, p.a, p.a_where);
    let fwd = second_side(pb, wb, p.a)->0;
    lemma_second(pb, wb, p.a, fwd);
    let x = c.vars[0];
    if p.b != fwd {
        let alt = reroot::rerooted(pb, x)->0;
        let h = seeded_hops(alt, x, c.kinds[0], c.labels)->0;
        assert(alt.paths =~= seq![reroot::reversed(pb.paths[0])]);
        assert(p.b.bound == h);
        assert(fits(alt)) by {
            assert(alt.paths[0].hops.len() == pb.paths[0].hops.len());
        }
        lemma_leg(
            alt,
            wb,
            seq![x],
            seq![c.kinds[0]],
            labels_of(c.labels, seq![x]),
            h,
            p.b.where_,
        );
    }
    lemma_joined_tail(p.tail, p.a, p.b.bound, proj);
}

/// Whether a leg goes on from what is bound as an optional match says.
pub open spec fn optional_leg_back(
    s: StageV,
    c: ClauseV,
    vars: Seq<Seq<char>>,
    kinds: Seq<VarKind>,
    to: Seq<Seq<char>>,
    to_kinds: Seq<VarKind>,
) -> bool {
    &&& c matches ClauseV::Match { optional: true, pattern, where_ } && leg_back(
        s.hops,
        to,
        to_kinds,
        s.where_,
        vars,
        kinds,
        pattern,
        where_,
    )
    &&& s.outer_len == vars.len()
    &&& s.vars_after == to.len()
}

/// Whether each of some legs goes on from what the one before it binds.
pub open spec fn legs_back(
    q: Seq<ClauseV>,
    ss: Seq<StageV>,
    vars: Seq<Seq<Seq<char>>>,
    kinds: Seq<Seq<VarKind>>,
) -> bool {
    &&& vars.len() == ss.len() + 1 && kinds.len() == ss.len() + 1
    &&& forall|k: int|
        0 <= k < ss.len() ==> optional_leg_back(
            #[trigger] ss[k],
            q[k + 1],
            vars[k],
            kinds[k],
            vars[k + 1],
            kinds[k + 1],
        )
}

proof fn lemma_run_is_optional(q: Seq<ClauseV>, from: int)
    requires
        0 <= from <= q.len(),
    ensures
        from + legs::opt_run(q, from) <= q.len(),
        forall|i: int|
            from <= i < from + legs::opt_run(q, from) ==> (#[trigger] q[i] matches ClauseV::Match {
                optional: true,
                ..
            }),
    decreases q.len() - from,
{
    if from < q.len() && (q[from] matches ClauseV::Match { optional: true, .. }) {
        lemma_run_is_optional(q, from + 1);
    }
}

spec fn legs_bound(q: Seq<ClauseV>, n: nat, b: BoundV, hops: Seq<StepHop>) -> (
    Seq<Seq<Seq<char>>>,
    Seq<Seq<VarKind>>,
)
    decreases n,
{
    if n == 0 {
        (seq![b.vars], seq![b.kinds])
    } else {
        let (vs, ks) = legs_bound(q, (n - 1) as nat, b, hops);
        let (_, _, after) = stages_of(q, n, b, hops)->0;
        (vs.push(after.vars), ks.push(after.kinds))
    }
}

proof fn lemma_legs(q: Seq<ClauseV>, n: nat, b: BoundV, hops: Seq<StepHop>)
    requires
        stages_of(q, n, b, hops) is Some,
        n < q.len(),
        b.vars.len() == b.kinds.len(),
        plain_query(q),
        forall|i: int|
            1 <= i <= n ==> (#[trigger] q[i] matches ClauseV::Match { optional: true, .. }),
    ensures
        ({
            let (ss, all, after) = stages_of(q, n, b, hops)->0;
            let (vs, ks) = legs_bound(q, n, b, hops);
            &&& ss.len() == n
            &&& legs_back(q, ss, vs, ks)
            &&& vs[0] == b.vars && ks[0] == b.kinds
            &&& vs.last() == after.vars && ks.last() == after.kinds
            &&& after.vars.len() == after.kinds.len()
        }),
    decreases n,
{
    if n > 0 {
        let m = (n - 1) as nat;
        lemma_legs(q, m, b, hops);
        let (ss0, _, mid) = stages_of(q, m, b, hops)->0;
        let (ss, _, after) = stages_of(q, n, b, hops)->0;
        let (vs0, ks0) = legs_bound(q, m, b, hops);
        let (vs, ks) = legs_bound(q, n, b, hops);
        let c = q[n as int];
        assert(c is Match);
        let p = c->Match_pattern;
        let w = c->Match_where_;
        let s = ss.last();
        assert(ss == ss0.push(s));
        let h = bound_hops(p, mid.vars, mid.kinds, mid.labels, plain_allow())->0;
        lemma_leg(p, w, mid.vars, mid.kinds, mid.labels, h, s.where_);
        assert forall|k: int| 0 <= k < ss.len() implies optional_leg_back(
            #[trigger] ss[k],
            q[k + 1],
            vs[k],
            ks[k],
            vs[k + 1],
            ks[k + 1],
        ) by {
            if k < m {
                assert(ss[k] == ss0[k]);
                assert(vs[k] == vs0[k] && vs[k + 1] == vs0[k + 1]);
                assert(ks[k] == ks0[k] && ks[k + 1] == ks0[k + 1]);
            } else {
                assert(vs[k] == vs0.last() && vs[k + 1] == after.vars);
                assert(ks[k] == ks0.last() && ks[k + 1] == after.kinds);
            }
        }
        assert(vs == vs0.push(after.vars) && ks == ks0.push(after.kinds));
        assert(vs[0] == vs0[0] && ks[0] == ks0[0]);
    }
}

/// Whether the rows of optional legs are turned into what the last clauses say.
pub open spec fn optional_tail_back(t: TailV, vars: Seq<Seq<char>>, rest: Seq<ClauseV>) -> bool {
    match t {
        TailV::Core(c) => c.chain.vars == vars && rest.len() == 1 && rest[0] == (ClauseV::Return {
            proj: c.proj,
        }) && !c.proj.distinct && !c.proj.star && !query::any_aggregate(c.proj.items),
        TailV::Agg(a) => a.chain.vars == vars && {
            ||| rest.len() == 1 && (rest[0] matches ClauseV::Return { proj } && agg_back(
                a,
                a.chain,
                proj,
                None,
            ))
            ||| rest.len() == 2 && (rest[0] matches ClauseV::With { proj, where_ }
                && rest[1] matches ClauseV::Return { proj: rp } && agg_back(
                a,
                a.chain,
                proj,
                Some((where_, rp)),
            ))
        },
    }
}

/// A match and the optional matches after it are planned as they say, before legs are
/// counted: the match is the outer side, each optional match is a leg that goes on from
/// what is bound before it, and the last clauses say what the rows are turned into.
pub proof fn law_optional_reads_back(q: Seq<ClauseV>, on: bool, p: OptionalV)
    requires
        optional_of(q, on) == Some(p),
        plain_query(q),
        p.combined_vars.len() <= usize::MAX,
        p.tail matches TailV::Agg(a) ==> a.sites.len() <= usize::MAX,
    ensures
        q[0] matches ClauseV::Match { optional: false, pattern, where_ } && {
            &&& pattern.paths.len() > 0 && plain_paths(pattern) && asks_nothing(pattern)
            &&& exists|kinds: Seq<VarKind>| #[trigger]
                steps_back(p.outer_hops, p.outer_vars, kinds, all_hops(pattern))
            &&& p.outer_a_labels == pattern.paths[0].start.labels
            &&& pattern.paths[0].start.var matches Some(x) ==> p.outer_a_var == x
            &&& p.outer_vars.len() > 0 && p.outer_vars[0] == p.outer_a_var
            &&& one_back(p.outer_where, where_, p.outer_vars)
        },
        exists|ss: Seq<StageV>, vs: Seq<Seq<Seq<char>>>, ks: Seq<Seq<VarKind>>| #[trigger]
            legs_back(q, ss, vs, ks) && ss.len() > 0 && ss.len() < q.len() && vs[0] == p.outer_vars
                && vs.last() == p.combined_vars && ks.last() == p.combined_kinds && p.stages
                == legs::fold_stages(ss, p.tail, p.combined_kinds, on) && optional_tail_back(
                p.tail,
                p.combined_vars,
                q.skip(ss.len() as int + 1),
            ),
{
    let (pattern, where_) = (q[0]->Match_pattern, q[0]->Match_where_);
    assert(q[0] is Match);
    let h = crate::chain::scan_hops(pattern, legs::outer_allow())->0;
    read_back_law::law_scanned_steps_read_back(pattern, legs::outer_allow(), h);
    stage_law::lemma_asks_nothing(
        crate::chain::before(Seq::empty(), Seq::empty(), Map::empty()),
        pattern,
        true,
        pattern.paths.len(),
        legs::outer_allow(),
    );
    assert(steps_back(p.outer_hops, p.outer_vars, h.kinds, all_hops(pattern)));
    lemma_one_where(where_, h.vars, p.outer_where);
    let n = legs::opt_run(q, 1);
    lemma_run_is_optional(q, 1);
    let b = BoundV { vars: h.vars, kinds: h.kinds, labels: h.labels };
    let (ss, all, after) = stages_of(q, n, b, h.hops)->0;
    let rest = q.skip(n as int + 1);
    assert(rest.len() > 0);
    lemma_legs(q, n, b, h.hops);
    let (vs, ks) = legs_bound(q, n, b, h.hops);
    let chain = ChainV {
        a_labels: h.a_labels,
        a_var: h.a_var,
        hops: all,
        vars: after.vars,
        kinds: after.kinds,
        wheres: Seq::empty(),
        start_anchor: None,
    };
    if rest.len() == 1 {
        assert(rest[0] == q[n as int + 1]);
        if let TailV::Agg(a) = p.tail {
            let proj = rest[0]->Return_proj;
            assert(q[n as int + 1] is Return);
            plan_law::law_aggregate_plan_is_projection(chain, proj, None, a);
        }
    } else {
        assert(rest[0] == q[n as int + 1] && rest[1] == q[n as int + 2]);
        assert(q[n as int + 1] is With && q[n as int + 2] is Return);
        let proj = rest[0]->With_proj;
        plan_law::law_aggregate_plan_is_projection(
            chain,
            proj,
            Some((rest[0]->With_where_, rest[1]->Return_proj)),
            p.tail->Agg_0,
        );
    }
    assert(legs_back(q, ss, vs, ks));
}

/// Whether a projection keeps a variable and collects another into a list beside it.
pub open spec fn lists_per(p: ProjV, x: Seq<char>, y: Seq<char>, list: Seq<char>) -> bool {
    &&& !p.star && !p.distinct && p.order.len() == 0 && p.skip is None && p.limit is None
    &&& p.items.len() == 2
    &&& exists|k: int, j: int|
        0 <= k < 2 && 0 <= j < 2 && k != j && (#[trigger] p.items[k]).expr.head == HeadV::Var(y) && (
        p.items[k].alias is None || p.items[k].alias == Some(y)) && (
        (#[trigger] p.items[j]).expr.head matches HeadV::Call(f) && f.name == "collect"@)
            && p.items[j].expr.args.len() == 1 && p.items[j].expr.args[0].head == HeadV::Var(x)
            && p.items[j].alias == Some(list)
}

/// Whether a condition is that a variable is in a list.
pub open spec fn tests_in(w: Option<ExprV>, x: Seq<char>, list: Seq<char>) -> bool {
    w matches Some(e) && e.head == HeadV::Op(Op::In) && e.args.len() == 2 && e.args[0].head
        == HeadV::Var(x) && e.args[1].head == HeadV::Var(list)
}

/// Whether two clauses list the members of each group, and match what one of them made.
pub open spec fn lists_and_tests(
    a: ClauseV,
    b: ClauseV,
    h: HopsV,
    x: Seq<char>,
    y: Seq<char>,
    list: Seq<char>,
) -> bool {
    match (a, b) {
        (
            ClauseV::With { proj, where_: None },
            ClauseV::Match { optional: true, pattern, where_ },
        ) => {
            &&& lists_per(proj, x, y, list)
            &&& steps_back(h.hops, h.vars, h.kinds, all_hops(pattern))
            &&& plain_paths(pattern)
            &&& asks_nothing(pattern)
            &&& tests_in(where_, x, list)
        },
        _ => false,
    }
}

/// Members, their groups and what they made there are planned as the query says: the
/// members are what is carried on, the groups are what the second match binds beside
/// them, the members of each group are collected, and what one of them made in the group
/// is what the optional match binds beside both.
pub proof fn law_member_posts_read_back(q: Seq<ClauseV>, p: MemberPostsV)
    requires
        member_posts_of(q) == Some(p),
        plain_query(q),
        p.s1.vars.len() <= usize::MAX,
        p.tail.sites.len() <= usize::MAX,
    ensures
        q.len() == 7,
        q[0] matches ClauseV::Match { optional: false, pattern, where_ } && scan_back(
            p.s1,
            pattern,
            where_,
        ),
        q[1] matches ClauseV::With { proj, where_: None } && carry_back(
            p.carry.carried,
            !p.carry.distinct,
            p.s1.vars,
            p.s1.kinds,
            p.carry.vars,
            p.carry.kinds,
            proj,
        ),
        p.carry.vars.len() == 1,
        q[2] matches ClauseV::Match { optional: false, pattern, where_ } && leg_back(
            p.a.hops,
            p.a.vars,
            p.a.kinds,
            p.a_where,
            p.carry.vars,
            p.carry.kinds,
            pattern,
            where_,
        ),
        ({
            let (xc, gc) = p.pair_cols;
            let x = p.carry.vars[0];
            let y = p.a.vars[gc];
            &&& 0 <= xc < p.a.vars.len() && p.a.vars[xc] == x
            &&& 0 <= gc < p.a.vars.len() && y != x && p.a.kinds[gc] is Node
            &&& exists|list: Seq<char>| #[trigger] lists_and_tests(q[3], q[4], p.b, x, y, list)
            &&& p.b.vars.contains(y)
            &&& p.tail.chain.vars.len() == 3 && p.tail.chain.vars[0] == x && p.tail.chain.vars[1]
                == y && p.b.vars.contains(p.tail.chain.vars[2]) && p.tail.chain.vars[2] != x
                && p.tail.chain.vars[2] != y
        }),
        q[5] matches ClauseV::With { proj, where_ } && q[6] matches ClauseV::Return { proj: rp }
            && agg_back(p.tail, p.tail.chain, proj, Some((where_, rp))),
{
    let (p1, w1) = as_match(q[0])->0;
    let (carry, _) = as_with(q[1])->0;
    let (pa, wa) = as_match(q[2])->0;
    let (list, _) = as_with(q[3])->0;
    let (pc, wc) = member_posts::as_optional(q[4])->0;
    let (agg, having) = as_with(q[5])->0;
    let rp = as_return(q[6])->0;
    assert(q[0] is Match && q[2] is Match && q[4] is Match && q[5] is With);
    let c = p.carry;
    stage_law::law_scan_reads_back(p1, w1, crate::join_plan::anchor_allow(), p.s1);
    stage_law::law_carry_reads_back(carry, p.s1.vars, p.s1.kinds, p.s1.labels, c);
    lemma_leg(pa, wa, c.vars, c.kinds, c.labels, p.a, p.a_where);
    let x = c.vars[0];
    names::lemma_position(p.a.vars, x);
    let gc = member_posts::group_col(p.a, x)->0;
    assert(member_posts::sole_node(p.a, x, gc));
    let y = p.a.vars[gc];
    let l = member_posts::collected_per(list, x, y)->0;
    assert(lists_per(list, x, y, l)) by {
        if member_posts::keeps(list.items[0], y) {
            assert(list.items[0].expr.head == HeadV::Var(y) && list.items[1].expr.head is Call);
        } else {
            assert(list.items[1].expr.head == HeadV::Var(y) && list.items[0].expr.head is Call);
        }
    }
    read_back_law::law_bound_steps_read_back(pc, c.vars, c.kinds, c.labels, plain_allow(), p.b);
    stage_law::lemma_asks_nothing(
        crate::chain::before(c.vars, c.kinds, c.labels),
        pc,
        false,
        pc.paths.len(),
        plain_allow(),
    );
    assert(lists_and_tests(q[3], q[4], p.b, x, y, l));
    let tc = member_posts::third_col(p.b, x, y)->0;
    assert(member_posts::sole_third(p.b, x, y, tc));
    let chain = member_posts::triple_chain(
        (x, y, p.b.vars[tc]),
        (c.kinds[0], p.a.kinds[gc], p.b.kinds[tc]),
    );
    plan_law::law_aggregate_plan_is_projection(chain, agg, Some((having, rp)), p.tail);
}

} // verus!
