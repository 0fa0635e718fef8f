//! Which plan answers a query.

use vstd::prelude::*;

use crate::aggregate::{aggregate_of, recognise_aggregate};
use crate::distinct::{distinct_of, recognise_distinct};
use crate::fuse::{define_all, projected_of, recognise_projected_aggregate};
use crate::join_plan::{join_of, multi_join_of, recognise_join, recognise_multistage_join, JoinPlan, JoinPlanV, MultiJoinV, MultiStageJoinPlan};
use crate::legs::{optional_of, recognise_optional, OptionalPlan, OptionalV};
use crate::levers;
use crate::levers::Levers;
use crate::member_posts::{member_posts_of, recognise_ic5, MemberPostsPlan, MemberPostsV};
use crate::multistage::{as_match, as_with, multistage_of, recognise_multistage, MultiStagePlan, MultiV};
use crate::plan::{core_of, recognise_core, AggPlan, AggV, CorePlan, CoreV};
use crate::query::{ClauseV, SingleQuery};
use crate::stages::{last_match, match_count, pipeline_of, recognise_pipeline, PipelinePlan, PipelineV};

verus! {

/// A plan that answers a query.
#[derive(Debug)]
pub enum Planned {
    MemberPosts(MemberPostsPlan),
    Optional(OptionalPlan),
    MultiStage(MultiStagePlan),
    Projected(MultiStagePlan),
    MultiStageJoin(MultiStageJoinPlan),
    Join(JoinPlan),
    Pipeline(PipelinePlan),
    Aggregate(AggPlan),
    Distinct(AggPlan),
    Core(CorePlan),
}

/// A [`Planned`].
pub enum PlannedV {
    MemberPosts(MemberPostsV),
    Optional(OptionalV),
    MultiStage(MultiV),
    Projected(MultiV),
    MultiStageJoin(MultiJoinV),
    Join(JoinPlanV),
    Pipeline(PipelineV),
    Aggregate(AggV),
    Distinct(AggV),
    Core(CoreV),
}

impl Planned {
    pub open spec fn v(self) -> PlannedV {
        match self {
            Planned::MemberPosts(p) => PlannedV::MemberPosts(p.v()),
            Planned::Optional(p) => PlannedV::Optional(p.v()),
            Planned::MultiStage(p) => PlannedV::MultiStage(p.v()),
            Planned::Projected(p) => PlannedV::Projected(p.v()),
            Planned::MultiStageJoin(p) => PlannedV::MultiStageJoin(p.v()),
            Planned::Join(p) => PlannedV::Join(p.v()),
            Planned::Pipeline(p) => PlannedV::Pipeline(p.v()),
            Planned::Aggregate(p) => PlannedV::Aggregate(p.v()),
            Planned::Distinct(p) => PlannedV::Distinct(p.v()),
            Planned::Core(p) => PlannedV::Core(p.v()),
        }
    }
}

/// A plan that may be missing.
pub open spec fn planned_opt(p: Option<Planned>) -> Option<PlannedV> {
    match p {
        Some(p) => Some(p.v()),
        None => None,
    }
}

/// The plan of the members and posts of groups.
#[verifier::opaque]
pub open spec fn as_member_posts(q: Seq<ClauseV>) -> Option<PlannedV> {
    match member_posts_of(q) {
        Some(p) => Some(PlannedV::MemberPosts(p)),
        None => None,
    }
}

fn try_member_posts(q: &SingleQuery) -> (r: Option<Planned>)
    ensures
        planned_opt(r) == as_member_posts(q.v()),
{
    reveal(as_member_posts);
    match recognise_ic5(q) {
        Some(p) => Some(Planned::MemberPosts(p)),
        None => None,
    }
}

/// The plan of optional matches.
#[verifier::opaque]
pub open spec fn as_optional(q: Seq<ClauseV>, fold_on: bool) -> Option<PlannedV> {
    match optional_of(q, fold_on) {
        Some(p) => Some(PlannedV::Optional(p)),
        None => None,
    }
}

fn try_optional(q: &SingleQuery, levers: &Levers) -> (r: Option<Planned>)
    ensures
        planned_opt(r) == as_optional(q.v(), levers::count_fold_on(*levers)),
{
    reveal(as_optional);
    match recognise_optional(q, levers) {
        Some(p) => Some(Planned::Optional(p)),
        None => None,
    }
}

/// The plan of two stages.
#[verifier::opaque]
pub open spec fn as_multistage(q: Seq<ClauseV>) -> Option<PlannedV> {
    match multistage_of(q) {
        Some(p) => Some(PlannedV::MultiStage(p)),
        None => None,
    }
}

fn try_multistage(q: &SingleQuery) -> (r: Option<Planned>)
    ensures
        planned_opt(r) == as_multistage(q.v()),
{
    reveal(as_multistage);
    match recognise_multistage(q) {
        Some(p) => Some(Planned::MultiStage(p)),
        None => None,
    }
}

/// The plan of one stage and projections.
#[verifier::opaque]
pub open spec fn as_projected(q: Seq<ClauseV>) -> Option<PlannedV> {
    match projected_of(q) {
        Some(p) => Some(PlannedV::Projected(p)),
        None => None,
    }
}

fn try_projected(q: &SingleQuery) -> (r: Option<Planned>)
    ensures
        planned_opt(r) == as_projected(q.v()),
{
    reveal(as_projected);
    match recognise_projected_aggregate(q) {
        Some(p) => Some(Planned::Projected(p)),
        None => None,
    }
}

/// The plan of a stage and a join.
#[verifier::opaque]
pub open spec fn as_multi_join(q: Seq<ClauseV>) -> Option<PlannedV> {
    match multi_join_of(q) {
        Some(p) => Some(PlannedV::MultiStageJoin(p)),
        None => None,
    }
}

fn try_multi_join(q: &SingleQuery) -> (r: Option<Planned>)
    ensures
        planned_opt(r) == as_multi_join(q.v()),
{
    reveal(as_multi_join);
    match recognise_multistage_join(q) {
        Some(p) => Some(Planned::MultiStageJoin(p)),
        None => None,
    }
}

/// The plan of a join.
#[verifier::opaque]
pub open spec fn as_join(q: Seq<ClauseV>) -> Option<PlannedV> {
    match join_of(q) {
        Some(p) => Some(PlannedV::Join(p)),
        None => None,
    }
}

fn try_join(q: &SingleQuery) -> (r: Option<Planned>)
    ensures
        planned_opt(r) == as_join(q.v()),
{
    reveal(as_join);
    match recognise_join(q) {
        Some(p) => Some(Planned::Join(p)),
        None => None,
    }
}

/// The plan of several stages.
#[verifier::opaque]
pub open spec fn as_pipeline(q: Seq<ClauseV>) -> Option<PlannedV> {
    match pipeline_of(q) {
        Some(p) => Some(PlannedV::Pipeline(p)),
        None => None,
    }
}

fn try_pipeline(q: &SingleQuery) -> (r: Option<Planned>)
    ensures
        planned_opt(r) == as_pipeline(q.v()),
{
    reveal(as_pipeline);
    match recognise_pipeline(q) {
        Some(p) => Some(Planned::Pipeline(p)),
        None => None,
    }
}

/// The plan of groups.
#[verifier::opaque]
pub open spec fn as_aggregate(q: Seq<ClauseV>, fold_on: bool) -> Option<PlannedV> {
    match aggregate_of(q, fold_on) {
        Some(p) => Some(PlannedV::Aggregate(p)),
        None => None,
    }
}

fn try_aggregate(q: &SingleQuery, levers: &Levers) -> (r: Option<Planned>)
    ensures
        planned_opt(r) == as_aggregate(q.v(), levers::count_fold_on(*levers)),
{
    reveal(as_aggregate);
    match recognise_aggregate(q, levers) {
        Some(p) => Some(Planned::Aggregate(p)),
        None => None,
    }
}

/// The plan of distinct rows.
#[verifier::opaque]
pub open spec fn as_distinct(q: Seq<ClauseV>) -> Option<PlannedV> {
    match distinct_of(q) {
        Some(p) => Some(PlannedV::Distinct(p)),
        None => None,
    }
}

fn try_distinct(q: &SingleQuery) -> (r: Option<Planned>)
    ensures
        planned_opt(r) == as_distinct(q.v()),
{
    reveal(as_distinct);
    match recognise_distinct(q) {
        Some(p) => Some(Planned::Distinct(p)),
        None => None,
    }
}

/// The plan of plain rows.
#[verifier::opaque]
pub open spec fn as_core(q: Seq<ClauseV>) -> Option<PlannedV> {
    match core_of(q) {
        Some(p) => Some(PlannedV::Core(p)),
        None => None,
    }
}

fn try_core(q: &SingleQuery) -> (r: Option<Planned>)
    ensures
        planned_opt(r) == as_core(q.v()),
{
    reveal(as_core);
    match recognise_core(q) {
        Some(p) => Some(Planned::Core(p)),
        None => None,
    }
}

/// The plan that answers a query: that of the first shape that fits.
pub open spec fn planned(q: Seq<ClauseV>, fold_on: bool) -> Option<PlannedV> {
    if as_member_posts(q) is Some {
        as_member_posts(q)
    } else if as_optional(q, fold_on) is Some {
        as_optional(q, fold_on)
    } else if as_multistage(q) is Some {
        as_multistage(q)
    } else if as_projected(q) is Some {
        as_projected(q)
    } else if as_multi_join(q) is Some {
        as_multi_join(q)
    } else if as_join(q) is Some {
        as_join(q)
    } else if as_pipeline(q) is Some {
        as_pipeline(q)
    } else if as_aggregate(q, fold_on) is Some {
        as_aggregate(q, fold_on)
    } else if as_distinct(q) is Some {
        as_distinct(q)
    } else {
        as_core(q)
    }
}

/// The plan that answers a query: that of the first shape that fits.
pub fn plan_columnar(q: &SingleQuery, levers: &Levers) -> (r: Option<Planned>)
    ensures
        planned_opt(r) == planned(q.v(), levers::count_fold_on(*levers)),
{
    let r = try_member_posts(q);
    if r.is_some() {
        return r;
    }
    let r = try_optional(q, levers);
    if r.is_some() {
        return r;
    }
    let r = try_multistage(q);
    if r.is_some() {
        return r;
    }
    let r = try_projected(q);
    if r.is_some() {
        return r;
    }
    let r = try_multi_join(q);
    if r.is_some() {
        return r;
    }
    let r = try_join(q);
    if r.is_some() {
        return r;
    }
    let r = try_pipeline(q);
    if r.is_some() {
        return r;
    }
    let r = try_aggregate(q, levers);
    if r.is_some() {
        return r;
    }
    let r = try_distinct(q);
    if r.is_some() {
        return r;
    }
    try_core(q)
}

/// Whether a clause is a match that must match.
pub open spec fn is_match(c: ClauseV) -> bool {
    as_match(c) is Some
}

/// Whether a clause is an optional match.
pub open spec fn is_optional(c: ClauseV) -> bool {
    c matches ClauseV::Match { optional, .. } && optional
}

/// Whether a clause is a projection within a query.
pub open spec fn is_with(c: ClauseV) -> bool {
    as_with(c) is Some
}

proof fn lemma_member_posts_shape(q: Seq<ClauseV>)
    requires
        member_posts_of(q) is Some,
    ensures
        q.len() == 7,
        is_with(q[1]),
        is_match(q[2]),
        is_with(q[3]),
        is_optional(q[4]),
        is_with(q[5]),
        !is_match(q[6]),
{
}

proof fn lemma_optional_shape(q: Seq<ClauseV>, on: bool)
    requires
        optional_of(q, on) is Some,
    ensures
        q.len() >= 2,
        is_optional(q[1]),
{
}

proof fn lemma_multistage_shape(q: Seq<ClauseV>)
    requires
        multistage_of(q) is Some,
    ensures
        4 <= q.len() <= 6,
        is_with(q[1]),
        is_match(q[2]) || (!is_match(q[2]) && !is_with(q[2]) && is_match(q[3])),
        forall|i: int| 4 <= i < q.len() ==> !is_match(#[trigger] q[i]),
        is_match(q[2]) ==> !is_match(q[3]),
        forall|i: int| 2 <= i < q.len() ==> !is_optional(#[trigger] q[i]),
{
}

proof fn lemma_multi_join_shape(q: Seq<ClauseV>)
    requires
        multi_join_of(q) is Some,
    ensures
        q.len() == 5,
        is_with(q[1]),
        is_match(q[2]),
        is_match(q[3]),
        !is_match(q[4]),
{
}

proof fn lemma_join_shape(q: Seq<ClauseV>)
    requires
        join_of(q) is Some,
    ensures
        q.len() == 3,
        is_match(q[1]),
        !is_match(q[2]),
{
}

proof fn lemma_define_all(cs: Seq<ClauseV>)
    requires
        define_all(cs) is Some,
    ensures
        forall|i: int| 0 <= i < cs.len() ==> is_with(#[trigger] cs[i]),
    decreases cs.len(),
{
    if cs.len() > 0 {
        lemma_define_all(cs.drop_last());
        assert forall|i: int| 0 <= i < cs.len() implies is_with(#[trigger] cs[i]) by {
            if i < cs.len() - 1 {
                assert(cs.drop_last()[i] == cs[i]);
            }
        }
    }
}

proof fn lemma_projected_shape(q: Seq<ClauseV>)
    requires
        projected_of(q) is Some,
    ensures
        q.len() >= 4,
        is_with(q[1]),
        is_with(q[2]),
        forall|i: int| 1 <= i < q.len() ==> !is_match(#[trigger] q[i]),
{
    let n = q.len() as int;
    let mid = q.subrange(2, n - 2);
    lemma_define_all(mid);
    assert forall|i: int| 1 <= i < q.len() implies !is_match(#[trigger] q[i]) by {
        if 2 <= i < n - 2 {
            assert(mid[i - 2] == q[i]);
        }
    }
    if n > 4 {
        assert(mid[0] == q[2]);
    }
}

proof fn lemma_one_match(q: Seq<ClauseV>, n: nat)
    requires
        n <= q.len(),
        forall|i: int| 1 <= i < q.len() ==> !is_match(#[trigger] q[i]),
    ensures
        match_count(q, n) <= 1,
        n == 0 ==> match_count(q, n) == 0,
    decreases n,
{
    if n > 0 {
        lemma_one_match(q, (n - 1) as nat);
    }
}

proof fn lemma_pipeline_shape(q: Seq<ClauseV>)
    requires
        pipeline_of(q) is Some,
    ensures
        match_count(q, q.len()) >= 3,
        last_match(q, q.len()) % 2 == 1,
{
}

/// The shapes of more than one match do not overlap: at most one of the plans
/// over several matches or several projections answers a query, so that the
/// order in which they are tried does not matter.
pub proof fn law_shapes_are_disjoint(q: Seq<ClauseV>, on: bool)
    ensures
        member_posts_of(q) is Some ==> optional_of(q, on) is None && multistage_of(q) is None
            && projected_of(q) is None && multi_join_of(q) is None && join_of(q) is None
            && pipeline_of(q) is None,
        optional_of(q, on) is Some ==> multistage_of(q) is None && projected_of(q) is None
            && multi_join_of(q) is None && join_of(q) is None,
        multistage_of(q) is Some ==> projected_of(q) is None && multi_join_of(q) is None && join_of(
            q,
        ) is None && pipeline_of(q) is None,
        projected_of(q) is Some ==> multi_join_of(q) is None && join_of(q) is None && pipeline_of(q) is None,
        multi_join_of(q) is Some ==> join_of(q) is None && pipeline_of(q) is None,
        join_of(q) is Some ==> pipeline_of(q) is None,
{
    let a = member_posts_of(q) is Some;
    let b = optional_of(q, on) is Some;
    let c = multistage_of(q) is Some;
    let d = projected_of(q) is Some;
    let e = multi_join_of(q) is Some;
    let f = join_of(q) is Some;
    let p = pipeline_of(q) is Some;
    if a {
        lemma_member_posts_shape(q);
    }
    if b {
        lemma_optional_shape(q, on);
    }
    if c {
        lemma_multistage_shape(q);
    }
    if d {
        lemma_projected_shape(q);
    }
    if e {
        lemma_multi_join_shape(q);
    }
    if f {
        lemma_join_shape(q);
    }
    if p {
        lemma_pipeline_shape(q);
    }
    lemma_apart(q, a, b, c, d, e, f, p);
}

proof fn lemma_apart(
    q: Seq<ClauseV>,
    a: bool,
    b: bool,
    c: bool,
    d: bool,
    e: bool,
    f: bool,
    p: bool,
)
    requires
        a ==> q.len() == 7 && is_with(q[1]) && is_match(q[2]) && is_with(q[3]) && is_optional(q[4])
            && is_with(q[5]) && !is_match(q[6]),
        b ==> q.len() >= 2 && is_optional(q[1]),
        c ==> {
            &&& 4 <= q.len() <= 6
            &&& is_with(q[1])
            &&& is_match(q[2]) || (!is_match(q[2]) && !is_with(q[2]) && is_match(q[3]))
            &&& forall|i: int| 4 <= i < q.len() ==> !is_match(#[trigger] q[i])
            &&& is_match(q[2]) ==> !is_match(q[3])
        },
        d ==> {
            &&& q.len() >= 4
            &&& is_with(q[1])
            &&& is_with(q[2])
            &&& forall|i: int| 1 <= i < q.len() ==> !is_match(#[trigger] q[i])
        },
        e ==> q.len() == 5 && is_with(q[1]) && is_match(q[2]) && is_match(q[3]) && !is_match(q[4]),
        f ==> q.len() == 3 && is_match(q[1]) && !is_match(q[2]),
        p ==> match_count(q, q.len()) >= 3 && last_match(q, q.len()) % 2 == 1,
    ensures
        a ==> !b && !c && !d && !e && !f && !p,
        b ==> !c && !d && !e && !f,
        c ==> !d && !e && !f && !p,
        d ==> !e && !f && !p,
        e ==> !f && !p,
        f ==> !p,
{
    reveal_with_fuel(match_count, 8);
    reveal_with_fuel(last_match, 8);
    if d && p {
        lemma_one_match(q, q.len());
    }
}

} // verus!
