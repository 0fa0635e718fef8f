//! Queries of two stages.

use vstd::prelude::*;

use crate::ast;
use crate::ast::{Expr, ExprV, Head, HeadV};
use crate::carry::{breaker_tail, build_breaker_tail, build_return_tail, carry_of, pipeline_carry, recognise_scan, return_tail, scan_of, Scan, ScanV, StageTail, StageTailV};
use crate::chain::{bound_hops, collect_hops, Allow, HopsV};
use crate::distinct::has_varlen;
use crate::hop;
use crate::hop::{copy_all, Hop, StepHop};
use crate::legs::{one_where, single_where, steps_have_varlen};
use crate::names;
use crate::names::copy_names;
use crate::plan::{varlen_distinct_consumed, varlen_ok};
use crate::preds;
use crate::preds::{recognise_single_var_where, where_pred, Chain, ChainV, WherePred, WhereV};
use crate::query::{Clause, ClauseV, ItemV, Pattern, PatternV, ProjItem, ProjV, Projection, SingleQuery};
use crate::seqs;

verus! {

/// The variable whose distinct values a projection collects into a list that
/// is unwound straight back into it.
pub open spec fn collected_var(proj: ProjV, e: ExprV, alias: Seq<char>) -> Option<Seq<char>> {
    if proj.distinct || proj.star || proj.order.len() > 0 || proj.skip is Some || proj.limit is Some
        || proj.items.len() != 1 {
        None
    } else {
        let it = proj.items[0];
        match (it.alias, it.expr.head) {
            (
                Some(list),
                HeadV::Call(f),
            ) => if f.name == "collect"@ && f.distinct && !f.star && it.expr.args.len() == 1
                && ast::as_var(it.expr.args[0]) == Some(alias) && ast::as_var(e) == Some(list) {
                Some(alias)
            } else {
                None
            },
            _ => None,
        }
    }
}

fn is_var(e: &Expr, x: &String) -> (b: bool)
    ensures
        b == (ast::as_var(e.v()) == Some(x@)),
{
    match &e.head {
        Head::Var(y) => *y == *x,
        _ => false,
    }
}

/// The variable whose distinct values a projection collects into a list that
/// is unwound straight back into it.
pub fn collect_distinct_unwind_var(proj: &Projection, e: &Expr, alias: &String) -> (r: Option<
    String,
>)
    ensures
        match r {
            Some(x) => collected_var(proj.v(), e.v(), alias@) == Some(x@),
            None => collected_var(proj.v(), e.v(), alias@) is None,
        },
{
    if proj.distinct || proj.star || proj.order.len() > 0 || proj.skip.is_some()
        || proj.limit.is_some() || proj.items.len() != 1 {
        return None;
    }
    assert(proj.v().items[0] == proj.items@[0].v());
    let it = &proj.items[0];
    match (&it.alias, &it.expr.head) {
        (Some(list), Head::Call(f)) => {
            if f.name != "collect".to_owned() || !f.distinct || f.star || it.expr.args.len() != 1 {
                return None;
            }
            assert(it.expr.v().args[0] == it.expr.args@[0].v());
            if is_var(&it.expr.args[0], alias) && is_var(e, list) {
                Some(alias.clone())
            } else {
                None
            }
        },
        _ => None,
    }
}

/// The projection that keeps the distinct values of a variable.
pub open spec fn distinct_var(x: Seq<char>) -> ProjV {
    ProjV {
        distinct: true,
        star: false,
        items: seq![ItemV { expr: ast::var_v(x), alias: None, text: None, default_name: x }],
        order: Seq::empty(),
        skip: None,
        limit: None,
        distinct_vars: seq![x],
    }
}

/// The projection that keeps the distinct values of a variable.
pub fn distinct_projection(x: &String) -> (r: Projection)
    ensures
        r.v() == distinct_var(x@),
{
    let mut items: Vec<ProjItem> = Vec::new();
    let it = ProjItem { expr: Expr::var(x), alias: None, text: None, default_name: x.clone() };
    items.push(it);
    let mut distinct_vars: Vec<String> = Vec::new();
    distinct_vars.push(x.clone());
    let r = Projection {
        distinct: true,
        star: false,
        items,
        order: Vec::new(),
        skip: None,
        limit: None,
        distinct_vars,
    };
    assert(r.v().items =~= distinct_var(x@).items);
    assert(r.v().order =~= Seq::empty());
    assert(r.v().distinct_vars =~= seq![x@]);
    r
}

/// The parts of a query of two stages.
pub struct StemV {
    pub p1: PatternV,
    pub w1: Option<ExprV>,
    /// What is handed from the first stage to the second.
    pub carry: ProjV,
    pub p2: PatternV,
    pub w2: Option<ExprV>,
    /// A grouping projection before the return, and its condition.
    pub breaker: Option<(ProjV, Option<ExprV>)>,
    pub rp: ProjV,
}

/// The projection and condition of a clause, if it is one.
pub open spec fn as_with(c: ClauseV) -> Option<(ProjV, Option<ExprV>)> {
    match c {
        ClauseV::With { proj, where_ } => Some((proj, where_)),
        _ => None,
    }
}

/// The pattern and condition of a clause, if it is a match that must succeed.
pub open spec fn as_match(c: ClauseV) -> Option<(PatternV, Option<ExprV>)> {
    match c {
        ClauseV::Match { optional: false, pattern, where_ } => Some((pattern, where_)),
        _ => None,
    }
}

/// The projection of a clause, if it is a return.
pub open spec fn as_return(c: ClauseV) -> Option<ProjV> {
    match c {
        ClauseV::Return { proj } => Some(proj),
        _ => None,
    }
}

/// What is handed on by the clauses after the first match, and how many they
/// are: a projection, or a collected list and its unwinding.
pub open spec fn handed(q: Seq<ClauseV>) -> Option<(ProjV, nat)> {
    match as_with(q[1]) {
        Some((proj, None)) => match q[2] {
            ClauseV::Unwind { expr, alias } => match collected_var(proj, expr, alias) {
                Some(x) => Some((distinct_var(x), 2)),
                None => None,
            },
            _ => Some((proj, 1)),
        },
        _ => None,
    }
}

/// The parts of a query of two stages.
pub open spec fn stem_of(q: Seq<ClauseV>) -> Option<StemV> {
    if q.len() < 4 {
        None
    } else {
        match (as_match(q[0]), handed(q)) {
            (Some((p1, w1)), Some((carry, n))) => {
                let at = 1 + n as int;
                let rest = q.len() - at;
                if rest == 2 {
                    match (as_match(q[at]), as_return(q[at + 1])) {
                        (Some((p2, w2)), Some(rp)) => Some(
                            StemV { p1, w1, carry, p2, w2, breaker: None, rp },
                        ),
                        _ => None,
                    }
                } else if rest == 3 {
                    match (as_match(q[at]), as_with(q[at + 1]), as_return(q[at + 2])) {
                        (Some((p2, w2)), Some(b), Some(rp)) => Some(
                            StemV { p1, w1, carry, p2, w2, breaker: Some(b), rp },
                        ),
                        _ => None,
                    }
                } else {
                    None
                }
            },
            _ => None,
        }
    }
}

struct Stem<'a> {
    p1: &'a Pattern,
    w1: &'a Option<Expr>,
    carry: Projection,
    p2: &'a Pattern,
    w2: &'a Option<Expr>,
    breaker: Option<(&'a Projection, &'a Option<Expr>)>,
    rp: &'a Projection,
}

impl<'a> Stem<'a> {
    spec fn v(self) -> StemV {
        StemV {
            p1: self.p1.v(),
            w1: ast::opt_v(*self.w1),
            carry: self.carry.v(),
            p2: self.p2.v(),
            w2: ast::opt_v(*self.w2),
            breaker: match self.breaker {
                Some((p, w)) => Some((p.v(), ast::opt_v(*w))),
                None => None,
            },
            rp: self.rp.v(),
        }
    }
}

/// The projection and condition of a clause, if it is one.
pub fn get_with(c: &Clause) -> (r: Option<(&Projection, &Option<Expr>)>)
    ensures
        match r {
            Some((p, w)) => as_with(c.v()) == Some((p.v(), ast::opt_v(*w))),
            None => as_with(c.v()) is None,
        },
{
    match c {
        Clause::With { proj, where_ } => Some((proj, where_)),
        _ => None,
    }
}

/// The pattern and condition of a clause, if it is a match that must succeed.
pub fn get_match(c: &Clause) -> (r: Option<(&Pattern, &Option<Expr>)>)
    ensures
        match r {
            Some((p, w)) => as_match(c.v()) == Some((p.v(), ast::opt_v(*w))),
            None => as_match(c.v()) is None,
        },
{
    match c {
        Clause::Match { optional: false, pattern, where_ } => Some((pattern, where_)),
        _ => None,
    }
}

/// The projection of a clause, if it is a return.
pub fn get_return(c: &Clause) -> (r: Option<&Projection>)
    ensures
        match r {
            Some(p) => as_return(c.v()) == Some(p.v()),
            None => as_return(c.v()) is None,
        },
{
    match c {
        Clause::Return { proj } => Some(proj),
        _ => None,
    }
}

fn find_handed(q: &SingleQuery) -> (r: Option<(Projection, usize)>)
    requires
        q.clauses@.len() >= 4,
    ensures
        match r {
            Some((p, n)) => handed(q.v()) == Some((p.v(), n as nat)) && n <= 2,
            None => handed(q.v()) is None,
        },
{
    assert(q.v()[1] == q.clauses@[1].v());
    assert(q.v()[2] == q.clauses@[2].v());
    match get_with(&q.clauses[1]) {
        Some((proj, None)) => match &q.clauses[2] {
            Clause::Unwind { expr, alias } => match collect_distinct_unwind_var(proj, expr, alias) {
                Some(x) => Some((distinct_projection(&x), 2)),
                None => None,
            },
            _ => Some((proj.copy(), 1)),
        },
        _ => None,
    }
}

fn find_stem<'a>(q: &'a SingleQuery) -> (r: Option<Stem<'a>>)
    ensures
        match r {
            Some(s) => stem_of(q.v()) == Some(s.v()),
            None => stem_of(q.v()) is None,
        },
{
    if q.clauses.len() < 4 {
        return None;
    }
    assert(q.v()[0] == q.clauses@[0].v());
    let (p1, w1) = match get_match(&q.clauses[0]) {
        Some(x) => x,
        None => {
            return None;
        },
    };
    let (carry, n) = match find_handed(q) {
        Some(x) => x,
        None => {
            return None;
        },
    };
    let at: usize = 1 + n;
    let rest: usize = q.clauses.len() - at;
    if rest != 2 && rest != 3 {
        return None;
    }
    assert(q.v()[at as int] == q.clauses@[at as int].v());
    assert(q.v()[at + 1] == q.clauses@[at + 1].v());
    let (p2, w2) = match get_match(&q.clauses[at]) {
        Some(x) => x,
        None => {
            return None;
        },
    };
    if rest == 2 {
        match get_return(&q.clauses[at + 1]) {
            Some(rp) => Some(Stem { p1, w1, carry, p2, w2, breaker: None, rp }),
            None => None,
        }
    } else {
        assert(q.v()[at + 2] == q.clauses@[at + 2].v());
        match (get_with(&q.clauses[at + 1]), get_return(&q.clauses[at + 2])) {
            (Some(b), Some(rp)) => Some(Stem { p1, w1, carry, p2, w2, breaker: Some(b), rp }),
            _ => None,
        }
    }
}

/// A query of two stages.
#[derive(Debug)]
pub struct MultiStagePlan {
    pub s1: Scan,
    pub carried: Vec<usize>,
    pub distinct: bool,
    pub s2_hops: Vec<Hop>,
    pub s2_wheres: Vec<WherePred>,
    pub tail: StageTail,
}

/// A [`MultiStagePlan`].
pub struct MultiV {
    pub s1: ScanV,
    pub carried: Seq<usize>,
    pub distinct: bool,
    pub s2_hops: Seq<StepHop>,
    pub s2_wheres: Seq<WhereV>,
    pub tail: StageTailV,
}

impl MultiStagePlan {
    pub open spec fn v(self) -> MultiV {
        MultiV {
            s1: self.s1.v(),
            carried: self.carried@,
            distinct: self.distinct,
            s2_hops: hop::steps_v(self.s2_hops@),
            s2_wheres: preds::wheres_v(self.s2_wheres@),
            tail: self.tail.v(),
        }
    }
}

/// A condition as one filter and then property equalities, a filter each.
pub open spec fn then_anchors(
    w: Option<ExprV>,
    anchors: Seq<ExprV>,
    vars: Seq<Seq<char>>,
) -> Option<Seq<WhereV>> {
    match (one_where(w, vars), seqs::try_map(anchors, |a: ExprV| where_pred(a, vars))) {
        (Some(Some(p)), Some(ps)) => Some(seq![p] + ps),
        (Some(None), Some(ps)) => Some(ps),
        _ => None,
    }
}

/// A condition as one filter and then property equalities, a filter each.
pub fn where_then_anchors(w: &Option<Expr>, anchors: &Vec<Expr>, vars: &Vec<String>) -> (r: Option<
    Vec<WherePred>,
>)
    ensures
        match r {
            Some(ps) => then_anchors(ast::opt_v(*w), ast::exprs_v(anchors@), names::of(vars@))
                == Some(preds::wheres_v(ps@)),
            None => then_anchors(
                ast::opt_v(*w),
                ast::exprs_v(anchors@),
                names::of(vars@),
            ) is None,
        },
{
    let ghost vs = names::of(vars@);
    let ghost as_ = ast::exprs_v(anchors@);
    let ghost f = |a: ExprV| where_pred(a, vs);
    let mut r: Vec<WherePred> = Vec::new();
    match single_where(w, vars) {
        Some(Some(p)) => {
            r.push(p);
        },
        Some(None) => {},
        None => {
            return None;
        },
    }
    let ghost first = r@;
    let mut i: usize = 0;
    while i < anchors.len()
        invariant
            i <= anchors@.len(),
            vs == names::of(vars@),
            as_ == ast::exprs_v(anchors@),
            f == (|a: ExprV| where_pred(a, vs)),
            first.len() <= 1,
            r@.len() == first.len() + i,
            forall|j: int| 0 <= j < first.len() ==> r@[j] == first[j],
            forall|j: int| 0 <= j < i ==> f(#[trigger] as_[j]) == Some(r@[first.len() + j].v()),
        decreases anchors.len() - i,
    {
        assert(as_[i as int] == anchors@[i as int].v());
        match recognise_single_var_where(&anchors[i], vars) {
            None => {
                assert(f(as_[i as int]) is None);
                return None;
            },
            Some(p) => {
                r.push(p);
            },
        }
        i = i + 1;
    }
    proof {
        let ps = as_.map_values(|a: ExprV| f(a)->0);
        if first.len() == 0 {
            assert(preds::wheres_v(r@) =~= ps);
        } else {
            assert(preds::wheres_v(r@) =~= seq![first[0].v()] + ps);
        }
    }
    Some(r)
}

/// What the first stage may use of its pattern.
pub open spec fn first_allow() -> Allow {
    Allow { hopless: true, start: true, node: false }
}

/// What a later stage may use of its pattern.
pub open spec fn later_allow() -> Allow {
    Allow { hopless: false, start: false, node: true }
}

/// The chain over which a later stage's tail is planned.
pub open spec fn stage_chain(h: HopsV) -> ChainV {
    ChainV {
        a_labels: h.a_labels,
        a_var: h.a_var,
        hops: h.hops,
        vars: h.vars,
        kinds: h.kinds,
        wheres: Seq::empty(),
        start_anchor: None,
    }
}

/// The query of two stages that parts make up.
pub open spec fn stem_plan(s: StemV) -> Option<MultiV> {
    match scan_of(s.p1, s.w1, first_allow()) {
        None => None,
        Some(s1) => if !varlen_ok(s1.hops, s.carry) {
            None
        } else {
            match carry_of(s.carry, s1.vars, s1.kinds, s1.labels) {
                None => None,
                Some(c) => match bound_hops(s.p2, c.vars, c.kinds, c.labels, later_allow()) {
                    None => None,
                    Some(h) => if has_varlen(h.hops) {
                        None
                    } else {
                        match (
                            then_anchors(s.w2, h.node_anchors, h.vars),
                            match s.breaker {
                                Some((proj, having)) => breaker_tail(
                                    stage_chain(h),
                                    proj,
                                    having,
                                    s.rp,
                                ),
                                None => return_tail(stage_chain(h), s.rp),
                            },
                        ) {
                            (Some(s2_wheres), Some(tail)) => Some(
                                MultiV {
                                    s1,
                                    carried: c.carried,
                                    distinct: c.distinct,
                                    s2_hops: h.hops,
                                    s2_wheres,
                                    tail,
                                },
                            ),
                            _ => None,
                        }
                    },
                },
            }
        },
    }
}

/// The query of two stages that a query is.
pub open spec fn multistage_of(q: Seq<ClauseV>) -> Option<MultiV> {
    match stem_of(q) {
        Some(s) => stem_plan(s),
        None => None,
    }
}

/// A query of two stages that may be missing.
pub open spec fn multi_opt(p: Option<MultiStagePlan>) -> Option<MultiV> {
    match p {
        Some(p) => Some(p.v()),
        None => None,
    }
}

fn chain_over(h: &crate::chain::Hops) -> (c: Chain)
    ensures
        c.v() == stage_chain(h.v()),
{
    let wheres: Vec<WherePred> = Vec::new();
    assert(preds::wheres_v(wheres@) =~= Seq::empty());
    Chain {
        a_labels: copy_names(&h.a_labels),
        a_var: h.a_var.clone(),
        hops: copy_all(&h.hops),
        vars: copy_names(&h.vars),
        kinds: crate::chunk::copy_kinds(&h.kinds),
        wheres,
        start_anchor: None,
    }
}

/// The query of two stages that a query is: a match, what it hands on, a match
/// that starts from it, and a tail.
pub fn recognise_multistage(q: &SingleQuery) -> (r: Option<MultiStagePlan>)
    ensures
        multi_opt(r) == multistage_of(q.v()),
{
    let s = match find_stem(q) {
        Some(s) => s,
        None => {
            return None;
        },
    };
    let s1 = match recognise_scan(
        s.p1,
        s.w1,
        Allow { hopless: true, start: true, node: false },
    ) {
        Some(x) => x,
        None => {
            return None;
        },
    };
    if !varlen_distinct_consumed(&s1.hops, &s.carry) {
        return None;
    }
    let c = match pipeline_carry(&s.carry, &s1.vars, &s1.kinds, &s1.labels) {
        Some(c) => c,
        None => {
            return None;
        },
    };
    let h = match collect_hops(
        s.p2,
        Some(&c.bound),
        Allow { hopless: false, start: false, node: true },
    ) {
        Some(h) => h,
        None => {
            return None;
        },
    };
    if steps_have_varlen(&h.hops) {
        return None;
    }
    let s2_wheres = match where_then_anchors(s.w2, &h.node_anchors, &h.vars) {
        Some(w) => w,
        None => {
            return None;
        },
    };
    let chain = chain_over(&h);
    let tail = match s.breaker {
        Some((proj, having)) => build_breaker_tail(chain, proj, ast::as_opt(having), s.rp),
        None => build_return_tail(chain, s.rp),
    };
    match tail {
        Some(tail) => Some(
            MultiStagePlan {
                s1,
                carried: c.carried,
                distinct: c.distinct,
                s2_hops: h.hops,
                s2_wheres,
                tail,
            },
        ),
        None => None,
    }
}

} // verus!
