//! Queries that join two matches.

use vstd::prelude::*;

use crate::aggregate;
use crate::ast;
use crate::ast::{reads_only_var, reads_some, Expr, ExprV, Head};
use crate::carry::{carry_of, labels_of, pipeline_carry, recognise_scan, scan_of, Carry, CarryV, Scan, ScanV};
use crate::chain::{bound_hops, collect_hops, scan_hops, Allow, Hops, HopsV, Prebound};
use crate::distinct::has_varlen;
use crate::graph::VarKind;
use crate::hop::Hop;
use crate::join::extra_cols;
use crate::labels::LabelMap;
use crate::legs::{one_where, plain_allow, single_where, steps_have_varlen, where_v};
use crate::multistage::{as_match, as_return, as_with, get_match, get_return, get_with};
use crate::names;
use crate::names::{copy_names, has_name, name_index};
use crate::plan;
use crate::plan::{aggregate_over_chain, aggregate_plan, varlen_distinct_consumed, varlen_ok, AggForm, AggItem, AggItemV, AggPlan, AggV, FormV, KeyV, SingleVar, SiteV};
use crate::preds::{Chain, ChainV, WherePred, WhereV};
use crate::query;
use crate::query::{ClauseV, ItemV, Pattern, PatternV, ProjV, Projection, SingleQuery};
use crate::readset;
use crate::reroot::{reroot_single_path_at, rerooted};

verus! {

/// Whether an aggregate comes out the same in any row order.
pub open spec fn unordered(s: SiteV) -> bool {
    s.name == "count"@ || s.name == "min"@ || s.name == "max"@
}

/// Whether one item alone groups.
pub open spec fn sole_key(plans: Seq<AggItemV>, n: int, i: int) -> bool {
    &&& 0 <= i < n
    &&& plans[i] is Key
    &&& forall|j: int| 0 <= j < n && j != i ==> !(#[trigger] plans[j] is Key)
}

/// Whether a sort key reads the grouped variable and no other.
pub open spec fn reads_group(e: ExprV, k: KeyV, vars: Seq<Seq<char>>) -> bool {
    k.kind matches SingleVar::Node(v) && ast::reads_any(e) && ast::reads_one(e, vars[v as int])
}

/// Whether a sort key is the grouping item, by its expression or its alias.
pub open spec fn is_item(e: ExprV, it: ItemV) -> bool {
    e == it.expr || (ast::as_var(e) is Some && it.alias == ast::as_var(e))
}

/// The smaller of two lengths.
pub open spec fn shorter(a: nat, b: nat) -> int {
    if a < b {
        a as int
    } else {
        b as int
    }
}

/// Whether the last sort key of groups tells them apart.
pub open spec fn last_key_ok(p: AggV) -> bool {
    let k = p.group_keys[0];
    match p.form {
        FormV::Return(proj) => {
            let n = shorter(proj.items.len(), p.agg_items.len());
            proj.order.len() > 0 && exists|i: int|
                #[trigger] sole_key(p.agg_items, n, i) && (is_item(
                    proj.order.last().expr,
                    proj.items[i],
                ) || reads_group(proj.order.last().expr, k, p.chain.vars))
        },
        FormV::With { return_proj, .. } => return_proj.order.len() > 0 && (
        return_proj.order.last().expr == k.expr || reads_group(
            return_proj.order.last().expr,
            k,
            p.chain.vars,
        )),
    }
}

/// Whether a grouping tail comes out the same in any row order: its aggregates
/// do, and it makes one group or sorts by its one key last.
pub open spec fn order_safe(p: AggV) -> bool {
    &&& forall|i: int| 0 <= i < p.sites.len() ==> unordered(#[trigger] p.sites[i])
    &&& p.group_keys.len() == 0 || (p.group_keys.len() == 1 && last_key_ok(p))
}

fn group_read(e: &Expr, kind: SingleVar, vars: &Vec<String>, k: Ghost<KeyV>) -> (b: bool)
    requires
        k@.kind == kind,
        plan::kind_var(kind) matches Some(v) ==> v < vars@.len(),
    ensures
        b == reads_group(e.v(), k@, names::of(vars@)),
{
    match kind {
        SingleVar::Node(v) => reads_some(e) && reads_only_var(e, &vars[v]),
        _ => false,
    }
}

fn find_sole(plans: &Vec<AggItem>, n: usize) -> (r: Option<usize>)
    requires
        n <= plans@.len(),
    ensures
        match r {
            Some(i) => sole_key(plan::agg_items_v(plans@), n as int, i as int),
            None => forall|i: int| !#[trigger] sole_key(plan::agg_items_v(plans@), n as int, i),
        },
{
    let ghost ps = plan::agg_items_v(plans@);
    let mut found: Option<usize> = None;
    let mut i: usize = 0;
    while i < n
        invariant
            i <= n <= plans@.len(),
            ps == plan::agg_items_v(plans@),
            match found {
                Some(k) => k < i && ps[k as int] is Key && forall|j: int|
                    0 <= j < i && j != k ==> !(#[trigger] ps[j] is Key),
                None => forall|j: int| 0 <= j < i ==> !(#[trigger] ps[j] is Key),
            },
        decreases n - i,
    {
        assert(ps[i as int] == plans@[i as int].v());
        if matches!(plans[i], AggItem::Key) {
            match found {
                Some(k) => {
                    proof {
                        assert forall|m: int| !#[trigger] sole_key(ps, n as int, m) by {
                            if sole_key(ps, n as int, m) {
                                if m != k {
                                    assert(ps[k as int] is Key);
                                } else {
                                    assert(ps[i as int] is Key);
                                }
                            }
                        }
                    }
                    return None;
                },
                None => {
                    found = Some(i);
                },
            }
        }
        i = i + 1;
    }
    found
}

fn item_is(e: &Expr, it: &query::ProjItem) -> (b: bool)
    ensures
        b == is_item(e.v(), it.v()),
{
    if e.same(&it.expr) {
        return true;
    }
    match (&e.head, &it.alias) {
        (Head::Var(x), Some(a)) => *x == *a,
        _ => false,
    }
}

fn last_sorts(p: &AggPlan) -> (b: bool)
    requires
        readset::tail_wf(p.v()),
        p.group_keys@.len() == 1,
    ensures
        b == last_key_ok(p.v()),
{
    let ghost pv = p.v();
    let k = &p.group_keys[0];
    assert(pv.group_keys[0] == p.group_keys@[0].v());
    match &p.form {
        AggForm::Return(proj) => {
            if proj.order.len() == 0 {
                return false;
            }
            let m: usize = proj.order.len() - 1;
            assert(proj.v().order[m as int] == proj.order@[m as int].v());
            let last = &proj.order[m].expr;
            let n: usize = if proj.items.len() < p.agg_items.len() {
                proj.items.len()
            } else {
                p.agg_items.len()
            };
            assert(n == shorter(proj.v().items.len(), pv.agg_items.len()));
            assert(pv.form == FormV::Return(proj.v()));
            assert(proj.v().order.last() == proj.order@[m as int].v());
            match find_sole(&p.agg_items, n) {
                None => false,
                Some(i) => {
                    assert(proj.v().items[i as int] == proj.items@[i as int].v());
                    let b = item_is(last, &proj.items[i]) || group_read(
                        last,
                        k.kind,
                        &p.chain.vars,
                        Ghost(k.v()),
                    );
                    proof {
                        assert(sole_key(pv.agg_items, n as int, i as int));
                        assert forall|j: int| #[trigger] sole_key(pv.agg_items, n as int, j) implies j
                            == i by {
                            if j != i {
                                assert(pv.agg_items[i as int] is Key);
                            }
                        }
                    }
                    b
                },
            }
        },
        AggForm::With { return_proj, .. } => {
            if return_proj.order.len() == 0 {
                return false;
            }
            let m: usize = return_proj.order.len() - 1;
            assert(return_proj.v().order[m as int] == return_proj.order@[m as int].v());
            let last = &return_proj.order[m].expr;
            assert(return_proj.v().order.last() == return_proj.order@[m as int].v());
            last.same(&k.expr) || group_read(last, k.kind, &p.chain.vars, Ghost(k.v()))
        },
    }
}

/// Whether a grouping tail comes out the same in any row order.
pub fn join_tail_order_safe(p: &AggPlan) -> (b: bool)
    requires
        readset::tail_wf(p.v()),
    ensures
        b == order_safe(p.v()),
{
    let mut i: usize = 0;
    while i < p.sites.len()
        invariant
            i <= p.sites@.len(),
            forall|j: int| 0 <= j < i ==> unordered(#[trigger] p.v().sites[j]),
        decreases p.sites.len() - i,
    {
        assert(p.v().sites[i as int] == p.sites@[i as int].v());
        let n = &p.sites[i].name;
        if *n != "count".to_owned() && *n != "min".to_owned() && *n != "max".to_owned() {
            return false;
        }
        i = i + 1;
    }
    if p.group_keys.len() == 0 {
        return true;
    }
    if p.group_keys.len() != 1 {
        return false;
    }
    last_sorts(p)
}

/// One side of a join, started from ids of a variable.
#[derive(Debug)]
pub struct Side {
    /// The column of the other side whose ids start this one.
    pub seed_from: usize,
    pub seed_var: String,
    /// Whether the carried ids start it in place of a column.
    pub from_carried: bool,
    pub bound: Hops,
    pub where_: Option<WherePred>,
}

/// A [`Side`].
pub struct SideV {
    pub seed_from: int,
    pub seed_var: Seq<char>,
    pub from_carried: bool,
    pub bound: HopsV,
    pub where_: Option<WhereV>,
}

impl Side {
    pub open spec fn v(self) -> SideV {
        SideV {
            seed_from: self.seed_from as int,
            seed_var: self.seed_var@,
            from_carried: self.from_carried,
            bound: self.bound.v(),
            where_: where_v(self.where_),
        }
    }
}

/// The steps of a pattern that starts at one bound variable.
pub open spec fn seeded_hops(
    p: PatternV,
    x: Seq<char>,
    kind: VarKind,
    labels: Map<Seq<char>, Seq<Seq<char>>>,
) -> Option<HopsV> {
    bound_hops(p, seq![x], seq![kind], labels_of(labels, seq![x]), plain_allow())
}

fn seed_one(x: &String, kind: VarKind, labels: &LabelMap) -> (r: Prebound)
    ensures
        names::of(r.vars@) == seq![x@],
        r.kinds@ == seq![kind],
        r.labels.v() == labels_of(labels.v(), seq![x@]),
{
    let mut vars: Vec<String> = Vec::new();
    vars.push(x.clone());
    let mut kinds: Vec<VarKind> = Vec::new();
    kinds.push(kind);
    assert(names::of(vars@) =~= seq![x@]);
    assert(kinds@ =~= seq![kind]);
    let labels = crate::carry::keep_labels(labels, &vars);
    Prebound { vars, kinds, labels }
}

/// The second side of a join, which starts at a variable of the first.
pub open spec fn second_side(p: PatternV, w: Option<ExprV>, a: HopsV) -> Option<SideV> {
    if p.paths.len() == 0 {
        None
    } else {
        match p.paths[0].start.var {
            None => None,
            Some(x) => match names::position(a.vars, x) {
                None => None,
                Some(i) => match seeded_hops(p, x, a.kinds[i], a.labels) {
                    None => None,
                    Some(h) => match one_where(w, h.vars) {
                        None => None,
                        Some(where_) => if has_varlen(h.hops) {
                            None
                        } else {
                            Some(
                                SideV {
                                    seed_from: i,
                                    seed_var: x,
                                    from_carried: false,
                                    bound: h,
                                    where_,
                                },
                            )
                        },
                    },
                },
            },
        }
    }
}

fn recognise_second(p: &Pattern, w: &Option<Expr>, a: &Hops) -> (r: Option<Side>)
    requires
        a.kinds@.len() == a.vars@.len(),
    ensures
        match r {
            Some(s) => second_side(p.v(), ast::opt_v(*w), a.v()) == Some(s.v())
                && s.bound.kinds@.len() == s.bound.vars@.len(),
            None => second_side(p.v(), ast::opt_v(*w), a.v()) is None,
        },
{
    if p.paths.len() == 0 {
        return None;
    }
    assert(p.v().paths[0] == p.paths@[0].v());
    let x = match &p.paths[0].start.var {
        Some(x) => x,
        None => {
            return None;
        },
    };
    let i = match name_index(&a.vars, x) {
        Some(i) => i,
        None => {
            return None;
        },
    };
    let pre = seed_one(x, a.kinds[i], &a.labels);
    proof {
        aggregate::lemma_pattern_fits(*p);
        aggregate::law_bound_steps_are_bound(
            p.v(),
            names::of(pre.vars@),
            pre.kinds@,
            pre.labels.v(),
            plain_allow(),
        );
    }
    let h = match collect_hops(
        p,
        Some(&pre),
        Allow { hopless: false, start: false, node: false },
    ) {
        Some(h) => h,
        None => {
            return None;
        },
    };
    let where_ = match single_where(w, &h.vars) {
        Some(w) => w,
        None => {
            return None;
        },
    };
    if steps_have_varlen(&h.hops) {
        return None;
    }
    Some(Side { seed_from: i, seed_var: x.clone(), from_carried: false, bound: h, where_ })
}

/// Whether two sides bind some variable in common, each such as the same kind.
pub open spec fn joinable(a: HopsV, b: HopsV) -> bool {
    &&& forall|i: int|
        0 <= i < a.vars.len() ==> (names::position(b.vars, #[trigger] a.vars[i]) matches Some(k)
            ==> a.kinds[i] == b.kinds[k])
    &&& exists|i: int| 0 <= i < a.vars.len() && b.vars.contains(#[trigger] a.vars[i])
}

fn is_joinable(a: &Hops, b: &Hops) -> (r: bool)
    requires
        a.kinds@.len() == a.vars@.len(),
        b.kinds@.len() == b.vars@.len(),
    ensures
        r == joinable(a.v(), b.v()),
{
    let ghost av = a.v();
    let ghost bv = b.v();
    let mut shared = false;
    let mut i: usize = 0;
    while i < a.vars.len()
        invariant
            i <= a.vars@.len(),
            av == a.v(),
            bv == b.v(),
            a.kinds@.len() == a.vars@.len(),
            b.kinds@.len() == b.vars@.len(),
            forall|j: int|
                0 <= j < i ==> (names::position(bv.vars, #[trigger] av.vars[j]) matches Some(k)
                    ==> av.kinds[j] == bv.kinds[k]),
            shared == (exists|j: int| 0 <= j < i && bv.vars.contains(#[trigger] av.vars[j])),
        decreases a.vars.len() - i,
    {
        assert(av.vars[i as int] == a.vars@[i as int]@);
        match name_index(&b.vars, &a.vars[i]) {
            Some(k) => {
                if a.kinds[i] != b.kinds[k] {
                    return false;
                }
                shared = true;
                assert(bv.vars.contains(av.vars[i as int]));
            },
            None => {
                assert(!bv.vars.contains(av.vars[i as int]));
            },
        }
        i = i + 1;
    }
    shared
}

/// The chain over the joined rows: the first side's variables, then the
/// second's that the first does not bind.
pub open spec fn joined_chain(a: HopsV, b: HopsV) -> ChainV {
    let extra = extra_cols(a.vars, b.vars);
    ChainV {
        a_labels: Seq::empty(),
        a_var: Seq::empty(),
        hops: Seq::empty(),
        vars: a.vars + extra.map_values(|i: usize| b.vars[i as int]),
        kinds: a.kinds + extra.map_values(|i: usize| b.kinds[i as int]),
        wheres: Seq::empty(),
        start_anchor: None,
    }
}

fn join_chain(a: &Hops, b: &Hops) -> (c: Chain)
    requires
        b.kinds@.len() == b.vars@.len(),
    ensures
        c.v() == joined_chain(a.v(), b.v()),
{
    let ghost va = a.v().vars;
    let ghost vb = b.v().vars;
    let ghost ka = a.kinds@;
    let ghost f = |i: usize| vb[i as int];
    let ghost g = |i: usize| b.kinds@[i as int];
    let mut vars = copy_names(&a.vars);
    let mut kinds = crate::chunk::copy_kinds(&a.kinds);
    let mut i: usize = 0;
    proof {
        assert(vb.take(0) =~= Seq::empty());
        assert(va + Seq::<usize>::empty().map_values(f) =~= va);
        assert(ka + Seq::<usize>::empty().map_values(g) =~= ka);
        assert(names::of(vars@) =~= va);
    }
    while i < b.vars.len()
        invariant
            i <= b.vars@.len(),
            b.kinds@.len() == b.vars@.len(),
            va == names::of(a.vars@),
            vb == names::of(b.vars@),
            ka == a.kinds@,
            f == (|i: usize| vb[i as int]),
            g == (|i: usize| b.kinds@[i as int]),
            names::of(vars@) == va + extra_cols(va, vb.take(i as int)).map_values(f),
            kinds@ == ka + extra_cols(va, vb.take(i as int)).map_values(g),
        decreases b.vars.len() - i,
    {
        let ghost d = extra_cols(va, vb.take(i as int));
        let ghost vars0 = names::of(vars@);
        proof {
            crate::seqs::lemma_take_last(vb, i as int);
            assert(vb[i as int] == b.vars@[i as int]@);
        }
        if !has_name(&a.vars, &b.vars[i]) {
            vars.push(b.vars[i].clone());
            kinds.push(b.kinds[i]);
            proof {
                assert(names::of(vars@) =~= vars0.push(vb[i as int]));
                assert(d.push(i).map_values(f) =~= d.map_values(f).push(vb[i as int]));
                assert(d.push(i).map_values(g) =~= d.map_values(g).push(b.kinds@[i as int]));
                assert(va + d.map_values(f).push(vb[i as int]) =~= (va + d.map_values(f)).push(
                    vb[i as int],
                ));
                assert(ka + d.map_values(g).push(b.kinds@[i as int]) =~= (ka + d.map_values(
                    g,
                )).push(b.kinds@[i as int]));
            }
        }
        i = i + 1;
    }
    assert(vb.take(i as int) =~= vb);
    let a_labels: Vec<String> = Vec::new();
    let hops: Vec<Hop> = Vec::new();
    let wheres: Vec<WherePred> = Vec::new();
    let c = Chain {
        a_labels,
        a_var: String::new(),
        hops,
        vars,
        kinds,
        wheres,
        start_anchor: None,
    };
    assert(c.v().a_labels =~= Seq::empty());
    assert(c.v().a_var =~= Seq::empty());
    assert(c.v().hops =~= Seq::empty());
    assert(c.v().wheres =~= Seq::empty());
    c
}

/// The grouping tail of joined rows, if it comes out the same in any order.
pub open spec fn joined_tail(a: HopsV, b: HopsV, proj: ProjV) -> Option<AggV> {
    if !joinable(a, b) {
        None
    } else {
        match aggregate_plan(joined_chain(a, b), proj, None) {
            Some(p) => if order_safe(p) {
                Some(p)
            } else {
                None
            },
            None => None,
        }
    }
}

fn join_tail(a: &Hops, b: &Hops, proj: &Projection) -> (r: Option<AggPlan>)
    requires
        a.kinds@.len() == a.vars@.len(),
        b.kinds@.len() == b.vars@.len(),
    ensures
        plan::agg_opt(r) == joined_tail(a.v(), b.v(), proj.v()),
{
    if !is_joinable(a, b) {
        return None;
    }
    let chain = join_chain(a, b);
    proof {
        assert(chain.vars@.len() == chain.vars.len());
        aggregate::lemma_agg_wf(chain.v(), proj.v(), None);
    }
    match aggregate_over_chain(chain, proj, None) {
        Some(p) => {
            if join_tail_order_safe(&p) {
                Some(p)
            } else {
                None
            }
        },
        None => None,
    }
}

/// Two matches that are joined and grouped.
#[derive(Debug)]
pub struct JoinPlan {
    pub a: Hops,
    pub a_where: Option<WherePred>,
    pub b: Side,
    pub tail: AggPlan,
}

/// A [`JoinPlan`].
pub struct JoinPlanV {
    pub a: HopsV,
    pub a_where: Option<WhereV>,
    pub b: SideV,
    pub tail: AggV,
}

impl JoinPlan {
    pub open spec fn v(self) -> JoinPlanV {
        JoinPlanV {
            a: self.a.v(),
            a_where: where_v(self.a_where),
            b: self.b.v(),
            tail: self.tail.v(),
        }
    }
}

/// The join of two matches that a query is.
pub open spec fn join_of(q: Seq<ClauseV>) -> Option<JoinPlanV> {
    if q.len() != 3 {
        None
    } else {
        match (as_match(q[0]), as_match(q[1]), as_return(q[2])) {
            (Some((pa, wa)), Some((pb, wb)), Some(proj)) => match scan_hops(pa, plain_allow()) {
                None => None,
                Some(a) => match (one_where(wa, a.vars), second_side(pb, wb, a)) {
                    (Some(a_where), Some(b)) => match joined_tail(a, b.bound, proj) {
                        Some(tail) => if has_varlen(a.hops) {
                            None
                        } else {
                            Some(JoinPlanV { a, a_where, b, tail })
                        },
                        None => None,
                    },
                    _ => None,
                },
            },
            _ => None,
        }
    }
}

/// A join that may be missing.
pub open spec fn join_opt(p: Option<JoinPlan>) -> Option<JoinPlanV> {
    match p {
        Some(p) => Some(p.v()),
        None => None,
    }
}

/// The join of two matches that a query is: the second starts at a variable of
/// the first, and the rows are grouped by a return whose result does not
/// depend on their order.
pub fn recognise_join(q: &SingleQuery) -> (r: Option<JoinPlan>)
    ensures
        join_opt(r) == join_of(q.v()),
{
    if q.clauses.len() != 3 {
        return None;
    }
    assert(q.v()[0] == q.clauses@[0].v());
    assert(q.v()[1] == q.clauses@[1].v());
    assert(q.v()[2] == q.clauses@[2].v());
    match (get_match(&q.clauses[0]), get_match(&q.clauses[1]), get_return(&q.clauses[2])) {
        (Some((pa, wa)), Some((pb, wb)), Some(proj)) => {
            let a = match collect_hops(
                pa,
                None,
                Allow { hopless: false, start: false, node: false },
            ) {
                Some(h) => h,
                None => {
                    return None;
                },
            };
            proof {
                aggregate::lemma_pattern_fits(*pa);
                aggregate::law_steps_are_bound(pa.v(), plain_allow());
            }
            let a_where = match single_where(wa, &a.vars) {
                Some(w) => w,
                None => {
                    return None;
                },
            };
            let b = match recognise_second(pb, wb, &a) {
                Some(b) => b,
                None => {
                    return None;
                },
            };
            if steps_have_varlen(&a.hops) {
                return None;
            }
            match join_tail(&a, &b.bound, proj) {
                Some(tail) => Some(JoinPlan { a, a_where, b, tail }),
                None => None,
            }
        },
        _ => None,
    }
}

/// A side with the steps `h` from the variable `x`, if it binds the same
/// variables as `fwd`; else `fwd`.
pub open spec fn swap_side(h: HopsV, w: Option<ExprV>, x: Seq<char>, fwd: SideV) -> SideV {
    if h.vars.len() == fwd.bound.vars.len() && (forall|i: int|
        0 <= i < h.vars.len() ==> fwd.bound.vars.contains(#[trigger] h.vars[i])) && !has_varlen(
        h.hops,
    ) {
        match one_where(w, h.vars) {
            Some(where_) => SideV {
                seed_from: 0,
                seed_var: x,
                from_carried: true,
                bound: h,
                where_,
            },
            None => fwd,
        }
    } else {
        fwd
    }
}

/// The second side started from the carried variable in place of the first
/// side's, where it ends there and binds the same variables.
pub open spec fn better_side(
    p: PatternV,
    w: Option<ExprV>,
    c: CarryV,
    anchored: bool,
    fwd: SideV,
) -> SideV {
    let x = c.vars[0];
    if anchored && x != fwd.seed_var && fwd.bound.vars.contains(x) {
        match rerooted(p, x) {
            Some(alt) => match seeded_hops(alt, x, c.kinds[0], c.labels) {
                Some(h) => swap_side(h, w, x, fwd),
                None => fwd,
            },
            None => fwd,
        }
    } else {
        fwd
    }
}

fn all_in(xs: &Vec<String>, ys: &Vec<String>) -> (b: bool)
    ensures
        b == (forall|i: int|
            0 <= i < xs@.len() ==> names::of(ys@).contains(#[trigger] names::of(xs@)[i])),
{
    let mut i: usize = 0;
    while i < xs.len()
        invariant
            i <= xs@.len(),
            forall|j: int| 0 <= j < i ==> names::of(ys@).contains(#[trigger] names::of(xs@)[j]),
        decreases xs.len() - i,
    {
        assert(names::of(xs@)[i as int] == xs@[i as int]@);
        if !has_name(ys, &xs[i]) {
            return false;
        }
        i = i + 1;
    }
    true
}

fn choose_side(p: &Pattern, w: &Option<Expr>, c: &Carry, anchored: bool, fwd: Side) -> (r: Side)
    requires
        c.bound.vars@.len() > 0,
        c.bound.kinds@.len() == c.bound.vars@.len(),
        fwd.bound.kinds@.len() == fwd.bound.vars@.len(),
    ensures
        r.v() == better_side(p.v(), ast::opt_v(*w), c.v(), anchored, fwd.v()),
        r.bound.kinds@.len() == r.bound.vars@.len(),
{
    let x = &c.bound.vars[0];
    assert(c.v().vars[0] == x@);
    if !anchored || *x == fwd.seed_var || !has_name(&fwd.bound.vars, x) {
        return fwd;
    }
    let alt = match reroot_single_path_at(p, x) {
        Some(a) => a,
        None => {
            return fwd;
        },
    };
    let pre = seed_one(x, c.bound.kinds[0], &c.bound.labels);
    proof {
        aggregate::lemma_pattern_fits(alt);
        aggregate::law_bound_steps_are_bound(
            alt.v(),
            names::of(pre.vars@),
            pre.kinds@,
            pre.labels.v(),
            plain_allow(),
        );
    }
    let h = match collect_hops(
        &alt,
        Some(&pre),
        Allow { hopless: false, start: false, node: false },
    ) {
        Some(h) => h,
        None => {
            return fwd;
        },
    };
    if h.vars.len() != fwd.bound.vars.len() || !all_in(&h.vars, &fwd.bound.vars)
        || steps_have_varlen(&h.hops) {
        return fwd;
    }
    match single_where(w, &h.vars) {
        Some(where_) => Side {
            seed_from: 0,
            seed_var: x.clone(),
            from_carried: true,
            bound: h,
            where_,
        },
        None => fwd,
    }
}

/// A stage that hands one variable to two matches that are joined and grouped.
#[derive(Debug)]
pub struct MultiStageJoinPlan {
    pub s1: Scan,
    pub carry: Carry,
    pub a: Hops,
    pub a_where: Option<WherePred>,
    pub b: Side,
    pub tail: AggPlan,
}

/// A [`MultiStageJoinPlan`].
pub struct MultiJoinV {
    pub s1: ScanV,
    pub carry: CarryV,
    pub a: HopsV,
    pub a_where: Option<WhereV>,
    pub b: SideV,
    pub tail: AggV,
}

impl MultiStageJoinPlan {
    pub open spec fn v(self) -> MultiJoinV {
        MultiJoinV {
            s1: self.s1.v(),
            carry: self.carry.v(),
            a: self.a.v(),
            a_where: where_v(self.a_where),
            b: self.b.v(),
            tail: self.tail.v(),
        }
    }
}

/// What the first stage may use of its pattern.
pub open spec fn anchor_allow() -> Allow {
    Allow { hopless: false, start: true, node: false }
}

/// The stage and the joined matches, up to the tail.
pub open spec fn multi_join_sides(
    p1: PatternV,
    w1: Option<ExprV>,
    carry: ProjV,
    pa: PatternV,
    wa: Option<ExprV>,
    pb: PatternV,
    wb: Option<ExprV>,
) -> Option<(ScanV, CarryV, HopsV, Option<WhereV>, SideV)> {
    match scan_of(p1, w1, anchor_allow()) {
        None => None,
        Some(s1) => match carry_of(carry, s1.vars, s1.kinds, s1.labels) {
            None => None,
            Some(c) => if !varlen_ok(s1.hops, carry) || c.vars.len() != 1 {
                None
            } else {
                match bound_hops(pa, c.vars, c.kinds, c.labels, plain_allow()) {
                    None => None,
                    Some(a) => match (one_where(wa, a.vars), second_side(pb, wb, a)) {
                        (Some(a_where), Some(fwd)) => if has_varlen(a.hops) {
                            None
                        } else {
                            Some(
                                (
                                    s1,
                                    c,
                                    a,
                                    a_where,
                                    better_side(pb, wb, c, s1.anchor is Some, fwd),
                                ),
                            )
                        },
                        _ => None,
                    },
                }
            },
        },
    }
}

/// The stage and the joined matches that a query is.
pub open spec fn multi_join_of(q: Seq<ClauseV>) -> Option<MultiJoinV> {
    if q.len() != 5 {
        None
    } else {
        match (as_match(q[0]), as_with(q[1]), as_match(q[2]), as_match(q[3]), as_return(q[4])) {
            (
                Some((p1, w1)),
                Some((carry, None)),
                Some((pa, wa)),
                Some((pb, wb)),
                Some(proj),
            ) => match multi_join_sides(p1, w1, carry, pa, wa, pb, wb) {
                None => None,
                Some((s1, c, a, a_where, b)) => match joined_tail(a, b.bound, proj) {
                    Some(tail) => Some(MultiJoinV { s1, carry: c, a, a_where, b, tail }),
                    None => None,
                },
            },
            _ => None,
        }
    }
}

/// A plan that may be missing.
pub open spec fn multi_join_opt(p: Option<MultiStageJoinPlan>) -> Option<MultiJoinV> {
    match p {
        Some(p) => Some(p.v()),
        None => None,
    }
}

struct Sides {
    s1: Scan,
    carry: Carry,
    a: Hops,
    a_where: Option<WherePred>,
    b: Side,
}

fn find_sides(
    p1: &Pattern,
    w1: &Option<Expr>,
    proj: &Projection,
    pa: &Pattern,
    wa: &Option<Expr>,
    pb: &Pattern,
    wb: &Option<Expr>,
) -> (r: Option<Sides>)
    ensures
        ({
            let want = multi_join_sides(
                p1.v(),
                ast::opt_v(*w1),
                proj.v(),
                pa.v(),
                ast::opt_v(*wa),
                pb.v(),
                ast::opt_v(*wb),
            );
            match r {
                Some(s) => want == Some(
                    (s.s1.v(), s.carry.v(), s.a.v(), where_v(s.a_where), s.b.v()),
                ) && s.a.kinds@.len() == s.a.vars@.len() && s.b.bound.kinds@.len()
                    == s.b.bound.vars@.len(),
                None => want is None,
            }
        }),
{
    let s1 = match recognise_scan(p1, w1, Allow { hopless: false, start: true, node: false }) {
        Some(s) => s,
        None => {
            return None;
        },
    };
    let c = match pipeline_carry(proj, &s1.vars, &s1.kinds, &s1.labels) {
        Some(c) => c,
        None => {
            return None;
        },
    };
    if !varlen_distinct_consumed(&s1.hops, proj) || c.bound.vars.len() != 1 {
        return None;
    }
    proof {
        aggregate::lemma_pattern_fits(*pa);
        aggregate::law_bound_steps_are_bound(
            pa.v(),
            names::of(c.bound.vars@),
            c.bound.kinds@,
            c.bound.labels.v(),
            plain_allow(),
        );
    }
    let a = match collect_hops(
        pa,
        Some(&c.bound),
        Allow { hopless: false, start: false, node: false },
    ) {
        Some(h) => h,
        None => {
            return None;
        },
    };
    let a_where = match single_where(wa, &a.vars) {
        Some(w) => w,
        None => {
            return None;
        },
    };
    let fwd = match recognise_second(pb, wb, &a) {
        Some(b) => b,
        None => {
            return None;
        },
    };
    if steps_have_varlen(&a.hops) {
        return None;
    }
    let b = choose_side(pb, wb, &c, s1.anchor.is_some(), fwd);
    Some(Sides { s1, carry: c, a, a_where, b })
}

/// The stage and the joined matches that a query is.
pub fn recognise_multistage_join(q: &SingleQuery) -> (r: Option<MultiStageJoinPlan>)
    ensures
        multi_join_opt(r) == multi_join_of(q.v()),
{
    if q.clauses.len() != 5 {
        return None;
    }
    assert(q.v()[0] == q.clauses@[0].v());
    assert(q.v()[1] == q.clauses@[1].v());
    assert(q.v()[2] == q.clauses@[2].v());
    assert(q.v()[3] == q.clauses@[3].v());
    assert(q.v()[4] == q.clauses@[4].v());
    match (
        get_match(&q.clauses[0]),
        get_with(&q.clauses[1]),
        get_match(&q.clauses[2]),
        get_match(&q.clauses[3]),
        get_return(&q.clauses[4]),
    ) {
        (Some((p1, w1)), Some((carry, None)), Some((pa, wa)), Some((pb, wb)), Some(proj)) => {
            match find_sides(p1, w1, carry, pa, wa, pb, wb) {
                None => None,
                Some(s) => match join_tail(&s.a, &s.b.bound, proj) {
                    Some(tail) => Some(
                        MultiStageJoinPlan {
                            s1: s.s1,
                            carry: s.carry,
                            a: s.a,
                            a_where: s.a_where,
                            b: s.b,
                            tail,
                        },
                    ),
                    None => None,
                },
            }
        },
        _ => None,
    }
}

} // verus!
