//! What a query of several stages shares: the scan that begins it, what one
//! stage hands to the next, and the tail that ends it.

use vstd::prelude::*;

use crate::aggregate;
use crate::ast;
use crate::ast::{conjuncts_of, reads_some, Expr, ExprV, Head, HeadV, Op};
use crate::chain::{collect_hops, scan_hops, Allow, Prebound};
use crate::distinct::{distinct_form_a_over_chain, distinct_over_chain, distinct_plan, distinct_with_plan};
use crate::graph::VarKind;
use crate::hop;
use crate::hop::{Hop, StepHop};
use crate::labels::LabelMap;
use crate::names;
use crate::names::{has_name, name_index};
use crate::plan;
use crate::plan::{aggregate_over_chain, aggregate_plan, core_over_chain, core_plan, AggPlan, AggV, CorePlan, CoreV};
use crate::preds;
use crate::preds::{combine_where, full_where, recognise_where_preds, where_preds, Chain, ChainV, WherePred, WhereV};
use crate::query;
use crate::query::{items_aggregate, ItemV, Pattern, PatternV, ProjItem, ProjV, Projection};
use crate::seqs;

verus! {

/// A property of the scanned variable and the values that it may have.
#[derive(Debug)]
pub struct PropAnchor {
    pub prop: String,
    pub values: Vec<Expr>,
}

/// A [`PropAnchor`].
pub struct AnchorV {
    pub prop: Seq<char>,
    pub values: Seq<ExprV>,
}

impl PropAnchor {
    pub open spec fn v(self) -> AnchorV {
        AnchorV { prop: self.prop@, values: ast::exprs_v(self.values@) }
    }
}

/// An anchor that may be missing.
pub open spec fn anchor_opt(a: Option<PropAnchor>) -> Option<AnchorV> {
    match a {
        Some(a) => Some(a.v()),
        None => None,
    }
}

/// The property of a variable that an expression is.
pub open spec fn prop_of(e: ExprV, x: Seq<char>) -> Option<Seq<char>> {
    match e.head {
        HeadV::Prop(k) => if e.args.len() == 1 && e.args[0].head == HeadV::Var(x) {
            Some(k)
        } else {
            None
        },
        _ => None,
    }
}

/// The property of a variable that an expression is.
pub(crate) fn own_prop<'a>(e: &'a Expr, x: &String) -> (r: Option<&'a String>)
    ensures
        match r {
            Some(k) => prop_of(e.v(), x@) == Some(k@),
            None => prop_of(e.v(), x@) is None,
        },
{
    match &e.head {
        Head::Prop(k) => {
            if e.args.len() != 1 {
                return None;
            }
            assert(e.v().args[0] == e.args@[0].v());
            match &e.args[0].head {
                Head::Var(y) => if *y == *x {
                    Some(k)
                } else {
                    None
                },
                _ => None,
            }
        },
        _ => None,
    }
}

/// Whether no one of some expressions reads a variable.
pub open spec fn var_free(es: Seq<ExprV>) -> bool {
    forall|i: int| 0 <= i < es.len() ==> !ast::reads_any(#[trigger] es[i])
}

fn all_var_free(es: &Vec<Expr>) -> (b: bool)
    ensures
        b == var_free(ast::exprs_v(es@)),
{
    let mut i: usize = 0;
    while i < es.len()
        invariant
            i <= es@.len(),
            forall|j: int| 0 <= j < i ==> !ast::reads_any(#[trigger] ast::exprs_v(es@)[j]),
        decreases es.len() - i,
    {
        assert(ast::exprs_v(es@)[i as int] == es@[i as int].v());
        if reads_some(&es[i]) {
            return false;
        }
        i = i + 1;
    }
    true
}

/// The values to which a conjunct fixes a property of a variable: `x.k = v`, or
/// `x.k IN [v, ..]`, where no value reads a variable.
pub open spec fn fixes(c: ExprV, x: Seq<char>) -> Option<AnchorV> {
    if c.args.len() != 2 {
        None
    } else {
        match prop_of(c.args[0], x) {
            None => None,
            Some(prop) => if c.head == HeadV::Op(Op::Eq) && !ast::reads_any(c.args[1]) {
                Some(AnchorV { prop, values: seq![c.args[1]] })
            } else if c.head == HeadV::Op(Op::In) && c.args[1].head == HeadV::Op(Op::List)
                && var_free(c.args[1].args) {
                Some(AnchorV { prop, values: c.args[1].args })
            } else {
                None
            },
        }
    }
}

fn fixed_prop(c: &Expr, x: &String) -> (r: Option<PropAnchor>)
    ensures
        anchor_opt(r) == fixes(c.v(), x@),
{
    if c.args.len() != 2 {
        return None;
    }
    assert(c.v().args[0] == c.args@[0].v());
    assert(c.v().args[1] == c.args@[1].v());
    let key = match own_prop(&c.args[0], x) {
        Some(k) => k,
        None => {
            return None;
        },
    };
    let val = &c.args[1];
    match &c.head {
        Head::Op(Op::Eq) => {
            if reads_some(val) {
                return None;
            }
            let mut values: Vec<Expr> = Vec::new();
            values.push(val.copy());
            assert(ast::exprs_v(values@) =~= seq![val.v()]);
            Some(PropAnchor { prop: key.clone(), values })
        },
        Head::Op(Op::In) => match &val.head {
            Head::Op(Op::List) => {
                assert(val.v().args =~= ast::exprs_v(val.args@));
                if all_var_free(&val.args) {
                    Some(PropAnchor { prop: key.clone(), values: plan::copy_exprs(&val.args) })
                } else {
                    None
                }
            },
            _ => None,
        },
        _ => None,
    }
}

/// The first property to which a condition fixes a variable.
pub open spec fn seek(w: Option<ExprV>, x: Seq<char>) -> Option<AnchorV> {
    match w {
        None => None,
        Some(w) => seqs::find_map(ast::conjuncts(w), |c: ExprV| fixes(c, x)),
    }
}

/// The first property to which a condition fixes a variable.
pub fn prop_eq_index(w: Option<&Expr>, x: &String) -> (r: Option<PropAnchor>)
    ensures
        anchor_opt(r) == seek(ast::ref_v(w), x@),
{
    match w {
        None => None,
        Some(e) => {
            let mut cs: Vec<&Expr> = Vec::new();
            conjuncts_of(e, &mut cs);
            let ghost f = |c: ExprV| fixes(c, x@);
            let ghost all = ast::conjuncts(e.v());
            assert(cs@.map_values(|x: &Expr| x.v()) =~= all);
            let mut i: usize = 0;
            while i < cs.len()
                invariant
                    i <= cs@.len(),
                    all == ast::conjuncts(e.v()),
                    all.len() == cs@.len(),
                    f == (|c: ExprV| fixes(c, x@)),
                    forall|j: int| 0 <= j < all.len() ==> #[trigger] all[j] == cs@[j].v(),
                    forall|j: int| 0 <= j < i ==> f(#[trigger] all[j]) is None,
                    ast::ref_v(w) == Some(e.v()),
                decreases cs.len() - i,
            {
                assert(all[i as int] == cs@[i as int].v());
                let r = fixed_prop(cs[i], x);
                if r.is_some() {
                    proof {
                        seqs::lemma_find_map(all, f, i as int);
                    }
                    return r;
                }
                i = i + 1;
            }
            proof {
                seqs::lemma_find_map(all, f, all.len() as int);
            }
            None
        },
    }
}

/// The stage that begins a query: a scan, its steps and its conditions.
#[derive(Debug)]
pub struct Scan {
    pub a_labels: Vec<String>,
    pub a_var: String,
    pub hops: Vec<Hop>,
    pub vars: Vec<String>,
    pub kinds: Vec<VarKind>,
    pub labels: LabelMap,
    pub wheres: Vec<WherePred>,
    /// A property by which the start can be looked up.
    pub anchor: Option<PropAnchor>,
}

/// A [`Scan`].
pub struct ScanV {
    pub a_labels: Seq<Seq<char>>,
    pub a_var: Seq<char>,
    pub hops: Seq<StepHop>,
    pub vars: Seq<Seq<char>>,
    pub kinds: Seq<VarKind>,
    pub labels: Map<Seq<char>, Seq<Seq<char>>>,
    pub wheres: Seq<WhereV>,
    pub anchor: Option<AnchorV>,
}

impl Scan {
    pub open spec fn v(self) -> ScanV {
        ScanV {
            a_labels: names::of(self.a_labels@),
            a_var: self.a_var@,
            hops: hop::steps_v(self.hops@),
            vars: names::of(self.vars@),
            kinds: self.kinds@,
            labels: self.labels.v(),
            wheres: preds::wheres_v(self.wheres@),
            anchor: anchor_opt(self.anchor),
        }
    }
}

/// The stage that a pattern and its condition begin a query with.
pub open spec fn scan_of(pattern: PatternV, w: Option<ExprV>, allow: Allow) -> Option<ScanV> {
    match scan_hops(pattern, allow) {
        None => None,
        Some(h) => {
            let full = full_where(h, w);
            match where_preds(full, h.vars) {
                None => None,
                Some(wheres) => Some(
                    ScanV {
                        a_labels: h.a_labels,
                        a_var: h.a_var,
                        hops: h.hops,
                        vars: h.vars,
                        kinds: h.kinds,
                        labels: h.labels,
                        wheres,
                        anchor: seek(full, h.a_var),
                    },
                ),
            }
        },
    }
}

/// The stage that a pattern and its condition begin a query with.
pub fn recognise_scan(pattern: &Pattern, w: &Option<Expr>, allow: Allow) -> (r: Option<Scan>)
    ensures
        match r {
            Some(s) => scan_of(pattern.v(), ast::opt_v(*w), allow) == Some(s.v()) && s.kinds@.len()
                == s.vars@.len(),
            None => scan_of(pattern.v(), ast::opt_v(*w), allow) is None,
        },
{
    let h = match collect_hops(pattern, None, allow) {
        Some(h) => h,
        None => {
            return None;
        },
    };
    proof {
        aggregate::lemma_pattern_fits(*pattern);
        aggregate::law_steps_are_bound(pattern.v(), allow);
    }
    let full = combine_where(&h, ast::as_opt(w));
    let wheres = match recognise_where_preds(ast::as_opt(&full), &h.vars) {
        Some(p) => p,
        None => {
            return None;
        },
    };
    let anchor = prop_eq_index(ast::as_opt(&full), &h.a_var);
    Some(
        Scan {
            a_labels: h.a_labels,
            a_var: h.a_var,
            hops: h.hops,
            vars: h.vars,
            kinds: h.kinds,
            labels: h.labels,
            wheres,
            anchor,
        },
    )
}

/// What a stage hands to the next.
#[derive(Debug)]
pub struct Carry {
    /// The carried columns, in the order in which they are named.
    pub carried: Vec<usize>,
    pub bound: Prebound,
    /// Whether repeats are dropped.
    pub distinct: bool,
}

/// A [`Carry`].
pub struct CarryV {
    pub carried: Seq<usize>,
    pub vars: Seq<Seq<char>>,
    pub kinds: Seq<VarKind>,
    pub labels: Map<Seq<char>, Seq<Seq<char>>>,
    pub distinct: bool,
}

impl Carry {
    pub open spec fn v(self) -> CarryV {
        CarryV {
            carried: self.carried@,
            vars: names::of(self.bound.vars@),
            kinds: self.bound.kinds@,
            labels: self.bound.labels.v(),
            distinct: self.distinct,
        }
    }
}

/// The variable that an item carries under its own name.
pub open spec fn carries(it: ItemV, vars: Seq<Seq<char>>) -> Option<Seq<char>> {
    match ast::as_var(it.expr) {
        Some(x) => if (it.alias is None || it.alias == Some(x)) && vars.contains(x) {
            Some(x)
        } else {
            None
        },
        None => None,
    }
}

/// The labels of the named variables alone.
pub open spec fn labels_of(m: Map<Seq<char>, Seq<Seq<char>>>, xs: Seq<Seq<char>>) -> Map<
    Seq<char>,
    Seq<Seq<char>>,
> {
    m.restrict(Set::new(|x: Seq<char>| xs.contains(x)))
}

/// What a projection hands on of the variables bound before it: some of them,
/// each once and under its own name, and nothing else.
pub open spec fn carry_of(
    proj: ProjV,
    vars: Seq<Seq<char>>,
    kinds: Seq<VarKind>,
    labels: Map<Seq<char>, Seq<Seq<char>>>,
) -> Option<CarryV> {
    if proj.star || proj.order.len() > 0 || proj.skip is Some || proj.limit is Some
        || proj.items.len() == 0 {
        None
    } else {
        match seqs::try_map(proj.items, |it: ItemV| carries(it, vars)) {
            None => None,
            Some(xs) => if !xs.no_duplicates() {
                None
            } else {
                let carried = xs.map_values(|x: Seq<char>| (names::position(vars, x)->0) as usize);
                Some(
                    CarryV {
                        carried,
                        vars: xs,
                        kinds: carried.map_values(|i: usize| kinds[i as int]),
                        labels: labels_of(labels, xs),
                        distinct: proj.distinct,
                    },
                )
            },
        }
    }
}

fn carried_name<'a>(it: &'a ProjItem, vars: &Vec<String>) -> (r: Option<&'a String>)
    ensures
        match r {
            Some(x) => carries(it.v(), names::of(vars@)) == Some(x@),
            None => carries(it.v(), names::of(vars@)) is None,
        },
{
    match &it.expr.head {
        Head::Var(x) => {
            let own = match &it.alias {
                Some(a) => *a == *x,
                None => true,
            };
            if own && has_name(vars, x) {
                Some(x)
            } else {
                None
            }
        },
        _ => None,
    }
}

/// The labels of the named variables alone.
pub fn keep_labels(all: &LabelMap, xs: &Vec<String>) -> (r: LabelMap)
    ensures
        r.v() == labels_of(all.v(), names::of(xs@)),
{
    let ghost ns = names::of(xs@);
    let mut r = LabelMap::new();
    let mut i: usize = 0;
    assert(r.v() =~= labels_of(all.v(), ns.take(0)));
    while i < xs.len()
        invariant
            i <= xs@.len(),
            ns == names::of(xs@),
            r.v() == labels_of(all.v(), ns.take(i as int)),
        decreases xs.len() - i,
    {
        let ghost r0 = r.v();
        proof {
            seqs::lemma_take_last(ns, i as int);
            assert(ns[i as int] == xs@[i as int]@);
            assert forall|x: Seq<char>| ns.take(i + 1).contains(x) <==> ns.take(i as int).contains(x)
                || x == ns[i as int] by {
                seqs::lemma_push_contains(ns.take(i as int), ns[i as int], x);
            }
        }
        match all.get(&xs[i]) {
            Some(ls) => {
                r.learn(&xs[i], ls);
            },
            None => {},
        }
        assert(r.v() =~= labels_of(all.v(), ns.take(i + 1)));
        i = i + 1;
    }
    assert(ns.take(i as int) =~= ns);
    r
}

/// What a projection hands on of the variables bound before it.
pub fn pipeline_carry(
    proj: &Projection,
    vars: &Vec<String>,
    kinds: &Vec<VarKind>,
    all: &LabelMap,
) -> (r: Option<Carry>)
    requires
        kinds@.len() == vars@.len(),
    ensures
        match r {
            Some(c) => {
                &&& carry_of(proj.v(), names::of(vars@), kinds@, all.v()) == Some(c.v())
                &&& c.bound.kinds@.len() == c.bound.vars@.len()
                &&& c.bound.vars@.len() == proj.items@.len()
                &&& forall|i: int|
                    0 <= i < c.carried@.len() ==> #[trigger] c.carried@[i] < vars@.len()
                &&& c.carried@.len() == c.bound.vars@.len()
            },
            None => carry_of(proj.v(), names::of(vars@), kinds@, all.v()) is None,
        },
{
    if proj.star || proj.order.len() > 0 || proj.skip.is_some() || proj.limit.is_some()
        || proj.items.len() == 0 {
        return None;
    }
    let ghost vs = names::of(vars@);
    let ghost items = proj.v().items;
    let ghost f = |it: ItemV| carries(it, vs);
    let mut carried: Vec<usize> = Vec::new();
    let mut xs: Vec<String> = Vec::new();
    let mut ks: Vec<VarKind> = Vec::new();
    let mut i: usize = 0;
    while i < proj.items.len()
        invariant
            i <= proj.items@.len(),
            kinds@.len() == vars@.len(),
            vs == names::of(vars@),
            items == proj.v().items,
            f == (|it: ItemV| carries(it, vs)),
            xs@.len() == i,
            carried@.len() == i,
            ks@.len() == i,
            forall|j: int| 0 <= j < i ==> f(#[trigger] items[j]) == Some(xs@[j]@),
            forall|j: int|
                0 <= j < i ==> #[trigger] carried@[j] < vars@.len() && names::position(vs, xs@[j]@)
                    == Some(carried@[j] as int) && ks@[j] == kinds@[carried@[j] as int],
            names::of(xs@).no_duplicates(),
        decreases proj.items.len() - i,
    {
        assert(items[i as int] == proj.items@[i as int].v());
        let ghost xs0 = names::of(xs@);
        let x = match carried_name(&proj.items[i], vars) {
            Some(x) => x,
            None => {
                assert(f(items[i as int]) is None);
                return None;
            },
        };
        if has_name(&xs, x) {
            proof {
                let k = choose|k: int| 0 <= k < xs0.len() && xs0[k] == x@;
                assert(f(items[k]) == Some(xs@[k]@));
                assert(f(items[i as int]) == Some(x@));
                if seqs::try_map(items, f) is Some {
                    let all_xs = seqs::try_map(items, f)->0;
                    assert(all_xs[k] == all_xs[i as int]);
                    assert(!all_xs.no_duplicates());
                }
            }
            return None;
        }
        match name_index(vars, x) {
            Some(at) => {
                carried.push(at);
                ks.push(kinds[at]);
                xs.push(x.clone());
            },
            None => {
                return None;
            },
        }
        proof {
            assert(names::of(xs@) =~= xs0.push(x@));
            assert forall|a: int, b: int|
                0 <= a < names::of(xs@).len() && 0 <= b < names::of(xs@).len() && a != b implies names::of(
                xs@,
            )[a] != names::of(xs@)[b] by {
                if a < xs0.len() && b < xs0.len() {
                    assert(xs0[a] != xs0[b]);
                } else if a < xs0.len() {
                    assert(xs0[a] != x@);
                } else if b < xs0.len() {
                    assert(xs0[b] != x@);
                }
            }
        }
        i = i + 1;
    }
    let labels = keep_labels(all, &xs);
    proof {
        let all_xs = seqs::try_map(items, f)->0;
        assert(names::of(xs@) =~= all_xs);
        let want = all_xs.map_values(|x: Seq<char>| (names::position(vs, x)->0) as usize);
        assert(carried@ =~= want) by {
            assert forall|j: int| 0 <= j < carried@.len() implies carried@[j] == want[j] by {
                assert(names::position(vs, xs@[j]@) == Some(carried@[j] as int));
                assert(all_xs[j] == xs@[j]@);
            }
        }
        assert(ks@ =~= want.map_values(|i: usize| kinds@[i as int])) by {
            assert forall|j: int| 0 <= j < ks@.len() implies ks@[j] == kinds@[want[j] as int] by {
                assert(carried@[j] == want[j]);
            }
        }
    }
    Some(
        Carry {
            carried,
            bound: Prebound { vars: xs, kinds: ks, labels },
            distinct: proj.distinct,
        },
    )
}

/// What the rows of the last stage are turned into.
#[derive(Debug)]
pub enum StageTail {
    Core(CorePlan),
    Agg(AggPlan),
    Distinct(AggPlan),
}

/// A [`StageTail`].
pub enum StageTailV {
    Core(CoreV),
    Agg(AggV),
    Distinct(AggV),
}

impl StageTail {
    pub open spec fn v(self) -> StageTailV {
        match self {
            StageTail::Core(c) => StageTailV::Core(c.v()),
            StageTail::Agg(a) => StageTailV::Agg(a.v()),
            StageTail::Distinct(a) => StageTailV::Distinct(a.v()),
        }
    }
}

/// A tail that may be missing.
pub open spec fn stage_tail_opt(t: Option<StageTail>) -> Option<StageTailV> {
    match t {
        Some(t) => Some(t.v()),
        None => None,
    }
}

/// The tail of a return alone.
pub open spec fn return_tail(chain: ChainV, rp: ProjV) -> Option<StageTailV> {
    if query::any_aggregate(rp.items) {
        match aggregate_plan(chain, rp, None) {
            Some(a) => Some(StageTailV::Agg(a)),
            None => None,
        }
    } else if rp.distinct {
        match distinct_plan(chain, rp) {
            Some(a) => Some(StageTailV::Distinct(a)),
            None => None,
        }
    } else {
        match core_plan(chain, rp) {
            Some(c) => Some(StageTailV::Core(c)),
            None => None,
        }
    }
}

/// The tail of a grouping or distinct projection and a return over it.
pub open spec fn breaker_tail(
    chain: ChainV,
    proj: ProjV,
    having: Option<ExprV>,
    rp: ProjV,
) -> Option<StageTailV> {
    let a = if proj.distinct {
        distinct_with_plan(chain, proj, having, rp)
    } else {
        aggregate_plan(chain, proj, Some((having, rp)))
    };
    match a {
        Some(a) => Some(StageTailV::Agg(a)),
        None => None,
    }
}

/// The tail of a return alone.
pub fn build_return_tail(chain: Chain, rp: &Projection) -> (r: Option<StageTail>)
    ensures
        stage_tail_opt(r) == return_tail(chain.v(), rp.v()),
{
    if items_aggregate(rp) {
        match aggregate_over_chain(chain, rp, None) {
            Some(a) => Some(StageTail::Agg(a)),
            None => None,
        }
    } else if rp.distinct {
        match distinct_over_chain(chain, rp) {
            Some(a) => Some(StageTail::Distinct(a)),
            None => None,
        }
    } else {
        match core_over_chain(chain, rp) {
            Some(c) => Some(StageTail::Core(c)),
            None => None,
        }
    }
}

/// The tail of a grouping or distinct projection and a return over it.
pub fn build_breaker_tail(
    chain: Chain,
    proj: &Projection,
    having: Option<&Expr>,
    rp: &Projection,
) -> (r: Option<StageTail>)
    ensures
        stage_tail_opt(r) == breaker_tail(chain.v(), proj.v(), ast::ref_v(having), rp.v()),
{
    let a = if proj.distinct {
        distinct_form_a_over_chain(chain, proj, having, rp)
    } else {
        aggregate_over_chain(chain, proj, Some((having, rp)))
    };
    match a {
        Some(a) => Some(StageTail::Agg(a)),
        None => None,
    }
}

} // verus!
