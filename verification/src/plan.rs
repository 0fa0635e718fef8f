//! What a chain's rows are turned into: a projection, groups, or distinct rows.

use vstd::prelude::*;

use crate::ast;
use crate::ast::{classify_key, contains_opaque, expr_has_aggregate, reads_within, Expr, ExprV, FunctionV, Head, HeadV, KeyRef, Op};
use crate::hop::{Hop, StepHop};
use crate::names;
use crate::names::{has_name, name_index};
use crate::preds::{chain_of, recognise_chain, Chain, ChainV};
use crate::query;
use crate::query::{items_aggregate, Clause, ClauseV, ItemV, OrderV, ProjItem, ProjV, Projection, SingleQuery};
use crate::seqs;

verus! {

/// A projection of a chain's rows.
#[derive(Debug)]
pub struct CorePlan {
    pub chain: Chain,
    pub proj: Projection,
}

/// A [`CorePlan`].
pub struct CoreV {
    pub chain: ChainV,
    pub proj: ProjV,
}

impl CorePlan {
    pub open spec fn v(self) -> CoreV {
        CoreV { chain: self.chain.v(), proj: self.proj.v() }
    }
}

/// Whether aliases are resolved within the operands of a head.
pub open spec fn resolves_within(h: HeadV) -> bool {
    match h {
        HeadV::Call(_) => true,
        HeadV::Prop(_) => true,
        HeadV::Op(op) => match op {
            Op::Neg => true,
            Op::Not => true,
            Op::Eq => true,
            Op::Neq => true,
            Op::Lt => true,
            Op::Le => true,
            Op::Gt => true,
            Op::Ge => true,
            Op::Plus => true,
            Op::Minus => true,
            Op::Times => true,
            Op::Div => true,
            Op::Rem => true,
            Op::Pow => true,
            _ => false,
        },
        _ => false,
    }
}

fn does_resolve_within(h: &Head) -> (b: bool)
    ensures
        b == resolves_within(h.v()),
{
    match h {
        Head::Call(_) => true,
        Head::Prop(_) => true,
        Head::Op(op) => match op {
            Op::Neg => true,
            Op::Not => true,
            Op::Eq => true,
            Op::Neq => true,
            Op::Lt => true,
            Op::Le => true,
            Op::Gt => true,
            Op::Ge => true,
            Op::Plus => true,
            Op::Minus => true,
            Op::Times => true,
            Op::Div => true,
            Op::Rem => true,
            Op::Pow => true,
            _ => false,
        },
        _ => false,
    }
}

/// The first item with an alias.
pub open spec fn aliased(items: Seq<ItemV>, x: Seq<char>) -> Option<int> {
    names::position(items.map_values(|it: ItemV| it.alias), Some(x))
}

fn alias_index(items: &Vec<ProjItem>, x: &String) -> (r: Option<usize>)
    ensures
        match r {
            Some(i) => aliased(query::items_v(items@), x@) == Some(i as int) && i < items@.len(),
            None => aliased(query::items_v(items@), x@) is None,
        },
{
    let ghost s = query::items_v(items@).map_values(|it: ItemV| it.alias);
    let mut i: usize = 0;
    while i < items.len()
        invariant
            i <= items@.len(),
            s == query::items_v(items@).map_values(|it: ItemV| it.alias),
            forall|j: int| 0 <= j < i ==> #[trigger] s[j] != Some(x@),
        decreases items.len() - i,
    {
        assert(s[i as int] == ast::opt_str(items@[i as int].alias));
        match &items[i].alias {
            Some(a) => {
                if *a == *x {
                    proof {
                        names::lemma_first_is_position(s, Some(x@), i as int);
                    }
                    return Some(i);
                }
            },
            None => {},
        }
        i = i + 1;
    }
    proof {
        assert(!s.contains(Some(x@)));
        names::lemma_position(s, Some(x@));
    }
    None
}

/// A sort key with each alias replaced by what it stands for. A bound variable
/// is never an alias, and what an alias stands for is not resolved again.
pub open spec fn resolved(e: ExprV, vars: Seq<Seq<char>>, items: Seq<ItemV>) -> ExprV
    decreases e,
{
    match e.head {
        HeadV::Var(x) => if vars.contains(x) {
            e
        } else {
            match aliased(items, x) {
                Some(i) => items[i].expr,
                None => e,
            }
        },
        _ => if resolves_within(e.head) {
            ExprV {
                head: e.head,
                args: Seq::new(
                    e.args.len(),
                    |i: int|
                        if 0 <= i < e.args.len() {
                            resolved(e.args[i], vars, items)
                        } else {
                            arbitrary()
                        },
                ),
            }
        } else {
            e
        },
    }
}

/// A sort key with each alias replaced by what it stands for.
pub fn resolve_order_key_alias(e: &Expr, vars: &Vec<String>, proj: &Projection) -> (r: Expr)
    ensures
        r.v() == resolved(e.v(), names::of(vars@), proj.v().items),
    decreases e,
{
    match &e.head {
        Head::Var(x) => {
            if has_name(vars, x) {
                return e.copy();
            }
            match alias_index(&proj.items, x) {
                Some(i) => {
                    assert(proj.v().items[i as int] == proj.items@[i as int].v());
                    proj.items[i].expr.copy()
                },
                None => e.copy(),
            }
        },
        _ => {
            if !does_resolve_within(&e.head) {
                return e.copy();
            }
            let mut args: Vec<Expr> = Vec::new();
            let mut i: usize = 0;
            while i < e.args.len()
                invariant
                    i <= e.args@.len(),
                    args@.len() == i,
                    forall|j: int|
                        0 <= j < i ==> (#[trigger] args@[j]).v() == resolved(
                            e.args@[j].v(),
                            names::of(vars@),
                            proj.v().items,
                        ),
                decreases e.args.len() - i,
            {
                let a = resolve_order_key_alias(&e.args[i], vars, proj);
                args.push(a);
                i = i + 1;
            }
            let r = Expr { head: e.head.copy(), args };
            assert(r.v().args =~= resolved(e.v(), names::of(vars@), proj.v().items).args);
            r
        },
    }
}

/// Whether a sort key reads at most one variable, a column at a time.
pub open spec fn key_sorts(o: OrderV, vars: Seq<Seq<char>>, items: Seq<ItemV>) -> bool {
    let key = resolved(o.expr, vars, items);
    !ast::has_opaque(key) && !ast::has_aggregate(key) && ast::key_class(key, vars) is Some
}

/// Whether an item is a plain expression over bound variables.
pub open spec fn plain_item(it: ItemV, vars: Seq<Seq<char>>) -> bool {
    !ast::has_opaque(it.expr) && !ast::has_aggregate(it.expr) && ast::reads_only(it.expr, vars)
}

/// Whether a projection is plain: no star, no duplicates removed, no
/// aggregate; sorted only under a limit, by keys of one variable each.
pub open spec fn core_ok(vars: Seq<Seq<char>>, proj: ProjV) -> bool {
    &&& !proj.star && !proj.distinct && proj.items.len() > 0
    &&& forall|i: int|
        0 <= i < proj.order.len() ==> key_sorts(#[trigger] proj.order[i], vars, proj.items)
    &&& proj.order.len() > 0 ==> proj.limit is Some
    &&& forall|i: int| 0 <= i < proj.items.len() ==> plain_item(#[trigger] proj.items[i], vars)
}

fn is_core(vars: &Vec<String>, proj: &Projection) -> (b: bool)
    ensures
        b == core_ok(names::of(vars@), proj.v()),
{
    if proj.star || proj.distinct || proj.items.len() == 0 {
        return false;
    }
    let ghost vs = names::of(vars@);
    let mut i: usize = 0;
    while i < proj.order.len()
        invariant
            i <= proj.order@.len(),
            vs == names::of(vars@),
            forall|j: int|
                0 <= j < i ==> key_sorts(#[trigger] proj.v().order[j], vs, proj.v().items),
        decreases proj.order.len() - i,
    {
        assert(proj.v().order[i as int] == proj.order@[i as int].v());
        let key = resolve_order_key_alias(&proj.order[i].expr, vars, proj);
        if contains_opaque(&key) || expr_has_aggregate(&key) {
            return false;
        }
        if classify_key(&key, vars).is_none() {
            return false;
        }
        i = i + 1;
    }
    if proj.order.len() > 0 && proj.limit.is_none() {
        return false;
    }
    let mut k: usize = 0;
    while k < proj.items.len()
        invariant
            k <= proj.items@.len(),
            vs == names::of(vars@),
            forall|j: int| 0 <= j < k ==> plain_item(#[trigger] proj.v().items[j], vs),
        decreases proj.items.len() - k,
    {
        assert(proj.v().items[k as int] == proj.items@[k as int].v());
        let e = &proj.items[k].expr;
        if contains_opaque(e) || expr_has_aggregate(e) || !reads_within(e, vars) {
            return false;
        }
        k = k + 1;
    }
    true
}

/// The projection of a chain.
pub open spec fn core_plan(chain: ChainV, proj: ProjV) -> Option<CoreV> {
    if core_ok(chain.vars, proj) {
        Some(CoreV { chain, proj })
    } else {
        None
    }
}

/// A projection that may be missing.
pub open spec fn core_opt(c: Option<CorePlan>) -> Option<CoreV> {
    match c {
        Some(c) => Some(c.v()),
        None => None,
    }
}

/// Puts a plain projection on a chain.
pub fn core_over_chain(chain: Chain, proj: &Projection) -> (r: Option<CorePlan>)
    ensures
        core_opt(r) == core_plan(chain.v(), proj.v()),
{
    if is_core(&chain.vars, proj) {
        Some(CorePlan { chain, proj: proj.copy() })
    } else {
        None
    }
}

/// Whether a projection uses the end of every variable-length step without
/// regard to repeats.
pub open spec fn varlen_ok(hops: Seq<StepHop>, proj: ProjV) -> bool {
    forall|i: int|
        0 <= i < hops.len() && (#[trigger] hops[i]).varlen is Some ==> proj.distinct_vars.contains(
            hops[i].var,
        )
}

/// Whether a projection uses the end of every variable-length step without
/// regard to repeats.
pub fn varlen_distinct_consumed(hops: &Vec<Hop>, proj: &Projection) -> (b: bool)
    ensures
        b == varlen_ok(crate::hop::steps_v(hops@), proj.v()),
{
    let mut i: usize = 0;
    while i < hops.len()
        invariant
            i <= hops@.len(),
            forall|j: int|
                0 <= j < i && (#[trigger] crate::hop::steps_v(hops@)[j]).varlen is Some
                    ==> proj.v().distinct_vars.contains(crate::hop::steps_v(hops@)[j].var),
        decreases hops.len() - i,
    {
        assert(crate::hop::steps_v(hops@)[i as int] == hops@[i as int].v());
        if hops[i].varlen.is_some() && !has_name(&proj.distinct_vars, &hops[i].var) {
            return false;
        }
        i = i + 1;
    }
    true
}

/// The plain projection that a query is.
pub open spec fn core_of(q: Seq<ClauseV>) -> Option<CoreV> {
    if q.len() != 2 {
        None
    } else {
        match (q[0], q[1]) {
            (
                ClauseV::Match { optional: false, pattern, where_ },
                ClauseV::Return { proj },
            ) => match chain_of(pattern, where_) {
                None => None,
                Some(chain) => if varlen_ok(chain.hops, proj) {
                    core_plan(chain, proj)
                } else {
                    None
                },
            },
            _ => None,
        }
    }
}

/// The plain projection that a query is: one match and a return.
pub fn recognise_core(q: &SingleQuery) -> (r: Option<CorePlan>)
    ensures
        core_opt(r) == core_of(q.v()),
{
    if q.clauses.len() != 2 {
        return None;
    }
    assert(q.v()[0] == q.clauses@[0].v());
    assert(q.v()[1] == q.clauses@[1].v());
    match (&q.clauses[0], &q.clauses[1]) {
        (Clause::Match { optional: false, pattern, where_ }, Clause::Return { proj }) => {
            match recognise_chain(pattern, ast::as_opt(where_)) {
                None => None,
                Some(chain) => {
                    if varlen_distinct_consumed(&chain.hops, proj) {
                        core_over_chain(chain, proj)
                    } else {
                        None
                    }
                },
            }
        },
        _ => None,
    }
}

/// How a grouping key or an argument reads the bound variables.
#[derive(Clone, Copy, Debug, PartialEq, Eq, Structural)]
pub enum SingleVar {
    /// The variable itself.
    Node(usize),
    /// A value computed from one variable.
    Col(usize),
    /// No variable.
    Const,
}

/// How a grouping key or an argument reads the bound variables.
pub open spec fn single_var(e: ExprV, vars: Seq<Seq<char>>) -> Option<SingleVar> {
    match ast::as_var(e) {
        Some(x) => match names::position(vars, x) {
            Some(i) => Some(SingleVar::Node(i as usize)),
            None => None,
        },
        None => match ast::key_class(e, vars) {
            Some(KeyRef::Const) => Some(SingleVar::Const),
            Some(KeyRef::Var(i)) => Some(SingleVar::Col(i)),
            None => None,
        },
    }
}

/// How a grouping key or an argument reads the bound variables.
pub fn classify_single_var(e: &Expr, vars: &Vec<String>) -> (r: Option<SingleVar>)
    ensures
        r == single_var(e.v(), names::of(vars@)),
        r matches Some(SingleVar::Node(i)) ==> i < vars@.len(),
        r matches Some(SingleVar::Col(i)) ==> i < vars@.len(),
{
    match &e.head {
        Head::Var(x) => match name_index(vars, x) {
            Some(i) => Some(SingleVar::Node(i)),
            None => None,
        },
        _ => match classify_key(e, vars) {
            Some(KeyRef::Const) => Some(SingleVar::Const),
            Some(KeyRef::Var(i)) => Some(SingleVar::Col(i)),
            None => None,
        },
    }
}

/// A lifted aggregate.
#[derive(Debug)]
pub struct AggSite {
    pub name: String,
    pub distinct: bool,
    pub star: bool,
    pub args: Vec<Expr>,
}

/// An [`AggSite`].
pub struct SiteV {
    pub name: Seq<char>,
    pub distinct: bool,
    pub star: bool,
    pub args: Seq<ExprV>,
}

impl AggSite {
    pub open spec fn v(self) -> SiteV {
        SiteV {
            name: self.name@,
            distinct: self.distinct,
            star: self.star,
            args: ast::exprs_v(self.args@),
        }
    }
}

/// Lifted aggregates.
pub open spec fn sites_v(s: Seq<AggSite>) -> Seq<SiteV> {
    s.map_values(|x: AggSite| x.v())
}

/// What a projected item is over groups.
#[derive(Debug)]
pub enum AggItem {
    /// A grouping key.
    Key,
    /// An expression over the values of lifted aggregates.
    Agg(Expr),
}

/// An [`AggItem`].
pub enum AggItemV {
    Key,
    Agg(ExprV),
}

impl AggItem {
    pub open spec fn v(self) -> AggItemV {
        match self {
            AggItem::Key => AggItemV::Key,
            AggItem::Agg(e) => AggItemV::Agg(e.v()),
        }
    }
}

/// What projected items are over groups.
pub open spec fn agg_items_v(s: Seq<AggItem>) -> Seq<AggItemV> {
    s.map_values(|x: AggItem| x.v())
}

/// Whether an aggregate can be folded row by row.
pub open spec fn folds(f: FunctionV) -> bool {
    f.aggregate && (f.name == "count"@ || f.name == "sum"@ || f.name == "avg"@ || f.name == "min"@
        || f.name == "max"@ || f.name == "collect"@)
}

/// The aggregate at the head of an expression, if it can be folded.
pub open spec fn site_of(e: ExprV) -> Option<SiteV> {
    match e.head {
        HeadV::Call(f) => if folds(f) {
            Some(SiteV { name: f.name, distinct: f.distinct, star: f.star, args: e.args })
        } else {
            None
        },
        _ => None,
    }
}

/// An expression with its aggregates lifted, the first of them numbered `base`,
/// and the aggregates.
pub open spec fn lift(e: ExprV, base: nat) -> (ExprV, Seq<SiteV>)
    decreases e, e.args.len() + 1,
{
    match site_of(e) {
        Some(s) => (ExprV { head: HeadV::Site(base as usize), args: Seq::empty() }, seq![s]),
        None => {
            let (args, sites) = lift_args(e, base, e.args.len());
            (ExprV { head: e.head, args }, sites)
        },
    }
}

/// The first `n` operands of an expression with their aggregates lifted.
pub open spec fn lift_args(e: ExprV, base: nat, n: nat) -> (Seq<ExprV>, Seq<SiteV>)
    decreases e, n,
{
    if n == 0 || n > e.args.len() {
        (Seq::empty(), Seq::empty())
    } else {
        let (args, sites) = lift_args(e, base, (n - 1) as nat);
        let (a, more) = lift(e.args[n - 1], base + sites.len());
        (args.push(a), sites + more)
    }
}

/// What items are over groups, and the aggregates lifted from them.
pub open spec fn plan_items(items: Seq<ItemV>) -> (Seq<AggItemV>, Seq<SiteV>)
    decreases items.len(),
{
    if items.len() == 0 {
        (Seq::empty(), Seq::empty())
    } else {
        let (plans, sites) = plan_items(items.drop_last());
        let (e, more) = lift(items.last().expr, sites.len());
        (
            plans.push(
                if more.len() == 0 {
                    AggItemV::Key
                } else {
                    AggItemV::Agg(e)
                },
            ),
            sites + more,
        )
    }
}

fn is_text(s: &String, t: &str) -> (b: bool)
    ensures
        b == (s@ == t@),
{
    *s == t.to_owned()
}

fn does_fold(f: &ast::Function) -> (b: bool)
    ensures
        b == folds(f.v()),
{
    f.aggregate && (is_text(&f.name, "count") || is_text(&f.name, "sum") || is_text(&f.name, "avg")
        || is_text(&f.name, "min") || is_text(&f.name, "max") || is_text(&f.name, "collect"))
}

/// A copy of expressions.
pub fn copy_exprs(s: &Vec<Expr>) -> (r: Vec<Expr>)
    ensures
        ast::exprs_v(r@) == ast::exprs_v(s@),
{
    let mut r: Vec<Expr> = Vec::new();
    let mut i: usize = 0;
    while i < s.len()
        invariant
            i <= s@.len(),
            r@.len() == i,
            forall|j: int| 0 <= j < i ==> (#[trigger] r@[j]).v() == s@[j].v(),
        decreases s.len() - i,
    {
        r.push(s[i].copy());
        i = i + 1;
    }
    assert(ast::exprs_v(r@) =~= ast::exprs_v(s@));
    r
}

/// Lifts the aggregates of an expression.
pub fn extract_aggregates(e: &Expr, sites: &mut Vec<AggSite>) -> (r: Expr)
    ensures
        r.v() == lift(e.v(), old(sites)@.len()).0,
        sites_v(final(sites)@) == sites_v(old(sites)@) + lift(e.v(), old(sites)@.len()).1,
    decreases e,
{
    match &e.head {
        Head::Call(f) => {
            if does_fold(f) {
                let at: usize = sites.len();
                let s = AggSite {
                    name: f.name.clone(),
                    distinct: f.distinct,
                    star: f.star,
                    args: copy_exprs(&e.args),
                };
                assert(s.v().args =~= e.v().args);
                let ghost before = sites@;
                sites.push(s);
                assert(sites_v(sites@) =~= sites_v(before) + seq![s.v()]);
                let r = Expr { head: Head::Site(at), args: Vec::new() };
                assert(r.v().args =~= Seq::empty());
                return r;
            }
        },
        _ => {},
    }
    let ghost base = sites@.len();
    let ghost before = sites_v(sites@);
    let mut args: Vec<Expr> = Vec::new();
    let mut i: usize = 0;
    proof {
        assert(ast::exprs_v(args@) =~= Seq::empty());
        assert(sites_v(sites@) =~= before + Seq::empty());
    }
    while i < e.args.len()
        invariant
            i <= e.args@.len(),
            ast::exprs_v(args@) == lift_args(e.v(), base, i as nat).0,
            sites_v(sites@) == before + lift_args(e.v(), base, i as nat).1,
            before.len() == base,
            e.v().args.len() == e.args@.len(),
        decreases e.args.len() - i,
    {
        let ghost args0 = args@;
        let ghost s0 = lift_args(e.v(), base, i as nat).1;
        assert(sites_v(sites@).len() == sites@.len());
        assert(e.v().args[i as int] == e.args@[i as int].v());
        let a = extract_aggregates(&e.args[i], sites);
        args.push(a);
        proof {
            let more = lift(e.v().args[i as int], base + s0.len()).1;
            assert(ast::exprs_v(args@) =~= ast::exprs_v(args0).push(a.v()));
            assert((before + s0) + more =~= before + (s0 + more));
        }
        i = i + 1;
    }
    let r = Expr { head: e.head.copy(), args };
    assert(r.v().args =~= ast::exprs_v(args@));
    r
}

/// What the items of a projection are over groups, and the aggregates lifted
/// from them.
pub fn plan_agg_projection(proj: &Projection) -> (r: (Vec<AggSite>, Vec<AggItem>))
    ensures
        plan_items(proj.v().items) == (agg_items_v(r.1@), sites_v(r.0@)),
{
    let ghost items = proj.v().items;
    let mut sites: Vec<AggSite> = Vec::new();
    let mut plans: Vec<AggItem> = Vec::new();
    let mut i: usize = 0;
    proof {
        assert(items.take(0) =~= Seq::empty());
        assert(sites_v(sites@) =~= Seq::empty());
        assert(agg_items_v(plans@) =~= Seq::empty());
    }
    while i < proj.items.len()
        invariant
            i <= proj.items@.len(),
            items == proj.v().items,
            plan_items(items.take(i as int)) == (agg_items_v(plans@), sites_v(sites@)),
        decreases proj.items.len() - i,
    {
        proof {
            seqs::lemma_take_last(items, i as int);
            assert(items[i as int] == proj.items@[i as int].v());
        }
        let before: usize = sites.len();
        let ghost plans0 = plans@;
        let ghost sites0 = sites_v(sites@);
        let e = extract_aggregates(&proj.items[i].expr, &mut sites);
        let ghost more = lift(items[i as int].expr, sites0.len()).1;
        assert(sites_v(sites@).len() == sites@.len());
        let p = if sites.len() == before {
            AggItem::Key
        } else {
            AggItem::Agg(e)
        };
        plans.push(p);
        assert(agg_items_v(plans@) =~= agg_items_v(plans0).push(p.v()));
        i = i + 1;
    }
    assert(items.take(i as int) =~= items);
    (sites, plans)
}

/// A grouping key.
#[derive(Debug)]
pub struct AggKey {
    pub kind: SingleVar,
    pub expr: Expr,
}

/// An [`AggKey`].
pub struct KeyV {
    pub kind: SingleVar,
    pub expr: ExprV,
}

impl AggKey {
    pub open spec fn v(self) -> KeyV {
        KeyV { kind: self.kind, expr: self.expr.v() }
    }
}

/// Grouping keys.
pub open spec fn keys_v(s: Seq<AggKey>) -> Seq<KeyV> {
    s.map_values(|k: AggKey| k.v())
}

/// How the argument of an aggregate is read per row.
#[derive(Debug)]
pub enum SiteArgPlan {
    /// `count(*)`.
    Star,
    /// The variable itself.
    Node(usize),
    /// A value computed from one variable.
    Col(usize, Expr),
    /// One value for every row.
    Const(Expr),
}

/// A [`SiteArgPlan`].
pub enum ArgV {
    Star,
    Node(usize),
    Col(usize, ExprV),
    Const(ExprV),
}

impl SiteArgPlan {
    pub open spec fn v(self) -> ArgV {
        match self {
            SiteArgPlan::Star => ArgV::Star,
            SiteArgPlan::Node(i) => ArgV::Node(i),
            SiteArgPlan::Col(i, e) => ArgV::Col(i, e.v()),
            SiteArgPlan::Const(e) => ArgV::Const(e.v()),
        }
    }
}

/// How the arguments of aggregates are read per row.
pub open spec fn args_v(s: Seq<SiteArgPlan>) -> Seq<ArgV> {
    s.map_values(|a: SiteArgPlan| a.v())
}

/// Where the groups go.
#[derive(Debug)]
pub enum AggForm {
    /// Into the projection that groups.
    Return(Projection),
    /// Through a condition into a projection over the grouping one's columns.
    With { with_proj: Projection, post_where: Option<Expr>, return_proj: Projection },
}

/// An [`AggForm`].
pub enum FormV {
    Return(ProjV),
    With { with_proj: ProjV, post_where: Option<ExprV>, return_proj: ProjV },
}

impl AggForm {
    pub open spec fn v(self) -> FormV {
        match self {
            AggForm::Return(p) => FormV::Return(p.v()),
            AggForm::With { with_proj, post_where, return_proj } => FormV::With {
                with_proj: with_proj.v(),
                post_where: ast::opt_v(post_where),
                return_proj: return_proj.v(),
            },
        }
    }
}

/// The groups of a chain's rows.
#[derive(Debug)]
pub struct AggPlan {
    pub chain: Chain,
    pub group_keys: Vec<AggKey>,
    pub sites: Vec<AggSite>,
    pub site_args: Vec<SiteArgPlan>,
    pub agg_items: Vec<AggItem>,
    pub form: AggForm,
}

/// An [`AggPlan`].
pub struct AggV {
    pub chain: ChainV,
    pub group_keys: Seq<KeyV>,
    pub sites: Seq<SiteV>,
    pub site_args: Seq<ArgV>,
    pub agg_items: Seq<AggItemV>,
    pub form: FormV,
}

impl AggPlan {
    pub open spec fn v(self) -> AggV {
        AggV {
            chain: self.chain.v(),
            group_keys: keys_v(self.group_keys@),
            sites: sites_v(self.sites@),
            site_args: args_v(self.site_args@),
            agg_items: agg_items_v(self.agg_items@),
            form: self.form.v(),
        }
    }
}

/// Groups that may be missing.
pub open spec fn agg_opt(a: Option<AggPlan>) -> Option<AggV> {
    match a {
        Some(a) => Some(a.v()),
        None => None,
    }
}

/// The grouping key that an expression is.
pub open spec fn key_of(e: ExprV, vars: Seq<Seq<char>>) -> Option<KeyV> {
    if ast::has_aggregate(e) || ast::has_opaque(e) {
        None
    } else {
        match single_var(e, vars) {
            Some(kind) => Some(KeyV { kind, expr: e }),
            None => None,
        }
    }
}

pub fn group_key(e: &Expr, vars: &Vec<String>) -> (r: Option<AggKey>)
    ensures
        match r {
            Some(k) => key_of(e.v(), names::of(vars@)) == Some(k.v()),
            None => key_of(e.v(), names::of(vars@)) is None,
        },
{
    if expr_has_aggregate(e) || contains_opaque(e) {
        return None;
    }
    match classify_single_var(e, vars) {
        Some(kind) => Some(AggKey { kind, expr: e.copy() }),
        None => None,
    }
}

/// The expressions of the items that group.
pub open spec fn key_exprs(items: Seq<ItemV>, plans: Seq<AggItemV>) -> Seq<ExprV>
    decreases items.len(),
{
    if items.len() == 0 {
        Seq::empty()
    } else {
        let rest = key_exprs(items.drop_last(), plans);
        if plans[items.len() - 1] is Key {
            rest.push(items.last().expr)
        } else {
            rest
        }
    }
}

/// The grouping keys of a projection.
pub open spec fn keys_of(items: Seq<ItemV>, plans: Seq<AggItemV>, vars: Seq<Seq<char>>) -> Option<
    Seq<KeyV>,
> {
    seqs::try_map(key_exprs(items, plans), |e: ExprV| key_of(e, vars))
}

proof fn lemma_key_exprs(items: Seq<ItemV>, plans: Seq<AggItemV>, n: int)
    requires
        0 <= n < items.len(),
        plans[n] is Key,
    ensures
        key_exprs(items, plans).contains(items[n].expr),
    decreases items.len(),
{
    let rest = key_exprs(items.drop_last(), plans);
    if n == items.len() - 1 {
        assert(key_exprs(items, plans).last() == items[n].expr);
    } else {
        lemma_key_exprs(items.drop_last(), plans, n);
        let k = choose|k: int| 0 <= k < rest.len() && rest[k] == items[n].expr;
        assert(key_exprs(items, plans)[k] == items[n].expr);
    }
}

fn collect_keys(proj: &Projection, plans: &Vec<AggItem>, vars: &Vec<String>) -> (r: Option<
    Vec<AggKey>,
>)
    requires
        plans@.len() == proj.items@.len(),
    ensures
        match r {
            Some(ks) => keys_of(proj.v().items, agg_items_v(plans@), names::of(vars@)) == Some(
                keys_v(ks@),
            ),
            None => keys_of(proj.v().items, agg_items_v(plans@), names::of(vars@)) is None,
        },
{
    let ghost items = proj.v().items;
    let ghost ps = agg_items_v(plans@);
    let ghost vs = names::of(vars@);
    let ghost f = |e: ExprV| key_of(e, vs);
    let mut r: Vec<AggKey> = Vec::new();
    let mut i: usize = 0;
    assert(items.take(0) =~= Seq::empty());
    while i < proj.items.len()
        invariant
            i <= proj.items@.len(),
            plans@.len() == proj.items@.len(),
            items == proj.v().items,
            ps == agg_items_v(plans@),
            vs == names::of(vars@),
            f == (|e: ExprV| key_of(e, vs)),
            r@.len() == key_exprs(items.take(i as int), ps).len(),
            forall|j: int|
                0 <= j < r@.len() ==> f(#[trigger] key_exprs(items.take(i as int), ps)[j]) == Some(
                    r@[j].v(),
                ),
        decreases proj.items.len() - i,
    {
        proof {
            seqs::lemma_take_last(items, i as int);
            assert(items[i as int] == proj.items@[i as int].v());
            assert(ps[i as int] == plans@[i as int].v());
        }
        if matches!(plans[i], AggItem::Key) {
            match group_key(&proj.items[i].expr, vars) {
                None => {
                    proof {
                        lemma_key_exprs(items, ps, i as int);
                        let all = key_exprs(items, ps);
                        let k = choose|k: int|
                            0 <= k < all.len() && all[k] == items[i as int].expr;
                        assert(f(all[k]) is None);
                    }
                    return None;
                },
                Some(k) => {
                    r.push(k);
                },
            }
        }
        i = i + 1;
    }
    proof {
        assert(items.take(i as int) =~= items);
        let all = key_exprs(items, ps);
        assert(keys_v(r@) =~= all.map_values(|e: ExprV| f(e)->0));
    }
    Some(r)
}

/// How the argument of an aggregate is read per row.
pub open spec fn arg_of(s: SiteV, vars: Seq<Seq<char>>) -> Option<ArgV> {
    if s.star {
        Some(ArgV::Star)
    } else if s.args.len() != 1 || ast::has_opaque(s.args[0]) {
        None
    } else {
        match single_var(s.args[0], vars) {
            Some(SingleVar::Node(i)) => Some(ArgV::Node(i)),
            Some(SingleVar::Col(i)) => Some(ArgV::Col(i, s.args[0])),
            Some(SingleVar::Const) => Some(ArgV::Const(s.args[0])),
            None => None,
        }
    }
}

fn site_arg(s: &AggSite, vars: &Vec<String>) -> (r: Option<SiteArgPlan>)
    ensures
        match r {
            Some(a) => arg_of(s.v(), names::of(vars@)) == Some(a.v()),
            None => arg_of(s.v(), names::of(vars@)) is None,
        },
{
    if s.star {
        return Some(SiteArgPlan::Star);
    }
    if s.args.len() != 1 {
        return None;
    }
    assert(s.v().args[0] == s.args@[0].v());
    let a = &s.args[0];
    if contains_opaque(a) {
        return None;
    }
    match classify_single_var(a, vars) {
        Some(SingleVar::Node(i)) => Some(SiteArgPlan::Node(i)),
        Some(SingleVar::Col(i)) => Some(SiteArgPlan::Col(i, a.copy())),
        Some(SingleVar::Const) => Some(SiteArgPlan::Const(a.copy())),
        None => None,
    }
}

fn collect_args(sites: &Vec<AggSite>, vars: &Vec<String>) -> (r: Option<Vec<SiteArgPlan>>)
    ensures
        match r {
            Some(a) => seqs::try_map(sites_v(sites@), |s: SiteV| arg_of(s, names::of(vars@)))
                == Some(args_v(a@)),
            None => seqs::try_map(sites_v(sites@), |s: SiteV| arg_of(s, names::of(vars@))) is None,
        },
{
    let ghost ss = sites_v(sites@);
    let ghost f = |s: SiteV| arg_of(s, names::of(vars@));
    let mut r: Vec<SiteArgPlan> = Vec::new();
    let mut i: usize = 0;
    while i < sites.len()
        invariant
            i <= sites@.len(),
            ss == sites_v(sites@),
            f == (|s: SiteV| arg_of(s, names::of(vars@))),
            r@.len() == i,
            forall|j: int| 0 <= j < i ==> f(#[trigger] ss[j]) == Some(r@[j].v()),
        decreases sites.len() - i,
    {
        assert(ss[i as int] == sites@[i as int].v());
        match site_arg(&sites[i], vars) {
            None => {
                assert(f(ss[i as int]) is None);
                return None;
            },
            Some(a) => {
                r.push(a);
            },
        }
        i = i + 1;
    }
    assert(args_v(r@) =~= ss.map_values(|s: SiteV| f(s)->0));
    Some(r)
}

/// The variable that a key reads.
pub open spec fn kind_var(k: SingleVar) -> Option<usize> {
    match k {
        SingleVar::Node(i) => Some(i),
        SingleVar::Col(i) => Some(i),
        SingleVar::Const => None,
    }
}

/// The names of the variables that keys read.
pub open spec fn key_vars(keys: Seq<KeyV>, vars: Seq<Seq<char>>) -> Seq<Seq<char>>
    decreases keys.len(),
{
    if keys.len() == 0 {
        Seq::empty()
    } else {
        match kind_var(keys.last().kind) {
            Some(i) => key_vars(keys.drop_last(), vars).push(vars[i as int]),
            None => key_vars(keys.drop_last(), vars),
        }
    }
}

fn grouped_names(keys: &Vec<AggKey>, vars: &Vec<String>) -> (r: Vec<String>)
    requires
        forall|k: int|
            0 <= k < keys@.len() ==> (kind_var((#[trigger] keys@[k]).kind) matches Some(i) ==> i
                < vars@.len()),
    ensures
        names::of(r@) == key_vars(keys_v(keys@), names::of(vars@)),
{
    let ghost ks = keys_v(keys@);
    let mut r: Vec<String> = Vec::new();
    let mut i: usize = 0;
    proof {
        assert(ks.take(0) =~= Seq::empty());
        assert(names::of(r@) =~= Seq::empty());
    }
    while i < keys.len()
        invariant
            i <= keys@.len(),
            ks == keys_v(keys@),
            forall|k: int|
                0 <= k < keys@.len() ==> (kind_var((#[trigger] keys@[k]).kind) matches Some(i) ==> i
                    < vars@.len()),
            names::of(r@) == key_vars(ks.take(i as int), names::of(vars@)),
        decreases keys.len() - i,
    {
        proof {
            seqs::lemma_take_last(ks, i as int);
            assert(ks[i as int] == keys@[i as int].v());
        }
        let ghost r0 = r@;
        match keys[i].kind {
            SingleVar::Node(v) => {
                r.push(vars[v].clone());
                assert(names::of(r@) =~= names::of(r0).push(vars@[v as int]@));
            },
            SingleVar::Col(v) => {
                r.push(vars[v].clone());
                assert(names::of(r@) =~= names::of(r0).push(vars@[v as int]@));
            },
            SingleVar::Const => {},
        }
        i = i + 1;
    }
    assert(ks.take(i as int) =~= ks);
    r
}

pub proof fn lemma_single_in(e: ExprV, vars: Seq<Seq<char>>)
    requires
        vars.len() <= usize::MAX,
    ensures
        single_var(e, vars) matches Some(k) ==> (kind_var(k) matches Some(i) ==> i < vars.len()),
{
    match ast::as_var(e) {
        Some(x) => {
            names::lemma_position(vars, x);
        },
        None => {
            lemma_sole_in(e, vars);
        },
    }
}

proof fn lemma_sole_in(e: ExprV, vars: Seq<Seq<char>>)
    ensures
        ast::sole_reader(e, vars) matches Some(i) ==> 0 <= i < vars.len(),
    decreases vars.len(),
{
    if vars.len() > 0 {
        lemma_sole_in(e, vars.drop_last());
    }
}

/// Whether an item over groups reads nothing but grouping variables.
pub open spec fn item_grouped(p: AggItemV, grouped: Seq<Seq<char>>) -> bool {
    p matches AggItemV::Agg(e) ==> ast::reads_only(e, grouped)
}

fn items_grouped(plans: &Vec<AggItem>, grouped: &Vec<String>) -> (b: bool)
    ensures
        b == (forall|i: int|
            0 <= i < plans@.len() ==> item_grouped(
                (#[trigger] agg_items_v(plans@)[i]),
                names::of(grouped@),
            )),
{
    let mut i: usize = 0;
    while i < plans.len()
        invariant
            i <= plans@.len(),
            forall|j: int|
                0 <= j < i ==> item_grouped(
                    (#[trigger] agg_items_v(plans@)[j]),
                    names::of(grouped@),
                ),
        decreases plans.len() - i,
    {
        assert(agg_items_v(plans@)[i as int] == plans@[i as int].v());
        match &plans[i] {
            AggItem::Agg(e) => {
                if !reads_within(e, grouped) {
                    return false;
                }
            },
            AggItem::Key => {},
        }
        i = i + 1;
    }
    true
}

/// Whether a condition and a projection read the columns of the projection
/// before them, and aggregate nothing.
pub open spec fn tail_ok(post: Option<ExprV>, rp: ProjV, columns: Seq<Seq<char>>) -> bool {
    &&& !rp.star
    &&& (post matches Some(w) ==> !ast::has_aggregate(w) && !ast::has_opaque(w))
    &&& forall|i: int|
        0 <= i < rp.items.len() ==> !ast::has_aggregate((#[trigger] rp.items[i]).expr)
            && ast::reads_only(rp.items[i].expr, columns)
}

/// The columns of a projection.
pub fn output_columns(proj: &Projection) -> (r: Vec<String>)
    ensures
        names::of(r@) == query::columns_of(proj.v().items),
{
    let mut r: Vec<String> = Vec::new();
    let mut i: usize = 0;
    while i < proj.items.len()
        invariant
            i <= proj.items@.len(),
            r@.len() == i,
            forall|j: int|
                0 <= j < i ==> (#[trigger] r@[j])@ == query::column_of(proj.items@[j].v()),
        decreases proj.items.len() - i,
    {
        let c = proj.items[i].column();
        r.push(c);
        i = i + 1;
    }
    assert(names::of(r@) =~= query::columns_of(proj.v().items));
    r
}

pub fn is_tail_ok(post: Option<&Expr>, rp: &Projection, columns: &Vec<String>) -> (b: bool)
    ensures
        b == tail_ok(ast::ref_v(post), rp.v(), names::of(columns@)),
{
    if rp.star {
        return false;
    }
    match post {
        Some(w) => {
            if expr_has_aggregate(w) || contains_opaque(w) {
                return false;
            }
        },
        None => {},
    }
    let mut i: usize = 0;
    while i < rp.items.len()
        invariant
            i <= rp.items@.len(),
            forall|j: int|
                0 <= j < i ==> !ast::has_aggregate((#[trigger] rp.v().items[j]).expr)
                    && ast::reads_only(rp.v().items[j].expr, names::of(columns@)),
        decreases rp.items.len() - i,
    {
        assert(rp.v().items[i as int] == rp.items@[i as int].v());
        if expr_has_aggregate(&rp.items[i].expr) || !reads_within(&rp.items[i].expr, columns) {
            return false;
        }
        i = i + 1;
    }
    true
}

/// Where groups go, given what follows the projection that makes them.
pub open spec fn form_of(proj: ProjV, with: Option<(Option<ExprV>, ProjV)>) -> Option<FormV> {
    match with {
        None => Some(FormV::Return(proj)),
        Some((post, rp)) => if tail_ok(post, rp, query::columns_of(proj.items)) {
            Some(FormV::With { with_proj: proj, post_where: post, return_proj: rp })
        } else {
            None
        },
    }
}

/// What follows a projection that makes groups.
pub open spec fn with_v(with: Option<(Option<&Expr>, &Projection)>) -> Option<
    (Option<ExprV>, ProjV),
> {
    match with {
        Some((post, rp)) => Some((ast::ref_v(post), rp.v())),
        None => None,
    }
}

pub fn make_form(proj: &Projection, with: Option<(Option<&Expr>, &Projection)>) -> (r: Option<AggForm>)
    ensures
        match r {
            Some(f) => form_of(proj.v(), with_v(with)) == Some(f.v()),
            None => form_of(proj.v(), with_v(with)) is None,
        },
{
    match with {
        None => Some(AggForm::Return(proj.copy())),
        Some((post, rp)) => {
            let columns = output_columns(proj);
            if is_tail_ok(post, rp, &columns) {
                Some(
                    AggForm::With {
                        with_proj: proj.copy(),
                        post_where: ast::copy_opt(post),
                        return_proj: rp.copy(),
                    },
                )
            } else {
                None
            }
        },
    }
}

/// The groups of a chain under an aggregating projection.
pub open spec fn aggregate_plan(
    chain: ChainV,
    proj: ProjV,
    with: Option<(Option<ExprV>, ProjV)>,
) -> Option<AggV> {
    let (agg_items, sites) = plan_items(proj.items);
    if proj.star || proj.distinct || !query::any_aggregate(proj.items) {
        None
    } else if with is Some && (proj.order.len() > 0 || proj.skip is Some || proj.limit is Some) {
        None
    } else {
        match (
            keys_of(proj.items, agg_items, chain.vars),
            seqs::try_map(sites, |s: SiteV| arg_of(s, chain.vars)),
            form_of(proj, with),
        ) {
            (Some(group_keys), Some(site_args), Some(form)) => if forall|i: int|
                0 <= i < agg_items.len() ==> item_grouped(
                    #[trigger] agg_items[i],
                    key_vars(group_keys, chain.vars),
                ) {
                Some(AggV { chain, group_keys, sites, site_args, agg_items, form })
            } else {
                None
            },
            _ => None,
        }
    }
}

pub proof fn lemma_plan_items_len(items: Seq<ItemV>)
    ensures
        plan_items(items).0.len() == items.len(),
    decreases items.len(),
{
    if items.len() > 0 {
        lemma_plan_items_len(items.drop_last());
    }
}

pub proof fn lemma_keys_in(items: Seq<ItemV>, plans: Seq<AggItemV>, vars: Seq<Seq<char>>)
    requires
        vars.len() <= usize::MAX,
    ensures
        keys_of(items, plans, vars) matches Some(ks) ==> forall|k: int|
            0 <= k < ks.len() ==> (kind_var((#[trigger] ks[k]).kind) matches Some(i) ==> i
                < vars.len()),
{
    if keys_of(items, plans, vars) is Some {
        let ks = keys_of(items, plans, vars)->0;
        let es = key_exprs(items, plans);
        let f = |e: ExprV| key_of(e, vars);
        assert forall|k: int| 0 <= k < ks.len() implies (kind_var((#[trigger] ks[k]).kind) matches
            Some(i) ==> i < vars.len()) by {
            assert(f(es[k]) is Some);
            lemma_single_in(es[k], vars);
        }
    }
}

/// Puts an aggregating projection on a chain.
pub fn aggregate_over_chain(
    chain: Chain,
    proj: &Projection,
    with: Option<(Option<&Expr>, &Projection)>,
) -> (r: Option<AggPlan>)
    ensures
        agg_opt(r) == aggregate_plan(chain.v(), proj.v(), with_v(with)),
{
    if proj.star || proj.distinct || !items_aggregate(proj) {
        return None;
    }
    if with.is_some() && (proj.order.len() > 0 || proj.skip.is_some() || proj.limit.is_some()) {
        return None;
    }
    let (sites, agg_items) = plan_agg_projection(proj);
    proof {
        lemma_plan_items_len(proj.v().items);
        assert(chain.vars@.len() == chain.vars.len());
        lemma_keys_in(proj.v().items, agg_items_v(agg_items@), chain.v().vars);
    }
    let group_keys = match collect_keys(proj, &agg_items, &chain.vars) {
        Some(k) => k,
        None => {
            return None;
        },
    };
    let site_args = match collect_args(&sites, &chain.vars) {
        Some(a) => a,
        None => {
            return None;
        },
    };
    proof {
        assert forall|k: int| 0 <= k < group_keys@.len() implies (kind_var(
            (#[trigger] group_keys@[k]).kind,
        ) matches Some(i) ==> i < chain.vars@.len()) by {
            assert(keys_v(group_keys@)[k] == group_keys@[k].v());
        }
    }
    let grouped = grouped_names(&group_keys, &chain.vars);
    if !items_grouped(&agg_items, &grouped) {
        return None;
    }
    match make_form(proj, with) {
        Some(form) => Some(AggPlan { chain, group_keys, sites, site_args, agg_items, form }),
        None => None,
    }
}

} // verus!
