//! Planning an aggregating projection loses nothing: what is projected can be put
//! together again from its keys and its lifted aggregates.

use vstd::prelude::*;

use crate::ast;
use crate::ast::{ExprV, HeadV};
use crate::clause_law;
use crate::distinct;
use crate::meaning::{looks_only, value_of, EvalV};
use crate::names;
use crate::plan::{aggregate_plan, arg_of, key_exprs, key_of, lift, lift_args, plan_items, single_var, AggItemV, AggV, ArgV, FormV, KeyV, SingleVar, SiteV};
use crate::preds::ChainV;
use crate::query::{ItemV, ProjV};
use crate::seqs;

verus! {

/// Whether an expression is a call of one of the aggregates that groups can feed.
pub open spec fn is_fed(e: ExprV) -> bool {
    e.head matches HeadV::Call(f) && f.aggregate && (f.name == "count"@ || f.name == "sum"@ || f.name
        == "avg"@ || f.name == "min"@ || f.name == "max"@ || f.name == "collect"@)
}

/// Whether an expression holds no number of a lifted aggregate.
pub open spec fn unlifted(e: ExprV) -> bool
    decreases e,
{
    !(e.head is Site) && forall|i: int| 0 <= i < e.args.len() ==> unlifted(#[trigger] e.args[i])
}

/// Whether putting the call of each lifted aggregate back in place of its number gives
/// an expression: its name, whether it counts repeats, its star and its operands.
pub open spec fn restores(l: ExprV, ss: Seq<SiteV>, e: ExprV) -> bool
    decreases l,
{
    match l.head {
        HeadV::Site(k) => k < ss.len() && is_fed(e) && (e.head matches HeadV::Call(f) && f.name
            == ss[k as int].name && f.distinct == ss[k as int].distinct && f.star
            == ss[k as int].star) && e.args == ss[k as int].args,
        _ => e.head == l.head && e.args.len() == l.args.len() && forall|i: int|
            0 <= i < l.args.len() ==> restores(#[trigger] l.args[i], ss, e.args[i]),
    }
}

/// Whether an expression holds an aggregate that groups can feed.
pub open spec fn holds_fed(e: ExprV) -> bool
    decreases e,
{
    is_fed(e) || exists|i: int| 0 <= i < e.args.len() && holds_fed(#[trigger] e.args[i])
}

/// Whether an expression holds the number of a lifted aggregate.
pub open spec fn uses(l: ExprV, k: int) -> bool
    decreases l,
{
    (l.head matches HeadV::Site(j) && j == k) || exists|i: int|
        0 <= i < l.args.len() && uses(#[trigger] l.args[i], k)
}

/// Lifting the aggregates of an expression loses nothing: putting them back gives the
/// expression again, none is left in place, and each is numbered once it is used.
pub proof fn law_lifting_is_undone(e: ExprV, base: nat, ss: Seq<SiteV>)
    requires
        unlifted(e),
        base + lift(e, base).1.len() <= ss.len() <= usize::MAX,
        forall|k: int|
            0 <= k < lift(e, base).1.len() ==> ss[base + k] == #[trigger] lift(e, base).1[k],
    ensures
        restores(lift(e, base).0, ss, e),
        !holds_fed(lift(e, base).0),
        lift(e, base).1.len() > 0 <==> holds_fed(e),
        forall|k: int| #[trigger]
            uses(lift(e, base).0, k) <==> base <= k < base + lift(e, base).1.len(),
    decreases e, e.args.len() + 1,
{
    let (l, sites) = lift(e, base);
    if is_fed(e) {
        assert(sites.len() == 1);
        assert(ss[base as int] == lift(e, base).1[0]);
    } else {
        let n = e.args.len();
        lemma_lift_args(e, base, n, ss);
        let (args, more) = lift_args(e, base, n);
        assert(l == ExprV { head: e.head, args });
        assert forall|k: int| #[trigger] uses(l, k) <==> base <= k < base + sites.len() by {
            if uses(l, k) {
                let i = choose|i: int| 0 <= i < l.args.len() && uses(#[trigger] l.args[i], k);
                assert(uses(args[i], k));
                assert(uses_any(args, k));
            }
            if uses_any(args, k) {
                let i = choose|i: int| 0 <= i < args.len() && uses(#[trigger] args[i], k);
                assert(uses(l.args[i], k));
            }
        }
        if holds_fed(e) {
            let i = choose|i: int| 0 <= i < e.args.len() && holds_fed(#[trigger] e.args[i]);
            assert(any_fed(e.args, n));
        }
        if any_fed(e.args, n) {
            let i = choose|i: int| 0 <= i < n && holds_fed(#[trigger] e.args[i]);
            assert(holds_fed(e.args[i]));
        }
    }
}

spec fn uses_any(args: Seq<ExprV>, k: int) -> bool {
    exists|i: int| 0 <= i < args.len() && uses(#[trigger] args[i], k)
}

spec fn any_fed(args: Seq<ExprV>, n: nat) -> bool {
    exists|i: int| 0 <= i < n && holds_fed(#[trigger] args[i])
}

proof fn lemma_lift_args(e: ExprV, base: nat, n: nat, ss: Seq<SiteV>)
    requires
        unlifted(e),
        n <= e.args.len(),
        base + lift_args(e, base, n).1.len() <= ss.len() <= usize::MAX,
        forall|k: int|
            0 <= k < lift_args(e, base, n).1.len() ==> ss[base + k] == #[trigger] lift_args(
                e,
                base,
                n,
            ).1[k],
    ensures
        lift_args(e, base, n).0.len() == n,
        forall|i: int|
            0 <= i < n ==> restores(#[trigger] lift_args(e, base, n).0[i], ss, e.args[i])
                && !holds_fed(lift_args(e, base, n).0[i]),
        lift_args(e, base, n).1.len() > 0 <==> any_fed(e.args, n),
        forall|k: int| #[trigger]
            uses_any(lift_args(e, base, n).0, k) <==> base <= k < base + lift_args(
                e,
                base,
                n,
            ).1.len(),
    decreases e, n,
{
    if n > 0 {
        let m = (n - 1) as nat;
        let (args, sites) = lift_args(e, base, m);
        let g = e.args[n - 1];
        let (a, more) = lift(g, base + sites.len());
        let all = lift_args(e, base, n);
        assert(all.0 == args.push(a) && all.1 == sites + more);
        assert forall|k: int| 0 <= k < sites.len() implies ss[base + k] == #[trigger] sites[k] by {
            assert(all.1[k] == sites[k]);
        }
        lemma_lift_args(e, base, m, ss);
        assert forall|k: int| 0 <= k < more.len() implies ss[base + sites.len() + k]
            == #[trigger] more[k] by {
            assert(all.1[sites.len() + k] == more[k]);
        }
        law_lifting_is_undone(g, base + sites.len(), ss);
        assert forall|i: int| 0 <= i < n implies restores(#[trigger] all.0[i], ss, e.args[i])
            && !holds_fed(all.0[i]) by {
            if i < m {
                assert(all.0[i] == args[i]);
            }
        }
        if any_fed(e.args, n) {
            let i = choose|i: int| 0 <= i < n && holds_fed(#[trigger] e.args[i]);
            if i < m {
                assert(any_fed(e.args, m));
            }
        }
        if any_fed(e.args, m) {
            let i = choose|i: int| 0 <= i < m && holds_fed(#[trigger] e.args[i]);
            assert(holds_fed(e.args[i]));
        }
        if holds_fed(g) {
            assert(holds_fed(e.args[n - 1]));
        }
        assert forall|k: int| #[trigger] uses_any(all.0, k) <==> base <= k < base + all.1.len() by {
            if uses_any(all.0, k) {
                let i = choose|i: int| 0 <= i < all.0.len() && uses(#[trigger] all.0[i], k);
                if i < m {
                    assert(uses(args[i], k));
                    assert(uses_any(args, k));
                } else {
                    assert(uses(a, k));
                }
            }
            if uses_any(args, k) {
                let i = choose|i: int| 0 <= i < args.len() && uses(#[trigger] args[i], k);
                assert(uses(all.0[i], k));
            }
            if uses(a, k) {
                assert(uses(all.0[n - 1], k));
            }
        }
    } else {
        assert forall|k: int| !#[trigger] uses_any(lift_args(e, base, n).0, k) by {}
    }
}

/// Whether an item uses a lifted aggregate.
pub open spec fn item_uses(p: AggItemV, k: int) -> bool {
    p matches AggItemV::Agg(l) && uses(l, k)
}

/// Whether one of some items uses a lifted aggregate.
pub open spec fn used_in(ps: Seq<AggItemV>, k: int) -> bool {
    exists|i: int| 0 <= i < ps.len() && item_uses(#[trigger] ps[i], k)
}

/// The items of a projection are put together again from what they are planned as: an
/// item without an aggregate is a key, and the aggregates of another are put back.
pub proof fn law_items_are_put_together(items: Seq<ItemV>, ss: Seq<SiteV>)
    requires
        forall|i: int| 0 <= i < items.len() ==> unlifted((#[trigger] items[i]).expr),
        plan_items(items).1.len() <= ss.len() <= usize::MAX,
        forall|k: int|
            0 <= k < plan_items(items).1.len() ==> ss[k] == #[trigger] plan_items(items).1[k],
    ensures
        plan_items(items).0.len() == items.len(),
        forall|i: int|
            0 <= i < items.len() ==> match #[trigger] plan_items(items).0[i] {
                AggItemV::Key => !holds_fed(items[i].expr),
                AggItemV::Agg(l) => holds_fed(items[i].expr) && restores(l, ss, items[i].expr)
                    && !holds_fed(l),
            },
        forall|k: int|
            0 <= k < plan_items(items).1.len() ==> #[trigger] used_in(plan_items(items).0, k),
    decreases items.len(),
{
    if items.len() > 0 {
        let p = items.drop_last();
        let (plans, sites) = plan_items(p);
        let e = items.last().expr;
        let (l, more) = lift(e, sites.len());
        let all = plan_items(items);
        assert(items[items.len() - 1].expr == e);
        assert forall|i: int| 0 <= i < p.len() implies unlifted((#[trigger] p[i]).expr) by {
            assert(items[i] == p[i]);
        }
        assert(all.1 == sites + more);
        assert forall|k: int| 0 <= k < sites.len() implies ss[k] == #[trigger] sites[k] by {
            assert(all.1[k] == sites[k]);
        }
        law_items_are_put_together(p, ss);
        assert forall|k: int| 0 <= k < more.len() implies ss[sites.len() + k] == #[trigger] more[k] by {
            assert(all.1[sites.len() + k] == more[k]);
        }
        law_lifting_is_undone(e, sites.len(), ss);
        assert forall|i: int| 0 <= i < items.len() implies match #[trigger] all.0[i] {
            AggItemV::Key => !holds_fed(items[i].expr),
            AggItemV::Agg(l) => holds_fed(items[i].expr) && restores(l, ss, items[i].expr)
                && !holds_fed(l),
        } by {
            if i < p.len() {
                assert(all.0[i] == plans[i] && items[i] == p[i]);
            }
        }
        assert forall|k: int| 0 <= k < all.1.len() implies #[trigger] used_in(all.0, k) by {
            if k < sites.len() {
                assert(used_in(plans, k));
                let i = choose|i: int|
                    0 <= i < plans.len() && item_uses(#[trigger] plans[i], k);
                assert(item_uses(all.0[i], k));
            } else {
                assert(uses(l, k));
                assert(all.0[items.len() - 1] == AggItemV::Agg(l));
                assert(item_uses(all.0[items.len() - 1], k));
            }
        }
    }
}

/// Whether a way to read an expression reads what the expression reads: the variable
/// that it is, the one variable that it reads, or none.
pub open spec fn reads_as(kind: SingleVar, e: ExprV, vars: Seq<Seq<char>>) -> bool {
    match kind {
        SingleVar::Node(i) => i < vars.len() && e.head == HeadV::Var(vars[i as int]),
        SingleVar::Col(i) => i < vars.len() && !(e.head is Var) && ast::reads(e, vars[i as int])
            && forall|x: Seq<char>| #[trigger] ast::reads(e, x) ==> x == vars[i as int],
        SingleVar::Const => forall|x: Seq<char>| !#[trigger] ast::reads(e, x),
    }
}

pub proof fn lemma_sole(e: ExprV, vars: Seq<Seq<char>>)
    ensures
        ast::sole_reader(e, vars) matches Some(i) ==> 0 <= i < vars.len() && ast::reads_one(
            e,
            vars[i],
        ),
    decreases vars.len(),
{
    if vars.len() > 0 {
        lemma_sole(e, vars.drop_last());
        if ast::sole_reader(e, vars.drop_last()) is Some {
            let i = ast::sole_reader(e, vars.drop_last())->0;
            assert(vars[i] == vars.drop_last()[i]);
        }
    }
}

proof fn lemma_reads_none(e: ExprV, x: Seq<char>)
    requires
        !ast::reads_any(e),
    ensures
        !ast::reads(e, x),
    decreases e,
{
    if ast::reads(e, x) && e.head != HeadV::Var(x) {
        let i = choose|i: int| 0 <= i < e.args.len() && ast::reads(#[trigger] e.args[i], x);
        assert(!ast::reads_any(e.args[i]));
        lemma_reads_none(e.args[i], x);
    }
}

proof fn lemma_reads_some(e: ExprV) -> (x: Seq<char>)
    requires
        ast::reads_any(e),
    ensures
        ast::reads(e, x),
    decreases e,
{
    match e.head {
        HeadV::Var(x) => x,
        _ => {
            let i = choose|i: int| 0 <= i < e.args.len() && ast::reads_any(#[trigger] e.args[i]);
            let x = lemma_reads_some(e.args[i]);
            assert(ast::reads(e.args[i], x));
            x
        },
    }
}

/// An expression is read as what it reads.
pub proof fn law_expression_is_read_as_it_reads(e: ExprV, vars: Seq<Seq<char>>)
    requires
        vars.len() <= usize::MAX,
    ensures
        single_var(e, vars) matches Some(kind) ==> reads_as(kind, e, vars),
{
    match e.head {
        HeadV::Var(x) => {
            names::lemma_position(vars, x);
        },
        _ => {
            lemma_sole(e, vars);
            if ast::reads_any(e) {
                let x = lemma_reads_some(e);
            } else {
                assert forall|x: Seq<char>| !#[trigger] ast::reads(e, x) by {
                    lemma_reads_none(e, x);
                }
            }
        },
    }
}

/// An expression comes to the same wherever the variable that it is read through stands
/// for the same.
pub proof fn law_reading_decides_value<V>(
    kind: SingleVar,
    e: ExprV,
    vars: Seq<Seq<char>>,
    ev: EvalV<V>,
    a: spec_fn(Seq<char>) -> V,
    b: spec_fn(Seq<char>) -> V,
)
    requires
        vars.len() <= usize::MAX,
        looks_only(ev),
        single_var(e, vars) == Some(kind),
        match kind {
            SingleVar::Node(i) => a(vars[i as int]) == b(vars[i as int]),
            SingleVar::Col(i) => a(vars[i as int]) == b(vars[i as int]),
            SingleVar::Const => true,
        },
    ensures
        value_of(e, ev, a) == value_of(e, ev, b),
        kind matches SingleVar::Node(i) ==> value_of(e, ev, a) == a(vars[i as int]),
{
    law_expression_is_read_as_it_reads(e, vars);
    if !(kind is Node) {
        assert forall|x: Seq<char>| ast::reads(e, x) implies #[trigger] a(x) == b(x) by {}
        clause_law::lemma_looks(e, ev, a, b);
    }
}

/// The expressions of the items without an aggregate that groups can feed.
pub open spec fn plain_exprs(items: Seq<ItemV>) -> Seq<ExprV> {
    items.filter(|it: ItemV| !holds_fed(it.expr)).map_values(|it: ItemV| it.expr)
}

proof fn lemma_key_exprs(items: Seq<ItemV>, plans: Seq<AggItemV>)
    requires
        plans.len() >= items.len(),
        forall|i: int|
            0 <= i < items.len() ==> (#[trigger] plans[i] is Key <==> !holds_fed(items[i].expr)),
    ensures
        key_exprs(items, plans) == plain_exprs(items),
    decreases items.len(),
{
    let keep = |it: ItemV| !holds_fed(it.expr);
    let make = |it: ItemV| it.expr;
    if items.len() == 0 {
        assert(items =~= Seq::empty());
        seqs::lemma_filter_empty(keep);
        assert(plain_exprs(items) =~= Seq::empty());
    } else {
        let p = items.drop_last();
        assert forall|i: int| 0 <= i < p.len() implies (#[trigger] plans[i] is Key <==> !holds_fed(
            p[i].expr,
        )) by {
            assert(p[i] == items[i]);
        }
        lemma_key_exprs(p, plans);
        seqs::lemma_filter_last(items, keep);
        assert(plans[items.len() - 1] is Key <==> !holds_fed(items[items.len() - 1].expr));
        if keep(items.last()) {
            assert(p.filter(keep).push(items.last()).map_values(make) =~= p.filter(
                keep,
            ).map_values(make).push(items.last().expr));
        }
    }
}

/// Whether the operand of a lifted aggregate is read as it reads: all rows for a star,
/// and otherwise its one operand.
pub open spec fn feeds(a: ArgV, s: SiteV, vars: Seq<Seq<char>>) -> bool {
    if s.star {
        a is Star
    } else {
        s.args.len() == 1 && match a {
            ArgV::Star => false,
            ArgV::Node(i) => reads_as(SingleVar::Node(i), s.args[0], vars),
            ArgV::Col(i, e) => e == s.args[0] && reads_as(SingleVar::Col(i), e, vars),
            ArgV::Const(e) => e == s.args[0] && reads_as(SingleVar::Const, e, vars),
        }
    }
}

/// Whether groups are planned as a projection over a chain says: their rows are those of
/// the chain, the keys are the items without an aggregate, in order, each read as it
/// reads, the other items are put together again from the lifted aggregates, each of
/// which is fed its operand, and what follows the groups (a condition on them, a
/// projection of them, or nothing) is kept as it is.
pub open spec fn agg_back(
    p: AggV,
    chain: ChainV,
    proj: ProjV,
    with: Option<(Option<ExprV>, ProjV)>,
) -> bool {
    &&& p.chain == chain
    &&& p.group_keys.map_values(|k: KeyV| k.expr) == plain_exprs(proj.items)
    &&& forall|k: int|
        0 <= k < p.group_keys.len() ==> reads_as(
            (#[trigger] p.group_keys[k]).kind,
            p.group_keys[k].expr,
            chain.vars,
        )
    &&& p.agg_items.len() == proj.items.len()
    &&& forall|i: int|
        0 <= i < proj.items.len() ==> match #[trigger] p.agg_items[i] {
            AggItemV::Key => !holds_fed(proj.items[i].expr),
            AggItemV::Agg(l) => restores(l, p.sites, proj.items[i].expr) && !holds_fed(l)
                && holds_fed(proj.items[i].expr),
        }
    &&& p.site_args.len() == p.sites.len()
    &&& forall|k: int|
        0 <= k < p.sites.len() ==> feeds(#[trigger] p.site_args[k], p.sites[k], chain.vars)
    &&& match (with, p.form) {
        (None, FormV::Return(r)) => r == proj,
        (Some((post, rp)), FormV::With { with_proj, post_where, return_proj }) => with_proj
            == proj && post_where == post && return_proj == rp && proj.order.len() == 0
            && proj.skip is None && proj.limit is None,
        _ => false,
    }
    &&& !proj.distinct && !proj.star
}

/// Planning an aggregating projection over a chain loses nothing.
pub proof fn law_aggregate_plan_is_projection(
    chain: ChainV,
    proj: ProjV,
    with: Option<(Option<ExprV>, ProjV)>,
    p: AggV,
)
    requires
        aggregate_plan(chain, proj, with) == Some(p),
        chain.vars.len() <= usize::MAX,
        p.sites.len() <= usize::MAX,
        forall|i: int| 0 <= i < proj.items.len() ==> unlifted((#[trigger] proj.items[i]).expr),
    ensures
        agg_back(p, chain, proj, with),
{
    let vars = chain.vars;
    let (plans, sites) = plan_items(proj.items);
    law_items_are_put_together(proj.items, p.sites);
    lemma_key_exprs(proj.items, plans);
    let es = key_exprs(proj.items, plans);
    let f = |e: ExprV| key_of(e, vars);
    assert(p.group_keys == es.map_values(|e: ExprV| f(e)->0));
    assert forall|k: int| 0 <= k < p.group_keys.len() implies reads_as(
        (#[trigger] p.group_keys[k]).kind,
        p.group_keys[k].expr,
        vars,
    ) && p.group_keys[k].expr == es[k] by {
        assert(f(es[k]) is Some);
        law_expression_is_read_as_it_reads(es[k], vars);
    }
    assert(p.group_keys.map_values(|k: KeyV| k.expr) =~= es);
    let g = |s: SiteV| arg_of(s, vars);
    assert forall|k: int| 0 <= k < p.sites.len() implies feeds(
        #[trigger] p.site_args[k],
        p.sites[k],
        vars,
    ) by {
        assert(g(sites[k]) is Some);
        if !sites[k].star {
            law_expression_is_read_as_it_reads(sites[k].args[0], vars);
        }
    }
}

/// Whether groups without aggregates are planned as a distinct projection over a chain
/// says: every item is a key, in order, and what follows is kept as it is.
pub open spec fn distinct_back(
    p: AggV,
    chain: ChainV,
    proj: ProjV,
    with: Option<(Option<ExprV>, ProjV)>,
) -> bool {
    &&& p.chain == chain
    &&& p.group_keys.map_values(|k: KeyV| k.expr) == proj.items.map_values(|it: ItemV| it.expr)
    &&& forall|k: int|
        0 <= k < p.group_keys.len() ==> reads_as(
            (#[trigger] p.group_keys[k]).kind,
            p.group_keys[k].expr,
            chain.vars,
        )
    &&& match (with, p.form) {
        (None, FormV::Return(r)) => r == proj,
        (
            Some((post, rp)),
            FormV::With { with_proj, post_where, return_proj },
        ) => with_proj == proj && post_where == post && return_proj == rp,
        _ => false,
    }
    &&& proj.distinct && !proj.star
}

proof fn lemma_all_keys(items: Seq<ItemV>, vars: Seq<Seq<char>>, ks: Seq<KeyV>)
    requires
        distinct::all_keys(items, vars) == Some(ks),
        vars.len() <= usize::MAX,
    ensures
        ks.map_values(|k: KeyV| k.expr) == items.map_values(|it: ItemV| it.expr),
        forall|k: int|
            0 <= k < ks.len() ==> reads_as((#[trigger] ks[k]).kind, ks[k].expr, vars),
{
    let f = |it: ItemV| key_of(it.expr, vars);
    assert(ks == items.map_values(|it: ItemV| f(it)->0));
    assert forall|k: int| 0 <= k < ks.len() implies reads_as((#[trigger] ks[k]).kind, ks[k].expr, vars)
        && ks[k].expr == items[k].expr by {
        assert(f(items[k]) is Some);
        law_expression_is_read_as_it_reads(items[k].expr, vars);
    }
    assert(ks.map_values(|k: KeyV| k.expr) =~= items.map_values(|it: ItemV| it.expr));
}

/// Planning a distinct projection over a chain loses nothing.
pub proof fn law_distinct_plan_is_projection(chain: ChainV, proj: ProjV, p: AggV)
    requires
        distinct::distinct_plan(chain, proj) == Some(p),
        chain.vars.len() <= usize::MAX,
    ensures
        distinct_back(p, chain, proj, None),
{
    lemma_all_keys(proj.items, chain.vars, p.group_keys);
}

/// Planning a distinct projection and what follows it over a chain loses nothing.
pub proof fn law_distinct_with_plan_is_projection(
    chain: ChainV,
    proj: ProjV,
    post: Option<ExprV>,
    rp: ProjV,
    p: AggV,
)
    requires
        distinct::distinct_with_plan(chain, proj, post, rp) == Some(p),
        chain.vars.len() <= usize::MAX,
    ensures
        distinct_back(p, chain, proj, Some((post, rp))),
{
    lemma_all_keys(proj.items, chain.vars, p.group_keys);
}

} // verus!
