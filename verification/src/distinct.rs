//! Distinct rows as groups without aggregates.

use vstd::prelude::*;

use crate::ast;
use crate::ast::{contains_opaque, expr_has_aggregate, reads_within, ExprV};
use crate::ast::Expr;
use crate::hop::hops_have_varlen;
use crate::hop::StepHop;
use crate::names;
use crate::plan;
use crate::plan::{agg_opt, group_key, key_of, make_form, plan_agg_projection, plan_items, varlen_distinct_consumed, varlen_ok, AggForm, AggKey, AggPlan, AggV, FormV, KeyV};
use crate::preds::{chain_of, recognise_chain, Chain, ChainV};
use crate::query::{Clause, ClauseV, ItemV, OrderV, ProjV, Projection, SingleQuery};
use crate::seqs;

verus! {

/// The grouping keys of items that all group.
pub open spec fn all_keys(items: Seq<ItemV>, vars: Seq<Seq<char>>) -> Option<Seq<KeyV>> {
    seqs::try_map(items, |it: ItemV| key_of(it.expr, vars))
}

fn every_key(proj: &Projection, vars: &Vec<String>) -> (r: Option<Vec<AggKey>>)
    ensures
        match r {
            Some(ks) => all_keys(proj.v().items, names::of(vars@)) == Some(plan::keys_v(ks@)),
            None => all_keys(proj.v().items, names::of(vars@)) is None,
        },
{
    let ghost items = proj.v().items;
    let ghost f = |it: ItemV| key_of(it.expr, names::of(vars@));
    let mut r: Vec<AggKey> = Vec::new();
    let mut i: usize = 0;
    while i < proj.items.len()
        invariant
            i <= proj.items@.len(),
            items == proj.v().items,
            f == (|it: ItemV| key_of(it.expr, names::of(vars@))),
            r@.len() == i,
            forall|j: int| 0 <= j < i ==> f(#[trigger] items[j]) == Some(r@[j].v()),
        decreases proj.items.len() - i,
    {
        assert(items[i as int] == proj.items@[i as int].v());
        match group_key(&proj.items[i].expr, vars) {
            None => {
                assert(f(items[i as int]) is None);
                return None;
            },
            Some(k) => {
                r.push(k);
            },
        }
        i = i + 1;
    }
    assert(plan::keys_v(r@) =~= items.map_values(|it: ItemV| f(it)->0));
    Some(r)
}

/// Whether an item puts a whole entity in the output under its own name.
pub open spec fn whole(it: ItemV, x: Seq<char>) -> bool {
    ast::as_var(it.expr) == Some(x) && (it.alias is None || it.alias == Some(x))
}

/// Whether some item puts a whole entity in the output under its own name.
pub open spec fn is_whole(items: Seq<ItemV>, x: Seq<char>) -> bool {
    exists|i: int| 0 <= i < items.len() && whole(#[trigger] items[i], x)
}

/// Whether a sort key can be computed from distinct rows: it is an item, or it
/// reads only whole entities.
pub open spec fn sorts_distinct(o: OrderV, items: Seq<ItemV>) -> bool {
    &&& !ast::has_opaque(o.expr) && !ast::has_aggregate(o.expr)
    &&& (exists|i: int| 0 <= i < items.len() && (#[trigger] items[i]).expr == o.expr) || (forall|
        x: Seq<char>,
    | #[trigger]
        ast::reads(o.expr, x) ==> is_whole(items, x))
}

fn whole_names(proj: &Projection) -> (r: Vec<String>)
    ensures
        forall|x: Seq<char>|
            #![trigger names::of(r@).contains(x)]
            #![trigger is_whole(proj.v().items, x)]
            names::of(r@).contains(x) <==> is_whole(proj.v().items, x),
{
    let ghost items = proj.v().items;
    let mut r: Vec<String> = Vec::new();
    let mut i: usize = 0;
    assert(items.take(0) =~= Seq::empty());
    while i < proj.items.len()
        invariant
            i <= proj.items@.len(),
            items == proj.v().items,
            forall|x: Seq<char>|
                #![trigger names::of(r@).contains(x)]
                #![trigger is_whole(items.take(i as int), x)]
                names::of(r@).contains(x) <==> is_whole(items.take(i as int), x),
        decreases proj.items.len() - i,
    {
        let ghost r0 = names::of(r@);
        let ghost pre = items.take(i as int);
        proof {
            seqs::lemma_take_last(items, i as int);
            assert(items[i as int] == proj.items@[i as int].v());
        }
        let it = &proj.items[i];
        match &it.expr.head {
            ast::Head::Var(x) => {
                let own = match &it.alias {
                    Some(a) => *a == *x,
                    None => true,
                };
                if own {
                    r.push(x.clone());
                    assert(names::of(r@) =~= r0.push(x@));
                    assert(whole(items[i as int], x@));
                }
            },
            _ => {},
        }
        proof {
            let post = items.take(i + 1);
            assert forall|x: Seq<char>|
                #![trigger names::of(r@).contains(x)]
                #![trigger is_whole(post, x)]
                names::of(r@).contains(x) <==> is_whole(post, x) by {
                assert(r0.contains(x) <==> is_whole(pre, x));
                if is_whole(pre, x) {
                    let k = choose|k: int| 0 <= k < pre.len() && whole(#[trigger] pre[k], x);
                    assert(whole(post[k], x));
                }
                if whole(items[i as int], x) {
                    assert(whole(post[i as int], x));
                }
                if is_whole(post, x) && !whole(items[i as int], x) {
                    let k = choose|k: int| 0 <= k < post.len() && whole(#[trigger] post[k], x);
                    assert(whole(pre[k], x));
                }
                if r0.contains(x) {
                    let k = choose|k: int| 0 <= k < r0.len() && r0[k] == x;
                    assert(names::of(r@)[k] == x);
                }
                if names::of(r@).contains(x) && !r0.contains(x) {
                    let k = choose|k: int| 0 <= k < names::of(r@).len() && names::of(r@)[k] == x;
                    if k < r0.len() {
                        assert(r0[k] == x);
                    }
                }
                if names::of(r@).len() > r0.len() {
                    assert(names::of(r@)[r0.len() as int] == names::of(r@).last());
                }
            }
        }
        i = i + 1;
    }
    assert(items.take(i as int) =~= items);
    r
}

fn order_sorts(proj: &Projection, whole: &Vec<String>, k: usize) -> (b: bool)
    requires
        k < proj.order@.len(),
        forall|x: Seq<char>|
            #![trigger names::of(whole@).contains(x)]
            #![trigger is_whole(proj.v().items, x)]
            names::of(whole@).contains(x) <==> is_whole(proj.v().items, x),
    ensures
        b == sorts_distinct(proj.v().order[k as int], proj.v().items),
{
    let e = &proj.order[k].expr;
    assert(proj.v().order[k as int] == proj.order@[k as int].v());
    if contains_opaque(e) || expr_has_aggregate(e) {
        return false;
    }
    let mut i: usize = 0;
    while i < proj.items.len()
        invariant
            i <= proj.items@.len(),
            k < proj.order@.len(),
            e.v() == proj.v().order[k as int].expr,
            !ast::has_opaque(e.v()),
            !ast::has_aggregate(e.v()),
            forall|j: int| 0 <= j < i ==> (#[trigger] proj.v().items[j]).expr != e.v(),
        decreases proj.items.len() - i,
    {
        assert(proj.v().items[i as int] == proj.items@[i as int].v());
        if proj.items[i].expr.same(e) {
            return true;
        }
        i = i + 1;
    }
    reads_within(e, whole)
}

/// The distinct rows of a chain.
pub open spec fn distinct_plan(chain: ChainV, proj: ProjV) -> Option<AggV> {
    let (agg_items, sites) = plan_items(proj.items);
    if proj.star || !proj.distinct || proj.items.len() == 0 {
        None
    } else {
        match all_keys(proj.items, chain.vars) {
            None => None,
            Some(group_keys) => if forall|i: int|
                0 <= i < proj.order.len() ==> sorts_distinct(#[trigger] proj.order[i], proj.items) {
                Some(
                    AggV {
                        chain,
                        group_keys,
                        sites,
                        site_args: Seq::empty(),
                        agg_items,
                        form: FormV::Return(proj),
                    },
                )
            } else {
                None
            },
        }
    }
}

/// Keeps one row of a chain per tuple of projected values.
pub fn distinct_over_chain(chain: Chain, proj: &Projection) -> (r: Option<AggPlan>)
    ensures
        agg_opt(r) == distinct_plan(chain.v(), proj.v()),
{
    if proj.star || !proj.distinct || proj.items.len() == 0 {
        return None;
    }
    let group_keys = match every_key(proj, &chain.vars) {
        Some(k) => k,
        None => {
            return None;
        },
    };
    let whole = whole_names(proj);
    let mut k: usize = 0;
    while k < proj.order.len()
        invariant
            k <= proj.order@.len(),
            forall|x: Seq<char>|
                #![trigger names::of(whole@).contains(x)]
                #![trigger is_whole(proj.v().items, x)]
                names::of(whole@).contains(x) <==> is_whole(proj.v().items, x),
            forall|j: int|
                0 <= j < k ==> sorts_distinct(#[trigger] proj.v().order[j], proj.v().items),
            all_keys(proj.v().items, chain.v().vars) == Some(plan::keys_v(group_keys@)),
        decreases proj.order.len() - k,
    {
        if !order_sorts(proj, &whole, k) {
            return None;
        }
        k = k + 1;
    }
    let (sites, agg_items) = plan_agg_projection(proj);
    let site_args: Vec<plan::SiteArgPlan> = Vec::new();
    assert(plan::args_v(site_args@) =~= Seq::empty());
    Some(
        AggPlan {
            chain,
            group_keys,
            sites,
            site_args,
            agg_items,
            form: AggForm::Return(proj.copy()),
        },
    )
}

/// The distinct rows of a chain under a further projection.
pub open spec fn distinct_with_plan(
    chain: ChainV,
    proj: ProjV,
    post: Option<ExprV>,
    rp: ProjV,
) -> Option<AggV> {
    let (agg_items, sites) = plan_items(proj.items);
    if proj.star || !proj.distinct || proj.items.len() == 0 || sites.len() > 0 {
        None
    } else {
        match (all_keys(proj.items, chain.vars), plan::form_of(proj, Some((post, rp)))) {
            (Some(group_keys), Some(form)) => Some(
                AggV { chain, group_keys, sites, site_args: Seq::empty(), agg_items, form },
            ),
            _ => None,
        }
    }
}

/// Keeps one row of a chain per tuple of values, under a further projection.
pub fn distinct_form_a_over_chain(
    chain: Chain,
    proj: &Projection,
    post: Option<&Expr>,
    rp: &Projection,
) -> (r: Option<AggPlan>)
    ensures
        agg_opt(r) == distinct_with_plan(chain.v(), proj.v(), ast::ref_v(post), rp.v()),
{
    if proj.star || !proj.distinct || proj.items.len() == 0 {
        return None;
    }
    let group_keys = match every_key(proj, &chain.vars) {
        Some(k) => k,
        None => {
            return None;
        },
    };
    let form = match make_form(proj, Some((post, rp))) {
        Some(f) => f,
        None => {
            return None;
        },
    };
    let (sites, agg_items) = plan_agg_projection(proj);
    assert(plan::sites_v(sites@).len() == sites@.len());
    if sites.len() > 0 {
        return None;
    }
    let site_args: Vec<plan::SiteArgPlan> = Vec::new();
    assert(plan::args_v(site_args@) =~= Seq::empty());
    Some(AggPlan { chain, group_keys, sites, site_args, agg_items, form })
}

/// Whether any step is of variable length.
pub open spec fn has_varlen(hops: Seq<StepHop>) -> bool {
    exists|i: int| 0 <= i < hops.len() && (#[trigger] hops[i]).varlen is Some
}

/// The distinct rows that a query is.
pub open spec fn distinct_of(q: Seq<ClauseV>) -> Option<AggV> {
    if q.len() == 2 {
        match (q[0], q[1]) {
            (
                ClauseV::Match { optional: false, pattern, where_ },
                ClauseV::Return { proj },
            ) => match chain_of(pattern, where_) {
                Some(chain) => if proj.distinct && varlen_ok(chain.hops, proj) {
                    distinct_plan(chain, proj)
                } else {
                    None
                },
                None => None,
            },
            _ => None,
        }
    } else if q.len() == 3 {
        match (q[0], q[1], q[2]) {
            (
                ClauseV::Match { optional: false, pattern, where_ },
                ClauseV::With { proj, where_: post },
                ClauseV::Return { proj: rp },
            ) => match chain_of(pattern, where_) {
                Some(chain) => if proj.distinct && !has_varlen(chain.hops) {
                    distinct_with_plan(chain, proj, post, rp)
                } else {
                    None
                },
                None => None,
            },
            _ => None,
        }
    } else {
        None
    }
}

/// The distinct rows that a query is: a match and a distinct return, or a match
/// without a variable-length step, a distinct projection and a return.
pub fn recognise_distinct(q: &SingleQuery) -> (r: Option<AggPlan>)
    ensures
        agg_opt(r) == distinct_of(q.v()),
{
    proof {
        assert forall|i: int| 0 <= i < q.v().len() implies #[trigger] q.v()[i]
            == q.clauses@[i].v() by {}
    }
    if q.clauses.len() == 2 {
        assert(q.v()[0] == q.clauses@[0].v());
        assert(q.v()[1] == q.clauses@[1].v());
        match (&q.clauses[0], &q.clauses[1]) {
            (Clause::Match { optional: false, pattern, where_ }, Clause::Return { proj }) => {
                if !proj.distinct {
                    return None;
                }
                match recognise_chain(pattern, ast::as_opt(where_)) {
                    None => None,
                    Some(chain) => {
                        if varlen_distinct_consumed(&chain.hops, proj) {
                            distinct_over_chain(chain, proj)
                        } else {
                            None
                        }
                    },
                }
            },
            _ => None,
        }
    } else if q.clauses.len() == 3 {
        assert(q.v()[0] == q.clauses@[0].v());
        assert(q.v()[1] == q.clauses@[1].v());
        assert(q.v()[2] == q.clauses@[2].v());
        match (&q.clauses[0], &q.clauses[1], &q.clauses[2]) {
            (
                Clause::Match { optional: false, pattern, where_ },
                Clause::With { proj, where_: post },
                Clause::Return { proj: rp },
            ) => {
                if !proj.distinct {
                    return None;
                }
                match recognise_chain(pattern, ast::as_opt(where_)) {
                    None => None,
                    Some(chain) => {
                        proof {
                            assert forall|i: int| 0 <= i < chain.hops@.len() implies #[trigger]
                            chain.v().hops[i].varlen == chain.hops@[i].varlen by {}
                        }
                        if hops_have_varlen(&chain.hops) {
                            proof {
                                let k = choose|k: int|
                                    0 <= k < chain.hops@.len() && (
                                    #[trigger] chain.hops@[k]).varlen is Some;
                                assert(chain.v().hops[k].varlen is Some);
                            }
                            return None;
                        }
                        distinct_form_a_over_chain(chain, proj, ast::as_opt(post), rp)
                    },
                }
            },
            _ => None,
        }
    } else {
        None
    }
}

} // verus!
