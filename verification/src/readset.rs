//! The variables that a grouping tail reads.

use vstd::prelude::*;

use crate::ast;
use crate::ast::{reads_var, Expr, ExprV};
use crate::names;
use crate::names::name_index;
use crate::plan;
use crate::plan::{AggForm, AggKey, AggPlan, AggSite, AggV, ArgV, FormV, KeyV, SingleVar, SiteArgPlan, SiteV};
use crate::query;
use crate::query::{ItemV, OrderItem, OrderV, ProjItem};

verus! {

/// Whether an aggregate is `count(*)`.
pub open spec fn count_star(s: SiteV) -> bool {
    s.name == "count"@ && s.star && !s.distinct
}

/// Whether there are aggregates and each is `count(*)`.
pub open spec fn only_count_star(sites: Seq<SiteV>) -> bool {
    sites.len() > 0 && forall|i: int| 0 <= i < sites.len() ==> count_star(#[trigger] sites[i])
}

/// Whether there are aggregates and each is `count(*)`.
pub fn all_sites_count_star(sites: &Vec<AggSite>) -> (b: bool)
    ensures
        b == only_count_star(plan::sites_v(sites@)),
{
    if sites.len() == 0 {
        return false;
    }
    let mut i: usize = 0;
    while i < sites.len()
        invariant
            i <= sites@.len(),
            forall|j: int| 0 <= j < i ==> count_star(#[trigger] plan::sites_v(sites@)[j]),
        decreases sites.len() - i,
    {
        assert(plan::sites_v(sites@)[i as int] == sites@[i as int].v());
        let s = &sites[i];
        if s.name != "count".to_owned() || !s.star || s.distinct {
            return false;
        }
        i = i + 1;
    }
    true
}

/// Whether an expression reads the variable at an index.
pub open spec fn marks(e: ExprV, vars: Seq<Seq<char>>, v: int) -> bool {
    ast::reads(e, vars[v]) && names::position(vars, vars[v]) == Some(v)
}

/// Whether any item reads a variable.
pub open spec fn items_mark(items: Seq<ItemV>, vars: Seq<Seq<char>>, v: int) -> bool {
    exists|i: int| 0 <= i < items.len() && marks((#[trigger] items[i]).expr, vars, v)
}

/// Whether any sort key reads a variable.
pub open spec fn order_marks(order: Seq<OrderV>, vars: Seq<Seq<char>>, v: int) -> bool {
    exists|i: int| 0 <= i < order.len() && marks((#[trigger] order[i]).expr, vars, v)
}

/// Whether any grouping key reads a variable.
pub open spec fn keys_mark(keys: Seq<KeyV>, vars: Seq<Seq<char>>, v: int) -> bool {
    exists|i: int|
        0 <= i < keys.len() && (plan::kind_var((#[trigger] keys[i]).kind) == Some(v as usize)
            || marks(keys[i].expr, vars, v))
}

/// The variable that an argument reads.
pub open spec fn arg_var(a: ArgV) -> Option<usize> {
    match a {
        ArgV::Node(i) => Some(i),
        ArgV::Col(i, _) => Some(i),
        _ => None,
    }
}

/// Whether any aggregate's argument reads a variable.
pub open spec fn args_mark(args: Seq<ArgV>, v: int) -> bool {
    exists|i: int| 0 <= i < args.len() && arg_var(#[trigger] args[i]) == Some(v as usize)
}

/// Whether a condition reads a variable.
pub open spec fn cond_marks(w: Option<ExprV>, vars: Seq<Seq<char>>, v: int) -> bool {
    match w {
        Some(w) => marks(w, vars, v),
        None => false,
    }
}

/// Whether what follows the groups reads a variable.
pub open spec fn form_marks(f: FormV, vars: Seq<Seq<char>>, v: int) -> bool {
    match f {
        FormV::Return(p) => items_mark(p.items, vars, v) || order_marks(p.order, vars, v),
        FormV::With { with_proj, post_where, return_proj } => items_mark(with_proj.items, vars, v)
            || cond_marks(post_where, vars, v) || items_mark(return_proj.items, vars, v)
            || order_marks(return_proj.order, vars, v),
    }
}

/// Whether a grouping tail reads a variable.
pub open spec fn tail_reads(p: AggV, v: int) -> bool {
    keys_mark(p.group_keys, p.chain.vars, v) || args_mark(p.site_args, v) || form_marks(
        p.form,
        p.chain.vars,
        v,
    )
}

/// The variables that keys and arguments name are bound.
pub open spec fn tail_wf(p: AggV) -> bool {
    &&& forall|i: int|
        0 <= i < p.group_keys.len() ==> (plan::kind_var((#[trigger] p.group_keys[i]).kind) matches
            Some(v) ==> v < p.chain.vars.len())
    &&& forall|i: int|
        0 <= i < p.site_args.len() ==> (arg_var(#[trigger] p.site_args[i]) matches Some(v) ==> v
            < p.chain.vars.len())
}

fn mark_expr(e: &Expr, vars: &Vec<String>, read: &mut Vec<bool>)
    requires
        old(read)@.len() == vars@.len(),
    ensures
        final(read)@.len() == vars@.len(),
        forall|v: int|
            0 <= v < vars@.len() ==> #[trigger] final(read)@[v] == (old(read)@[v] || marks(
                e.v(),
                names::of(vars@),
                v,
            )),
{
    let mut i: usize = 0;
    while i < vars.len()
        invariant
            i <= vars@.len(),
            read@.len() == vars@.len(),
            forall|v: int|
                0 <= v < i ==> #[trigger] read@[v] == (old(read)@[v] || marks(
                    e.v(),
                    names::of(vars@),
                    v,
                )),
            forall|v: int| i <= v < vars@.len() ==> #[trigger] read@[v] == old(read)@[v],
        decreases vars.len() - i,
    {
        assert(names::of(vars@)[i as int] == vars@[i as int]@);
        if reads_var(e, &vars[i]) {
            match name_index(vars, &vars[i]) {
                Some(k) => {
                    if k == i {
                        read.set(i, true);
                    }
                },
                None => {},
            }
        }
        i = i + 1;
    }
}

fn mark_items(items: &Vec<ProjItem>, vars: &Vec<String>, read: &mut Vec<bool>)
    requires
        old(read)@.len() == vars@.len(),
    ensures
        final(read)@.len() == vars@.len(),
        forall|v: int|
            0 <= v < vars@.len() ==> #[trigger] final(read)@[v] == (old(read)@[v] || items_mark(
                query::items_v(items@),
                names::of(vars@),
                v,
            )),
{
    let ghost s = query::items_v(items@);
    let mut i: usize = 0;
    while i < items.len()
        invariant
            i <= items@.len(),
            read@.len() == vars@.len(),
            s == query::items_v(items@),
            forall|v: int|
                0 <= v < vars@.len() ==> #[trigger] read@[v] == (old(read)@[v] || exists|j: int|
                    0 <= j < i && marks((#[trigger] s[j]).expr, names::of(vars@), v)),
        decreases items.len() - i,
    {
        assert(s[i as int] == items@[i as int].v());
        let ghost r0 = read@;
        mark_expr(&items[i].expr, vars, read);
        proof {
            assert forall|v: int| 0 <= v < vars@.len() implies #[trigger] read@[v] == (old(
                read,
            )@[v] || exists|j: int|
                0 <= j < i + 1 && marks((#[trigger] s[j]).expr, names::of(vars@), v)) by {
                assert(read@[v] == (r0[v] || marks(s[i as int].expr, names::of(vars@), v)));
            }
        }
        i = i + 1;
    }
}

fn mark_order(order: &Vec<OrderItem>, vars: &Vec<String>, read: &mut Vec<bool>)
    requires
        old(read)@.len() == vars@.len(),
    ensures
        final(read)@.len() == vars@.len(),
        forall|v: int|
            0 <= v < vars@.len() ==> #[trigger] final(read)@[v] == (old(read)@[v] || order_marks(
                query::order_v(order@),
                names::of(vars@),
                v,
            )),
{
    let ghost s = query::order_v(order@);
    let mut i: usize = 0;
    while i < order.len()
        invariant
            i <= order@.len(),
            read@.len() == vars@.len(),
            s == query::order_v(order@),
            forall|v: int|
                0 <= v < vars@.len() ==> #[trigger] read@[v] == (old(read)@[v] || exists|j: int|
                    0 <= j < i && marks((#[trigger] s[j]).expr, names::of(vars@), v)),
        decreases order.len() - i,
    {
        assert(s[i as int] == order@[i as int].v());
        let ghost r0 = read@;
        mark_expr(&order[i].expr, vars, read);
        proof {
            assert forall|v: int| 0 <= v < vars@.len() implies #[trigger] read@[v] == (old(
                read,
            )@[v] || exists|j: int|
                0 <= j < i + 1 && marks((#[trigger] s[j]).expr, names::of(vars@), v)) by {
                assert(read@[v] == (r0[v] || marks(s[i as int].expr, names::of(vars@), v)));
            }
        }
        i = i + 1;
    }
}

fn mark_keys(keys: &Vec<AggKey>, vars: &Vec<String>, read: &mut Vec<bool>)
    requires
        old(read)@.len() == vars@.len(),
        forall|i: int|
            0 <= i < keys@.len() ==> (plan::kind_var((#[trigger] keys@[i]).kind) matches Some(v)
                ==> v < vars@.len()),
    ensures
        final(read)@.len() == vars@.len(),
        forall|v: int|
            0 <= v < vars@.len() ==> #[trigger] final(read)@[v] == (old(read)@[v] || keys_mark(
                plan::keys_v(keys@),
                names::of(vars@),
                v,
            )),
{
    let ghost s = plan::keys_v(keys@);
    let mut i: usize = 0;
    while i < keys.len()
        invariant
            i <= keys@.len(),
            read@.len() == vars@.len(),
            s == plan::keys_v(keys@),
            forall|i: int|
                0 <= i < keys@.len() ==> (plan::kind_var((#[trigger] keys@[i]).kind) matches Some(v)
                    ==> v < vars@.len()),
            forall|v: int|
                0 <= v < vars@.len() ==> #[trigger] read@[v] == (old(read)@[v] || exists|j: int|
                    0 <= j < i && (plan::kind_var((#[trigger] s[j]).kind) == Some(v as usize)
                        || marks(s[j].expr, names::of(vars@), v))),
        decreases keys.len() - i,
    {
        assert(s[i as int] == keys@[i as int].v());
        let ghost r0 = read@;
        match keys[i].kind {
            SingleVar::Node(v) => {
                read.set(v, true);
            },
            SingleVar::Col(v) => {
                read.set(v, true);
            },
            SingleVar::Const => {},
        }
        let ghost r1 = read@;
        mark_expr(&keys[i].expr, vars, read);
        proof {
            assert(vars@.len() == vars.len());
            assert forall|v: int| 0 <= v < vars@.len() implies #[trigger] read@[v] == (old(
                read,
            )@[v] || exists|j: int|
                0 <= j < i + 1 && (plan::kind_var((#[trigger] s[j]).kind) == Some(v as usize)
                    || marks(s[j].expr, names::of(vars@), v))) by {
                assert(read@[v] == (r1[v] || marks(s[i as int].expr, names::of(vars@), v)));
                assert(r1[v] == (r0[v] || plan::kind_var(s[i as int].kind) == Some(v as usize)));
            }
        }
        i = i + 1;
    }
}

fn mark_args(args: &Vec<SiteArgPlan>, n: usize, read: &mut Vec<bool>)
    requires
        old(read)@.len() == n,
        forall|i: int|
            0 <= i < args@.len() ==> (arg_var((#[trigger] args@[i]).v()) matches Some(v) ==> v < n),
    ensures
        final(read)@.len() == n,
        forall|v: int|
            0 <= v < n ==> #[trigger] final(read)@[v] == (old(read)@[v] || args_mark(
                plan::args_v(args@),
                v,
            )),
{
    let ghost s = plan::args_v(args@);
    let mut i: usize = 0;
    while i < args.len()
        invariant
            i <= args@.len(),
            read@.len() == n,
            s == plan::args_v(args@),
            forall|i: int|
                0 <= i < args@.len() ==> (arg_var((#[trigger] args@[i]).v()) matches Some(v) ==> v
                    < n),
            forall|v: int|
                0 <= v < n ==> #[trigger] read@[v] == (old(read)@[v] || exists|j: int|
                    0 <= j < i && arg_var(#[trigger] s[j]) == Some(v as usize)),
        decreases args.len() - i,
    {
        assert(s[i as int] == args@[i as int].v());
        let ghost r0 = read@;
        match &args[i] {
            SiteArgPlan::Node(v) => {
                read.set(*v, true);
            },
            SiteArgPlan::Col(v, _) => {
                read.set(*v, true);
            },
            _ => {},
        }
        proof {
            assert forall|v: int| 0 <= v < n implies #[trigger] read@[v] == (old(read)@[v]
                || exists|j: int|
                0 <= j < i + 1 && arg_var(#[trigger] s[j]) == Some(v as usize)) by {
                assert(read@[v] == (r0[v] || arg_var(s[i as int]) == Some(v as usize)));
            }
        }
        i = i + 1;
    }
}

fn mark_form(form: &AggForm, vars: &Vec<String>, read: &mut Vec<bool>)
    requires
        old(read)@.len() == vars@.len(),
    ensures
        final(read)@.len() == vars@.len(),
        forall|v: int|
            0 <= v < vars@.len() ==> #[trigger] final(read)@[v] == (old(read)@[v] || form_marks(
                form.v(),
                names::of(vars@),
                v,
            )),
{
    match form {
        AggForm::Return(p) => {
            mark_items(&p.items, vars, read);
            mark_order(&p.order, vars, read);
        },
        AggForm::With { with_proj, post_where, return_proj } => {
            mark_items(&with_proj.items, vars, read);
            match post_where {
                Some(w) => {
                    mark_expr(w, vars, read);
                },
                None => {},
            }
            mark_items(&return_proj.items, vars, read);
            mark_order(&return_proj.order, vars, read);
        },
    }
}

/// The variables that a grouping tail reads. No other is ever observed.
pub fn agg_tail_read_set(p: &AggPlan) -> (read: Vec<bool>)
    requires
        tail_wf(p.v()),
    ensures
        read@.len() == p.chain.vars@.len(),
        forall|v: int| 0 <= v < read@.len() ==> #[trigger] read@[v] == tail_reads(p.v(), v),
{
    let n: usize = p.chain.vars.len();
    let mut read: Vec<bool> = Vec::new();
    let mut i: usize = 0;
    while i < n
        invariant
            i <= n,
            read@.len() == i,
            forall|v: int| 0 <= v < i ==> !#[trigger] read@[v],
        decreases n - i,
    {
        read.push(false);
        i = i + 1;
    }
    proof {
        assert forall|i: int| 0 <= i < p.group_keys@.len() implies (plan::kind_var(
            (#[trigger] p.group_keys@[i]).kind,
        ) matches Some(v) ==> v < n) by {
            assert(p.v().group_keys[i] == p.group_keys@[i].v());
        }
        assert forall|i: int| 0 <= i < p.site_args@.len() implies (arg_var(
            (#[trigger] p.site_args@[i]).v(),
        ) matches Some(v) ==> v < n) by {
            assert(p.v().site_args[i] == p.site_args@[i].v());
        }
    }
    mark_keys(&p.group_keys, &p.chain.vars, &mut read);
    mark_args(&p.site_args, n, &mut read);
    mark_form(&p.form, &p.chain.vars, &mut read);
    read
}

} // verus!
