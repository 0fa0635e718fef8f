//! Groups of counts that are read off the ends of relationships.


use vstd::prelude::*;

use crate::ast;
use crate::ast::{Expr, ExprV, Head, HeadV};
use crate::carry::{own_prop, prop_of};
use crate::graph::{Dir, Graph, VarKind, NULL_ID};
use crate::hop::{Hop, StepHop};
use crate::names;
use crate::names::{name_index, repeat_id};
use crate::plan::{AggForm, AggPlan, AggV, ArgV, FormV, KeyV, SingleVar, SiteArgPlan, SiteV};
use crate::query;
use crate::query::{ItemV, ProjV, Projection};
use crate::reduce;
use crate::reduce::{AccV, Group, GroupV, SiteAcc, Val, ValV};
use crate::seeds;
use crate::seeds::{end_set, scan_ids};
use crate::seqs;
use crate::table;
use crate::table::first_seen;
use crate::tally;
use crate::tally::{all_ends, occurs, tally_ends, tally_two_hops, Walk, WalkV};

verus! {

/// Where a counted shape reads: the property that groups, the variable it is a
/// property of, and the start and middle of the way there.
pub struct ShapeV {
    pub prop: Seq<char>,
    pub start: int,
    pub mid: int,
    pub end: int,
}

/// Where a counted shape reads.
#[derive(Debug)]
pub struct Shape {
    pub prop: String,
    pub start: usize,
    pub mid: usize,
    pub end: usize,
}

impl Shape {
    pub open spec fn v(self) -> ShapeV {
        ShapeV {
            prop: self.prop@,
            start: self.start as int,
            mid: self.mid as int,
            end: self.end as int,
        }
    }
}

/// A shape that may be missing.
pub open spec fn shape_opt(s: Option<Shape>) -> Option<ShapeV> {
    match s {
        Some(s) => Some(s.v()),
        None => None,
    }
}

/// Whether a hop goes one way over one type to a node that it binds, and binds
/// no relationship.
pub open spec fn counted_hop(h: StepHop) -> bool {
    h.varlen is None && h.rel_var is None && h.tgt is None && h.types.len() == 1 && h.dir
        != Dir::Both
}

/// Whether no relationship that the first of two hops takes is kept from the
/// second: they have different types, or the second starts a path of its own.
pub open spec fn hops_apart(a: StepHop, b: StepHop) -> bool {
    b.reset || !b.track || a.types != b.types
}

/// The property of a variable that the only grouping key is.
pub open spec fn grouped_prop(keys: Seq<KeyV>, vars: Seq<Seq<char>>, i: int) -> Option<Seq<char>> {
    if keys.len() == 1 && (keys[0].kind matches SingleVar::Col(v) && v == i) {
        prop_of(keys[0].expr, vars[i])
    } else {
        None
    }
}

/// The variable that the only aggregate counts.
pub open spec fn counted_var(sites: Seq<SiteV>, args: Seq<ArgV>) -> Option<int> {
    if sites.len() == 1 && sites[0].name == "count"@ && !sites[0].star && !sites[0].distinct
        && args.len() == 1 {
        match args[0] {
            ArgV::Node(i) => Some(i as int),
            _ => None,
        }
    } else {
        None
    }
}

/// The shape of a count of a hop's sources by a property of its end.
pub open spec fn degree_of(p: AggV) -> Option<ShapeV> {
    let c = p.chain;
    if c.wheres.len() > 0 || c.start_anchor is Some || !(p.form is Return) || c.hops.len() != 1
        || !counted_hop(c.hops[0]) {
        None
    } else {
        match (names::position(c.vars, c.a_var), names::position(c.vars, c.hops[0].var)) {
            (Some(a), Some(b)) => if c.hops[0].src != a || a == b || c.kinds[b] != VarKind::Node
                || counted_var(p.sites, p.site_args) != Some(a) {
                None
            } else {
                match grouped_prop(p.group_keys, c.vars, b) {
                    Some(prop) => Some(ShapeV { prop, start: a, mid: a, end: b }),
                    None => None,
                }
            },
            _ => None,
        }
    }
}

/// An item's column, if the item is an expression.
pub open spec fn column_if(it: ItemV, e: ExprV) -> Option<Seq<char>> {
    if it.expr == e {
        Some(query::column_of(it))
    } else {
        None
    }
}

/// Whether a projection orders by an expression, itself or by its column.
pub open spec fn orders_by(p: ProjV, e: ExprV) -> bool {
    let name = seqs::find_map(p.items, |it: ItemV| column_if(it, e));
    exists|i: int|
        0 <= i < p.order.len() && ((#[trigger] p.order[i]).expr == e || (name is Some
            && ast::as_var(p.order[i].expr) == name))
}

/// The shape of a count over a chain of two hops and three variables by a
/// property of the far end. The groups are ordered by that property, so that it
/// does not matter in which order they are made.
pub open spec fn rollup_of(p: AggV) -> Option<ShapeV> {
    let c = p.chain;
    if c.hops.len() != 2 || c.wheres.len() > 0 || c.start_anchor is Some || !counted_hop(c.hops[0])
        || !counted_hop(c.hops[1]) || !hops_apart(c.hops[0], c.hops[1]) {
        None
    } else {
        match (
            names::position(c.vars, c.a_var),
            names::position(c.vars, c.hops[0].var),
            names::position(c.vars, c.hops[1].var),
        ) {
            (Some(a), Some(m), Some(b)) => match (
                grouped_prop(p.group_keys, c.vars, b),
                counted_var(p.sites, p.site_args),
                p.form,
            ) {
                (Some(prop), Some(x), FormV::Return(proj)) => if c.hops[0].src == a
                    && c.hops[1].src == m && a != m && a != b && m != b && c.kinds[b] == VarKind::Node && (x == a || x == m)
                    && orders_by(proj, p.group_keys[0].expr) {
                    Some(ShapeV { prop, start: a, mid: m, end: b })
                } else {
                    None
                },
                _ => None,
            },
            _ => None,
        }
    }
}

fn is_counted_hop(h: &Hop) -> (b: bool)
    ensures
        b == counted_hop(h.v()),
{
    h.varlen.is_none() && h.rel_var.is_none() && h.tgt.is_none() && h.types.len() == 1 && h.dir
        != Dir::Both
}

fn own_grouped_prop(p: &AggPlan, i: usize) -> (r: Option<String>)
    requires
        i < p.chain.vars@.len(),
    ensures
        ast::opt_str(r) == grouped_prop(p.v().group_keys, p.v().chain.vars, i as int),
{
    if p.group_keys.len() != 1 {
        return None;
    }
    assert(p.v().group_keys[0] == p.group_keys@[0].v());
    match p.group_keys[0].kind {
        SingleVar::Col(v) => {
            if v != i {
                return None;
            }
            match own_prop(&p.group_keys[0].expr, &p.chain.vars[i]) {
                Some(k) => Some(k.clone()),
                None => None,
            }
        },
        _ => None,
    }
}

fn own_counted_var(p: &AggPlan) -> (r: Option<usize>)
    ensures
        match r {
            Some(i) => counted_var(p.v().sites, p.v().site_args) == Some(i as int),
            None => counted_var(p.v().sites, p.v().site_args) is None,
        },
{
    if p.sites.len() != 1 || p.site_args.len() != 1 {
        return None;
    }
    assert(p.v().sites[0] == p.sites@[0].v());
    assert(p.v().site_args[0] == p.site_args@[0].v());
    if p.sites[0].name != "count".to_owned() || p.sites[0].star || p.sites[0].distinct {
        return None;
    }
    match p.site_args[0] {
        SiteArgPlan::Node(i) => Some(i),
        _ => None,
    }
}

/// The shape of a count of a hop's sources by a property of its end.
pub fn degree_shape(p: &AggPlan) -> (r: Option<Shape>)
    requires
        p.chain.kinds@.len() == p.chain.vars@.len(),
    ensures
        shape_opt(r) == degree_of(p.v()),
{
    let c = &p.chain;
    if c.wheres.len() > 0 || c.start_anchor.is_some() || c.hops.len() != 1 {
        return None;
    }
    if !matches!(p.form, AggForm::Return(_)) {
        return None;
    }
    assert(p.v().chain.hops[0] == c.hops@[0].v());
    let h = &c.hops[0];
    if !is_counted_hop(h) {
        return None;
    }
    let (a, b) = match (name_index(&c.vars, &c.a_var), name_index(&c.vars, &h.var)) {
        (Some(a), Some(b)) => (a, b),
        _ => {
            return None;
        },
    };
    if h.src != a || a == b || c.kinds[b] != VarKind::Node {
        return None;
    }
    match own_counted_var(p) {
        Some(x) => {
            if x != a {
                return None;
            }
        },
        None => {
            return None;
        },
    }
    match own_grouped_prop(p, b) {
        Some(prop) => Some(Shape { prop, start: a, mid: a, end: b }),
        None => None,
    }
}

fn column_of_expr(p: &Projection, e: &Expr) -> (r: Option<String>)
    ensures
        ast::opt_str(r) == seqs::find_map(p.v().items, |it: ItemV| column_if(it, e.v())),
{
    let ghost items = p.v().items;
    let ghost f = |it: ItemV| column_if(it, e.v());
    let mut i: usize = 0;
    while i < p.items.len()
        invariant
            i <= p.items@.len(),
            items == p.v().items,
            f == (|it: ItemV| column_if(it, e.v())),
            forall|j: int| 0 <= j < i ==> f(#[trigger] items[j]) is None,
        decreases p.items.len() - i,
    {
        assert(items[i as int] == p.items@[i as int].v());
        if p.items[i].expr.same(e) {
            proof {
                seqs::lemma_find_map(items, f, i as int);
            }
            return Some(p.items[i].column());
        }
        i = i + 1;
    }
    proof {
        seqs::lemma_find_map(items, f, items.len() as int);
    }
    None
}

fn is_ordered_by(p: &Projection, e: &Expr) -> (b: bool)
    ensures
        b == orders_by(p.v(), e.v()),
{
    let name = column_of_expr(p, e);
    let ghost order = p.v().order;
    let mut i: usize = 0;
    while i < p.order.len()
        invariant
            i <= p.order@.len(),
            order == p.v().order,
            ast::opt_str(name) == seqs::find_map(p.v().items, |it: ItemV| column_if(it, e.v())),
            forall|j: int|
                0 <= j < i ==> !((#[trigger] order[j]).expr == e.v() || (ast::opt_str(name) is Some
                    && ast::as_var(order[j].expr) == ast::opt_str(name))),
        decreases p.order.len() - i,
    {
        assert(order[i as int] == p.order@[i as int].v());
        if p.order[i].expr.same(e) {
            return true;
        }
        match (&p.order[i].expr.head, &name) {
            (Head::Var(v), Some(n)) => {
                if *v == *n {
                    return true;
                }
            },
            _ => {},
        }
        i = i + 1;
    }
    false
}

/// The shape of a count over two hops by a property of the far end.
pub fn rollup_shape(p: &AggPlan) -> (r: Option<Shape>)
    requires
        p.chain.kinds@.len() == p.chain.vars@.len(),
    ensures
        shape_opt(r) == rollup_of(p.v()),
{
    let c = &p.chain;
    if c.hops.len() != 2 || c.wheres.len() > 0 || c.start_anchor.is_some() {
        return None;
    }
    assert(p.v().chain.hops[0] == c.hops@[0].v());
    assert(p.v().chain.hops[1] == c.hops@[1].v());
    if !is_counted_hop(&c.hops[0]) || !is_counted_hop(&c.hops[1]) {
        return None;
    }
    if !c.hops[1].reset && c.hops[1].track {
        let (t1, t2) = (&c.hops[0].types, &c.hops[1].types);
        proof {
            assert(names::of(t1@)[0] == t1@[0]@);
            assert(names::of(t2@)[0] == t2@[0]@);
            if t1@[0]@ == t2@[0]@ {
                assert(names::of(t1@) =~= names::of(t2@));
            }
        }
        if t1[0] == t2[0] {
            return None;
        }
    }
    let (a, m, b) = match (
        name_index(&c.vars, &c.a_var),
        name_index(&c.vars, &c.hops[0].var),
        name_index(&c.vars, &c.hops[1].var),
    ) {
        (Some(a), Some(m), Some(b)) => (a, m, b),
        _ => {
            return None;
        },
    };
    if c.hops[0].src != a || c.hops[1].src != m || c.kinds[b] != VarKind::Node {
        return None;
    }
    if a == m || a == b || m == b {
        return None;
    }
    let prop = match own_grouped_prop(p, b) {
        Some(k) => k,
        None => {
            return None;
        },
    };
    match own_counted_var(p) {
        Some(x) => {
            if x != a && x != m {
                return None;
            }
        },
        None => {
            return None;
        },
    }
    match &p.form {
        AggForm::Return(proj) => {
            assert(p.v().group_keys[0] == p.group_keys@[0].v());
            if is_ordered_by(proj, &p.group_keys[0].expr) {
                Some(Shape { prop, start: a, mid: m, end: b })
            } else {
                None
            }
        },
        _ => None,
    }
}

/// Counts by the id that each belongs to.
pub open spec fn pairs_v(s: Seq<(u64, i64)>) -> Seq<(u64, int)> {
    s.map_values(|p: (u64, i64)| (p.0, p.1 as int))
}

/// The ids that counts belong to.
pub open spec fn ids_of(s: Seq<(u64, i64)>) -> Seq<u64> {
    s.map_values(|p: (u64, i64)| p.0)
}

/// The sum of the counts of one value.
pub open spec fn sum_of(vals: Seq<ValV>, ns: Seq<(u64, int)>, v: ValV) -> int
    decreases vals.len(),
{
    if vals.len() == 0 {
        0
    } else {
        sum_of(vals.drop_last(), ns.drop_last(), v) + if vals.last() == v {
            ns.last().1
        } else {
            0
        }
    }
}

/// The sum of all counts.
pub open spec fn total(ns: Seq<(u64, int)>) -> int
    decreases ns.len(),
{
    if ns.len() == 0 {
        0
    } else {
        total(ns.drop_last()) + ns.last().1
    }
}

/// Counts by value, in the order in which the values are first seen: the id
/// that is first seen with the value, and the sum of its counts.
pub open spec fn merged(vals: Seq<ValV>, ns: Seq<(u64, int)>) -> Seq<(u64, int)> {
    first_seen(vals).map_values(
        |v: ValV| (ns[names::position(vals, v)->0].0, sum_of(vals, ns, v)),
    )
}

/// Counts are not negative.
pub open spec fn counts(ns: Seq<(u64, int)>) -> bool {
    forall|i: int| 0 <= i < ns.len() ==> 0 <= (#[trigger] ns[i]).1
}

proof fn lemma_sum_of_fits(vals: Seq<ValV>, ns: Seq<(u64, int)>, v: ValV)
    requires
        vals.len() == ns.len(),
        counts(ns),
    ensures
        0 <= sum_of(vals, ns, v) <= total(ns),
    decreases vals.len(),
{
    if vals.len() > 0 {
        assert(counts(ns.drop_last())) by {
            assert forall|i: int| 0 <= i < ns.drop_last().len() implies 0 <= (
            #[trigger] ns.drop_last()[i]).1 by {
                assert(ns[i] == ns.drop_last()[i]);
            }
        }
        assert(ns[ns.len() - 1] == ns.last());
        lemma_sum_of_fits(vals.drop_last(), ns.drop_last(), v);
    }
}

proof fn lemma_total_prefix(ns: Seq<(u64, int)>, i: int)
    requires
        0 <= i <= ns.len(),
        counts(ns),
    ensures
        0 <= total(ns.take(i)) <= total(ns),
        counts(ns.take(i)),
    decreases ns.len() - i,
{
    assert forall|k: int| 0 <= k < ns.take(i).len() implies 0 <= (#[trigger] ns.take(i)[k]).1 by {
        assert(ns[k] == ns.take(i)[k]);
    }
    if i == ns.len() {
        assert(ns.take(i) =~= ns);
    } else {
        seqs::lemma_take_last(ns, i);
        lemma_total_prefix(ns, i + 1);
    }
    lemma_total_sign(ns.take(i));
}

proof fn lemma_total_sign(ns: Seq<(u64, int)>)
    requires
        counts(ns),
    ensures
        0 <= total(ns),
    decreases ns.len(),
{
    if ns.len() > 0 {
        assert(counts(ns.drop_last())) by {
            assert forall|i: int| 0 <= i < ns.drop_last().len() implies 0 <= (
            #[trigger] ns.drop_last()[i]).1 by {
                assert(ns[i] == ns.drop_last()[i]);
            }
        }
        assert(ns[ns.len() - 1] == ns.last());
        lemma_total_sign(ns.drop_last());
    }
}

/// A value's count is that of the values before it plus its own.
proof fn lemma_sum_of_next(vals: Seq<ValV>, ns: Seq<(u64, int)>, i: int, v: ValV)
    requires
        0 <= i < vals.len(),
        vals.len() == ns.len(),
    ensures
        sum_of(vals.take(i + 1), ns.take(i + 1), v) == sum_of(vals.take(i), ns.take(i), v)
            + if vals[i] == v {
            ns[i].1
        } else {
            0
        },
{
    seqs::lemma_take_last(vals, i);
    seqs::lemma_take_last(ns, i);
}

/// Whether no value of a list is one that groups with no other.
pub open spec fn groupable(vals: Seq<ValV>) -> bool {
    forall|i: int| 0 <= i < vals.len() ==> !((#[trigger] vals[i]) is Nan)
}

fn all_groupable(vals: &Vec<Val>) -> (b: bool)
    ensures
        b == groupable(reduce::vals_v(vals@)),
{
    let ghost vs = reduce::vals_v(vals@);
    let mut i: usize = 0;
    while i < vals.len()
        invariant
            i <= vals@.len(),
            vs == reduce::vals_v(vals@),
            forall|j: int| 0 <= j < i ==> !((#[trigger] vs[j]) is Nan),
        decreases vals.len() - i,
    {
        assert(vs[i as int] == vals@[i as int].v());
        if matches!(vals[i], Val::Nan) {
            assert(vs[i as int] is Nan);
            return false;
        }
        i = i + 1;
    }
    true
}

fn find_value(vals: &Vec<Val>, firsts: &Vec<usize>, i: usize) -> (r: Option<usize>)
    requires
        i < vals@.len(),
        groupable(reduce::vals_v(vals@)),
        forall|k: int| 0 <= k < firsts@.len() ==> #[trigger] firsts@[k] < vals@.len(),
    ensures
        match r {
            Some(k) => k < firsts@.len() && reduce::vals_v(vals@)[firsts@[k as int] as int]
                == reduce::vals_v(vals@)[i as int],
            None => forall|k: int|
                0 <= k < firsts@.len() ==> reduce::vals_v(vals@)[#[trigger] firsts@[k] as int]
                    != reduce::vals_v(vals@)[i as int],
        },
{
    let ghost vs = reduce::vals_v(vals@);
    let mut k: usize = 0;
    while k < firsts.len()
        invariant
            k <= firsts@.len(),
            i < vals@.len(),
            vs == reduce::vals_v(vals@),
            groupable(vs),
            forall|j: int| 0 <= j < firsts@.len() ==> #[trigger] firsts@[j] < vals@.len(),
            forall|j: int|
                0 <= j < k ==> vs[#[trigger] firsts@[j] as int] != vs[i as int],
        decreases firsts.len() - k,
    {
        let f = firsts[k];
        assert(vs[f as int] == vals@[f as int].v());
        assert(vs[i as int] == vals@[i as int].v());
        if vals[f].groups_with(&vals[i]) {
            return Some(k);
        }
        k = k + 1;
    }
    None
}

/// Merges counts by value, in the order in which the values are first seen.
/// Declines where a value groups with no other.
pub fn merge_by_value(vals: &Vec<Val>, ns: &Vec<(u64, i64)>) -> (r: Option<Vec<(u64, i64)>>)
    requires
        vals@.len() == ns@.len(),
        counts(pairs_v(ns@)),
        total(pairs_v(ns@)) <= i64::MAX,
    ensures
        match r {
            Some(r) => groupable(reduce::vals_v(vals@)) && pairs_v(r@) == merged(
                reduce::vals_v(vals@),
                pairs_v(ns@),
            ),
            None => !groupable(reduce::vals_v(vals@)),
        },
{
    if !all_groupable(vals) {
        return None;
    }
    let ghost vs = reduce::vals_v(vals@);
    let ghost nv = pairs_v(ns@);
    let mut firsts: Vec<usize> = Vec::new();
    let mut sums: Vec<i64> = Vec::new();
    let mut i: usize = 0;
    assert(vs.take(0) =~= Seq::empty());
    while i < vals.len()
        invariant
            i <= vals@.len(),
            vals@.len() == ns@.len(),
            vs == reduce::vals_v(vals@),
            nv == pairs_v(ns@),
            groupable(vs),
            counts(nv),
            total(nv) <= i64::MAX,
            firsts@.len() == first_seen(vs.take(i as int)).len(),
            sums@.len() == firsts@.len(),
            forall|k: int|
                0 <= k < firsts@.len() ==> (#[trigger] firsts@[k]) < i && names::is_first(
                    vs,
                    first_seen(vs.take(i as int))[k],
                    firsts@[k] as int,
                ),
            forall|k: int|
                0 <= k < firsts@.len() ==> #[trigger] sums@[k] == sum_of(
                    vs.take(i as int),
                    nv.take(i as int),
                    first_seen(vs.take(i as int))[k],
                ),
        decreases vals.len() - i,
    {
        let ghost fs = first_seen(vs.take(i as int));
        let ghost v = vs[i as int];
        let ghost sums0 = sums@;
        proof {
            seqs::lemma_take_last(vs, i as int);
            table::law_first_seen_same(vs.take(i as int));
            table::law_first_seen_same(vs.take(i + 1));
            assert(nv[i as int] == (ns@[i as int].0, ns@[i as int].1 as int));
            assert forall|k: int| 0 <= k < firsts@.len() implies vs[#[trigger] firsts@[k] as int]
                == fs[k] by {}
            assert forall|x: ValV| true implies #[trigger] sum_of(vs.take(i + 1), nv.take(i + 1), x)
                == sum_of(vs.take(i as int), nv.take(i as int), x) + if v == x {
                nv[i as int].1
            } else {
                0
            } by {
                lemma_sum_of_next(vs, nv, i as int, x);
            }
            lemma_total_prefix(nv, i + 1);
            lemma_sum_of_fits(vs.take(i + 1), nv.take(i + 1), v);
        }
        let n = ns[i].1;
        match find_value(vals, &firsts, i) {
            Some(k) => {
                assert(fs[k as int] == v);
                assert(fs.contains(v));
                let s = sums[k];
                sums.set(k, s + n);
                proof {
                    assert forall|j: int| 0 <= j < firsts@.len() implies #[trigger] sums@[j]
                        == sum_of(vs.take(i + 1), nv.take(i + 1), fs[j]) by {
                        if j != k {
                            assert(fs[j] != fs[k as int]);
                        }
                    }
                }
            },
            None => {
                proof {
                    if fs.contains(v) {
                        let k = choose|k: int| 0 <= k < fs.len() && fs[k] == v;
                        assert(vs[firsts@[k] as int] == v);
                        assert(false);
                    }
                    assert(!vs.take(i as int).contains(v));
                    assert(names::is_first(vs, v, i as int)) by {
                        assert forall|j: int| 0 <= j < i implies vs[j] != v by {
                            assert(vs.take(i as int)[j] == vs[j]);
                        }
                    }
                    lemma_sum_of_none(vs.take(i as int), nv.take(i as int), v);
                    assert(first_seen(vs.take(i + 1)) == fs.push(v));
                }
                firsts.push(i);
                sums.push(n);
                proof {
                    assert forall|j: int| 0 <= j < firsts@.len() implies #[trigger] sums@[j]
                        == sum_of(vs.take(i + 1), nv.take(i + 1), fs.push(v)[j]) by {
                        if j < fs.len() {
                            assert(fs.contains(fs[j]));
                            assert(sums0[j] == sums@[j]);
                        }
                    }
                }
            },
        }
        i = i + 1;
    }
    assert(vs.take(i as int) =~= vs);
    assert(nv.take(i as int) =~= nv);
    let mut r: Vec<(u64, i64)> = Vec::new();
    let ghost fs = first_seen(vs);
    let mut k: usize = 0;
    while k < firsts.len()
        invariant
            k <= firsts@.len(),
            vals@.len() == ns@.len(),
            vs == reduce::vals_v(vals@),
            nv == pairs_v(ns@),
            fs == first_seen(vs),
            firsts@.len() == fs.len(),
            sums@.len() == firsts@.len(),
            forall|j: int|
                0 <= j < firsts@.len() ==> (#[trigger] firsts@[j]) < ns@.len() && names::is_first(
                    vs,
                    fs[j],
                    firsts@[j] as int,
                ),
            forall|j: int|
                0 <= j < firsts@.len() ==> #[trigger] sums@[j] == sum_of(vs, nv, fs[j]),
            r@.len() == k,
            forall|j: int| 0 <= j < k ==> #[trigger] pairs_v(r@)[j] == merged(vs, nv)[j],
        decreases firsts.len() - k,
    {
        let ghost r0 = r@;
        let f = firsts[k];
        r.push((ns[f].0, sums[k]));
        proof {
            names::lemma_first_is_position(vs, fs[k as int], f as int);
            assert(nv[f as int].0 == ns@[f as int].0);
            assert(sums@[k as int] == sum_of(vs, nv, fs[k as int]));
            assert(pairs_v(r@)[k as int] == merged(vs, nv)[k as int]);
            assert forall|j: int| 0 <= j < k + 1 implies #[trigger] pairs_v(r@)[j] == merged(
                vs,
                nv,
            )[j] by {
                if j < k {
                    assert(pairs_v(r0)[j] == merged(vs, nv)[j]);
                }
            }
        }
        k = k + 1;
    }
    assert(pairs_v(r@) =~= merged(vs, nv));
    Some(r)
}

proof fn lemma_sum_of_none(vals: Seq<ValV>, ns: Seq<(u64, int)>, v: ValV)
    requires
        !vals.contains(v),
    ensures
        sum_of(vals, ns, v) == 0,
    decreases vals.len(),
{
    if vals.len() > 0 {
        assert(vals[vals.len() - 1] == vals.last());
        assert(vals.contains(vals.last()));
        if vals.drop_last().contains(v) {
            let i = choose|i: int| 0 <= i < vals.drop_last().len() && vals.drop_last()[i] == v;
            assert(vals[i] == v);
        }
        lemma_sum_of_none(vals.drop_last(), ns.drop_last(), v);
    }
}

/// How many counts are larger than a number.
pub open spec fn above(ns: Seq<(u64, int)>, n: int) -> nat
    decreases ns.len(),
{
    if ns.len() == 0 {
        0
    } else {
        above(ns.drop_last(), n) + if ns.last().1 > n {
            1nat
        } else {
            0
        }
    }
}

/// The counts that fewer than `keep` others exceed.
pub open spec fn top(ns: Seq<(u64, int)>, keep: int) -> Seq<(u64, int)> {
    ns.filter(|p: (u64, int)| above(ns, p.1) < keep)
}

/// How many numbers of a list are larger than a number.
spec fn larger(s: Seq<i64>, n: int) -> nat
    decreases s.len(),
{
    if s.len() == 0 {
        0
    } else {
        larger(s.drop_last(), n) + if s.last() > n {
            1nat
        } else {
            0
        }
    }
}

spec fn descending(s: Seq<i64>) -> bool {
    forall|i: int, j: int| 0 <= i < j < s.len() ==> s[i] >= s[j]
}

proof fn lemma_larger_insert(s: Seq<i64>, i: int, x: i64, n: int)
    requires
        0 <= i <= s.len(),
    ensures
        larger(s.insert(i, x), n) == larger(s, n) + if x > n {
            1nat
        } else {
            0
        },
    decreases s.len(),
{
    let t = s.insert(i, x);
    if i == s.len() {
        assert(t.drop_last() =~= s);
    } else {
        lemma_larger_insert(s.drop_last(), i, x, n);
        assert(t.drop_last() =~= s.drop_last().insert(i, x));
        assert(t.last() == s.last());
    }
}

/// In a descending list the larger numbers stand first.
proof fn lemma_larger_first(s: Seq<i64>, n: int)
    requires
        descending(s),
    ensures
        larger(s, n) <= s.len(),
        forall|i: int| 0 <= i < s.len() ==> (#[trigger] s[i] > n <==> i < larger(s, n)),
    decreases s.len(),
{
    if s.len() > 0 {
        let p = s.drop_last();
        assert(descending(p)) by {
            assert forall|i: int, j: int| 0 <= i < j < p.len() implies p[i] >= p[j] by {
                assert(s[i] >= s[j]);
            }
        }
        lemma_larger_first(p, n);
        assert forall|i: int| 0 <= i < s.len() implies (#[trigger] s[i] > n <==> i < larger(s, n)) by {
            if i < p.len() {
                assert(p[i] == s[i]);
                assert(s[i] >= s[s.len() - 1]);
            } else if s.last() > n {
                if p.len() > 0 {
                    assert(s[p.len() - 1] >= s[p.len() as int]);
                    assert(p[p.len() - 1] == s[p.len() - 1]);
                }
            }
        }
    }
}

proof fn lemma_larger_cut(s: Seq<i64>, keep: int, n: int)
    requires
        descending(s),
        0 <= keep <= s.len(),
    ensures
        larger(s.take(keep), n) == if larger(s, n) <= keep {
            larger(s, n)
        } else {
            keep as nat
        },
{
    let t = s.take(keep);
    assert(descending(t)) by {
        assert forall|i: int, j: int| 0 <= i < j < t.len() implies t[i] >= t[j] by {
            assert(s[i] >= s[j]);
        }
    }
    lemma_larger_first(s, n);
    lemma_larger_first(t, n);
    let a = larger(s, n);
    let b = larger(t, n);
    if b < keep {
        assert(!(t[b as int] > n));
        assert(s[b as int] == t[b as int]);
    }
    if b > 0 {
        assert(t[b - 1] > n);
        assert(s[b - 1] == t[b - 1]);
    }
}

/// The largest `keep` counts, largest first.
fn largest(ns: &Vec<(u64, i64)>, keep: usize) -> (r: Vec<i64>)
    requires
        0 < keep <= ns@.len(),
    ensures
        r@.len() == keep,
        descending(r@),
        forall|n: int| #[trigger]
            larger(r@, n) == if above(pairs_v(ns@), n) <= keep {
                above(pairs_v(ns@), n)
            } else {
                keep as nat
            },
{
    let ghost nv = pairs_v(ns@);
    let mut r: Vec<i64> = Vec::new();
    let mut i: usize = 0;
    assert(nv.take(0) =~= Seq::empty());
    while i < ns.len()
        invariant
            i <= ns@.len(),
            keep > 0,
            nv == pairs_v(ns@),
            r@.len() == if i <= keep {
                i
            } else {
                keep
            },
            descending(r@),
            forall|n: int| #[trigger]
                larger(r@, n) == if above(nv.take(i as int), n) <= keep {
                    above(nv.take(i as int), n)
                } else {
                    keep as nat
                },
        decreases ns.len() - i,
    {
        let x = ns[i].1;
        let ghost r0 = r@;
        let mut k: usize = 0;
        while k < r.len() && r[k] >= x
            invariant
                k <= r@.len(),
                r@ == r0,
                forall|j: int| 0 <= j < k ==> r@[j] >= x,
            decreases r.len() - k,
        {
            k = k + 1;
        }
        proof {
            seqs::lemma_take_last(nv, i as int);
            assert(nv[i as int].1 == x);
        }
        r.insert(k, x);
        let ghost r1 = r@;
        proof {
            assert(r1 == r0.insert(k as int, x));
            assert(descending(r1)) by {
                assert forall|a: int, b: int| 0 <= a < b < r1.len() implies r1[a] >= r1[b] by {
                    if a < k && b > k {
                        assert(r0[a] >= r0[b - 1]);
                    } else if a > k {
                        assert(r0[a - 1] >= r0[b - 1]);
                    } else if a == k {
                        if k < r0.len() {
                            assert(r0[k as int] < x);
                            if b - 1 > k {
                                assert(r0[k as int] >= r0[b - 1]);
                            }
                        }
                    } else if b < k {
                        assert(r0[a] >= r0[b]);
                    }
                }
            }
        }
        if r.len() > keep {
            r.truncate(keep);
        }
        proof {
            assert forall|n: int| #[trigger] larger(r@, n) == if above(nv.take(i + 1), n) <= keep {
                above(nv.take(i + 1), n)
            } else {
                keep as nat
            } by {
                lemma_larger_insert(r0, k as int, x, n);
                lemma_larger_first(r1, n);
                assert(larger(r0, n) == if above(nv.take(i as int), n) <= keep {
                    above(nv.take(i as int), n)
                } else {
                    keep as nat
                });
                if r1.len() > keep {
                    lemma_larger_cut(r1, keep as int, n);
                }
                lemma_above_fits(nv.take(i + 1), n);
            }
            assert(descending(r@)) by {
                assert forall|a: int, b: int| 0 <= a < b < r@.len() implies r@[a] >= r@[b] by {
                    assert(r1[a] >= r1[b]);
                }
            }
        }
        i = i + 1;
    }
    assert(nv.take(i as int) =~= nv);
    r
}

proof fn lemma_above_fits(ns: Seq<(u64, int)>, n: int)
    ensures
        above(ns, n) <= ns.len(),
    decreases ns.len(),
{
    if ns.len() > 0 {
        lemma_above_fits(ns.drop_last(), n);
    }
}

/// Keeps the counts that fewer than `keep` others exceed, in their order.
pub fn keep_top(ns: &Vec<(u64, i64)>, keep: usize) -> (r: Vec<(u64, i64)>)
    requires
        0 < keep <= ns@.len(),
    ensures
        pairs_v(r@) == top(pairs_v(ns@), keep as int),
{
    let ghost nv = pairs_v(ns@);
    let ghost f = |p: (u64, int)| above(nv, p.1) < keep as int;
    let best = largest(ns, keep);
    let least = best[keep - 1];
    let mut r: Vec<(u64, i64)> = Vec::new();
    let mut i: usize = 0;
    proof {
        assert(nv.take(0) =~= Seq::empty());
        seqs::lemma_filter_empty(f);
        assert(pairs_v(r@) =~= Seq::empty());
    }
    while i < ns.len()
        invariant
            i <= ns@.len(),
            0 < keep,
            nv == pairs_v(ns@),
            f == (|p: (u64, int)| above(nv, p.1) < keep as int),
            best@.len() == keep,
            descending(best@),
            forall|n: int| #[trigger]
                larger(best@, n) == if above(nv, n) <= keep {
                    above(nv, n)
                } else {
                    keep as nat
                },
            least == best@[keep - 1],
            pairs_v(r@) == nv.take(i as int).filter(f),
        decreases ns.len() - i,
    {
        let ghost r0 = r@;
        proof {
            assert(nv[i as int] == (ns@[i as int].0, ns@[i as int].1 as int));
            seqs::lemma_take_last(nv, i as int);
            seqs::lemma_filter_last(nv.take(i + 1), f);
            let n = nv[i as int].1;
            lemma_larger_first(best@, n);
            assert(larger(best@, n) == if above(nv, n) <= keep {
                above(nv, n)
            } else {
                keep as nat
            });
            assert(best@[keep - 1] > n <==> keep - 1 < larger(best@, n));
        }
        if ns[i].1 >= least {
            assert(f(nv[i as int]));
            r.push((ns[i].0, ns[i].1));
            assert(pairs_v(r@) =~= pairs_v(r0).push(nv[i as int]));
        } else {
            assert(!f(nv[i as int]));
        }
        i = i + 1;
    }
    assert(nv.take(i as int) =~= nv);
    r
}

/// Whether an expression is an aggregate itself, and not computed from one.
pub open spec fn is_count(e: ExprV) -> bool {
    e.head matches HeadV::Call(f) && f.aggregate
}

/// The column of the first item that is an aggregate.
pub open spec fn count_column(p: ProjV) -> Option<Seq<char>> {
    seqs::find_map(
        p.items,
        |it: ItemV|
            if is_count(it.expr) {
                Some(query::column_of(it))
            } else {
                None
            },
    )
}

/// Whether a projection orders by its count first, largest first.
pub open spec fn largest_first(p: ProjV) -> bool {
    p.order.len() > 0 && p.order[0].descending && count_column(p) is Some && ast::as_var(
        p.order[0].expr,
    ) == count_column(p)
}

/// Whether a projection orders by its count first, largest first.
pub fn orders_largest_first(p: &Projection) -> (b: bool)
    ensures
        b == largest_first(p.v()),
{
    if p.order.len() == 0 {
        return false;
    }
    assert(p.v().order[0] == p.order@[0].v());
    if !p.order[0].descending {
        return false;
    }
    let ghost items = p.v().items;
    let ghost f = |it: ItemV|
        if is_count(it.expr) {
            Some(query::column_of(it))
        } else {
            None::<Seq<char>>
        };
    let mut i: usize = 0;
    while i < p.items.len()
        invariant
            i <= p.items@.len(),
            p.order@.len() > 0,
            p.v().order[0] == p.order@[0].v(),
            p.order@[0].descending,
            items == p.v().items,
            f == (|it: ItemV|
                if is_count(it.expr) {
                    Some(query::column_of(it))
                } else {
                    None::<Seq<char>>
                }),
            forall|j: int| 0 <= j < i ==> f(#[trigger] items[j]) is None,
        decreases p.items.len() - i,
    {
        assert(items[i as int] == p.items@[i as int].v());
        let plain = match &p.items[i].expr.head {
            Head::Call(f) => f.aggregate,
            _ => false,
        };
        if plain {
            proof {
                seqs::lemma_find_map(items, f, i as int);
            }
            let c = p.items[i].column();
            return match &p.order[0].expr.head {
                Head::Var(v) => *v == c,
                _ => false,
            };
        }
        i = i + 1;
    }
    proof {
        seqs::lemma_find_map(items, f, items.len() as int);
    }
    false
}

/// The counts that can reach a page. Only where the largest come first, and
/// there are more than the page and what it skips, can some be left out.
pub open spec fn paged(p: ProjV, page: Option<(int, int)>, ns: Seq<(u64, int)>) -> Seq<(u64, int)> {
    match page {
        Some((skip, limit)) => if largest_first(p) && 0 < skip + limit < ns.len() {
            top(ns, skip + limit)
        } else {
            ns
        },
        None => ns,
    }
}

/// A page as integers.
pub open spec fn page_v(p: Option<(usize, usize)>) -> Option<(int, int)> {
    match p {
        Some((skip, limit)) => Some((skip as int, limit as int)),
        None => None,
    }
}

/// Keeps the counts that can reach a page.
pub fn keep_page(p: &Projection, page: Option<(usize, usize)>, ns: Vec<(u64, i64)>) -> (r: Vec<
    (u64, i64),
>)
    ensures
        pairs_v(r@) == paged(p.v(), page_v(page), pairs_v(ns@)),
{
    match page {
        Some((skip, limit)) => {
            let keep: usize = skip.saturating_add(limit);
            assert(ns@.len() == ns.len());
            if orders_largest_first(p) && keep > 0 && ns.len() > keep {
                keep_top(&ns, keep)
            } else {
                ns
            }
        },
        None => ns,
    }
}

/// A row of nulls but for one id.
pub open spec fn lone_row(width: nat, at: int, id: u64) -> Seq<u64> {
    Seq::new(width, |i: int| NULL_ID).update(at, id)
}

/// The groups of counts.
pub open spec fn count_groups(width: nat, at: int, ns: Seq<(u64, int)>) -> Seq<GroupV> {
    ns.map_values(
        |p: (u64, int)| GroupV { ids: lone_row(width, at, p.0), accs: seq![AccV::Count(p.1)] },
    )
}

/// Makes a group of each count.
pub fn groups_of_counts(width: usize, at: usize, ns: &Vec<(u64, i64)>) -> (r: Vec<Group>)
    requires
        at < width,
    ensures
        reduce::groups_v(r@) == count_groups(width as nat, at as int, pairs_v(ns@)),
{
    let ghost nv = pairs_v(ns@);
    let mut r: Vec<Group> = Vec::new();
    let mut i: usize = 0;
    while i < ns.len()
        invariant
            i <= ns@.len(),
            at < width,
            nv == pairs_v(ns@),
            r@.len() == i,
            forall|j: int|
                0 <= j < i ==> (#[trigger] r@[j]).v() == count_groups(width as nat, at as int, nv)[j],
        decreases ns.len() - i,
    {
        let mut ids = repeat_id(NULL_ID, width);
        ids.set(at, ns[i].0);
        let mut accs: Vec<SiteAcc> = Vec::new();
        accs.push(SiteAcc::CountStar(ns[i].1));
        proof {
            assert(nv[i as int] == (ns@[i as int].0, ns@[i as int].1 as int));
            assert(ids@ =~= lone_row(width as nat, at as int, ns@[i as int].0));
            assert(reduce::accs_v(accs@) =~= seq![AccV::Count(ns@[i as int].1 as int)]);
        }
        r.push(Group { ids, accs });
        i = i + 1;
    }
    assert(reduce::groups_v(r@) =~= count_groups(width as nat, at as int, nv));
    r
}

/// The walk of a hop that is counted.
pub open spec fn walk_of(g: Graph, h: StepHop, backwards: bool) -> WalkV {
    WalkV {
        dir: h.dir,
        tokens: g.type_tokens(h.types),
        members: seeds::end_members(g, h.labels),
        backwards,
    }
}

/// The walk of a hop that is counted. None where no relationship has its type.
fn hop_walk(g: &Graph, h: &Hop, backwards: bool) -> (r: Option<Walk>)
    requires
        g.wf(),
    ensures
        match r {
            Some(w) => g.type_tokens(h.v().types) is Some && w.v() == walk_of(*g, h.v(), backwards),
            None => g.type_tokens(h.v().types) is None,
        },
{
    match g.type_tokens_peek(&h.types) {
        Some(t) => {
            let members = end_set(g, &h.labels);
            Some(Walk { dir: h.dir, tokens: Some(t), members, backwards })
        },
        None => None,
    }
}

/// The ends of a hop from every node that a chain starts at. There are none
/// where no relationship has the type of the hop.
pub open spec fn degree_ends(g: Graph, p: AggV) -> Seq<u64> {
    if g.type_tokens(p.chain.hops[0].types) is None {
        Seq::empty()
    } else {
        all_ends(g, walk_of(g, p.chain.hops[0], true), seeds::scan(g, p.chain.a_labels))
    }
}

/// Ends and how often each is met, in the order in which they are first met.
pub open spec fn counted(s: Seq<u64>) -> Seq<(u64, int)> {
    first_seen(s).map_values(|x: u64| (x, occurs(s, x) as int))
}

/// The sum of how often each of some ends is met.
spec fn met(ds: Seq<u64>, s: Seq<u64>) -> nat
    decreases ds.len(),
{
    if ds.len() == 0 {
        0
    } else {
        met(ds.drop_last(), s) + occurs(s, ds.last())
    }
}

proof fn lemma_met_push(ds: Seq<u64>, s: Seq<u64>, b: u64)
    ensures
        met(ds, s.push(b)) == met(ds, s) + occurs(ds, b),
    decreases ds.len(),
{
    if ds.len() > 0 {
        lemma_met_push(ds.drop_last(), s, b);
        assert(s.push(b).drop_last() =~= s);
    }
}

proof fn lemma_met_none(ds: Seq<u64>)
    ensures
        met(ds, Seq::empty()) == 0,
    decreases ds.len(),
{
    if ds.len() > 0 {
        lemma_met_none(ds.drop_last());
    }
}

proof fn lemma_met_all(ds: Seq<u64>, s: Seq<u64>)
    requires
        ds.no_duplicates(),
        forall|x: u64| #[trigger] s.contains(x) ==> ds.contains(x),
    ensures
        met(ds, s) == s.len(),
    decreases s.len(),
{
    if s.len() == 0 {
        assert(s =~= Seq::empty());
        lemma_met_none(ds);
    } else {
        let p = s.drop_last();
        assert(s =~= p.push(s.last()));
        assert forall|x: u64| #[trigger] p.contains(x) implies ds.contains(x) by {
            seqs::lemma_push_contains(p, s.last(), x);
            assert(s.contains(x));
        }
        seqs::lemma_push_contains(p, s.last(), s.last());
        assert(s.contains(s.last()));
        lemma_met_all(ds, p);
        lemma_met_push(ds, p, s.last());
        tally::lemma_occurs_once(ds, s.last());
    }
}

proof fn lemma_met_total(ds: Seq<u64>, s: Seq<u64>)
    ensures
        total(ds.map_values(|x: u64| (x, occurs(s, x) as int))) == met(ds, s),
        counts(ds.map_values(|x: u64| (x, occurs(s, x) as int))),
    decreases ds.len(),
{
    let f = |x: u64| (x, occurs(s, x) as int);
    if ds.len() > 0 {
        lemma_met_total(ds.drop_last(), s);
        assert(ds.map_values(f).drop_last() =~= ds.drop_last().map_values(f));
    }
}

/// The counts of ends add up to the number of relationships that were walked.
pub proof fn law_counted_is_complete(s: Seq<u64>)
    ensures
        total(counted(s)) == s.len(),
        counts(counted(s)),
{
    table::law_first_seen_same(s);
    lemma_met_all(first_seen(s), s);
    lemma_met_total(first_seen(s), s);
}

/// Counts the sources of a hop at each of its ends, in the order in which an
/// expand meets them.
pub fn degree_counts(g: &Graph, p: &AggPlan) -> (r: Vec<(u64, i64)>)
    requires
        g.wf(),
        p.chain.hops@.len() == 1,
        degree_ends(*g, p.v()).len() <= i64::MAX,
    ensures
        pairs_v(r@) == counted(degree_ends(*g, p.v())),
{
    let h = &p.chain.hops[0];
    assert(p.v().chain.hops[0] == h.v());
    let ghost s = degree_ends(*g, p.v());
    let mut r: Vec<(u64, i64)> = Vec::new();
    match hop_walk(g, h, true) {
        Some(w) => {
            let ns = scan_ids(g, &p.chain.a_labels);
            let t = tally_ends(g, &w, &ns);
            let mut i: usize = 0;
            while i < t.seen.len()
                invariant
                    i <= t.seen@.len(),
                    t.of(s),
                    r@.len() == i,
                    forall|j: int|
                        0 <= j < i ==> (#[trigger] r@[j]).0 == t.seen@[j] && r@[j].1 == occurs(
                            s,
                            t.seen@[j],
                        ),
                decreases t.seen.len() - i,
            {
                let x = t.seen[i];
                let n = t.get(x, Ghost(s));
                r.push((x, n));
                i = i + 1;
            }
            assert(pairs_v(r@) =~= counted(s));
        },
        None => {
            assert(pairs_v(r@) =~= counted(s));
        },
    }
    r
}

/// What a count of a hop's sources by a property of its end comes to: the ends'
/// counts merged by value, as far as they can reach the page.
pub open spec fn degree_groups_of(
    p: AggV,
    shape: ShapeV,
    ns: Seq<(u64, int)>,
    vals: Seq<ValV>,
    page: Option<(int, int)>,
) -> Option<Seq<GroupV>> {
    if !groupable(vals) {
        None
    } else {
        match p.form {
            FormV::Return(proj) => Some(
                count_groups(p.chain.vars.len(), shape.end, paged(proj, page, merged(vals, ns))),
            ),
            _ => None,
        }
    }
}

/// Groups that may be missing.
pub open spec fn groups_opt(r: Option<Vec<Group>>) -> Option<Seq<GroupV>> {
    match r {
        Some(r) => Some(reduce::groups_v(r@)),
        None => None,
    }
}

/// The groups of a count of a hop's sources by a property of its end, given the
/// property of each end.
pub fn try_degree_aggregate(
    p: &AggPlan,
    shape: &Shape,
    ns: &Vec<(u64, i64)>,
    vals: &Vec<Val>,
    page: Option<(usize, usize)>,
) -> (r: Option<Vec<Group>>)
    requires
        shape.end < p.chain.vars@.len(),
        vals@.len() == ns@.len(),
        counts(pairs_v(ns@)),
        total(pairs_v(ns@)) <= i64::MAX,
    ensures
        groups_opt(r) == degree_groups_of(
            p.v(),
            shape.v(),
            pairs_v(ns@),
            reduce::vals_v(vals@),
            page_v(page),
        ),
{
    let groups = match merge_by_value(vals, ns) {
        Some(m) => m,
        None => {
            return None;
        },
    };
    assert(p.v().chain.vars.len() == p.chain.vars@.len());
    match &p.form {
        AggForm::Return(proj) => {
            let kept = keep_page(proj, page, groups);
            Some(groups_of_counts(p.chain.vars.len(), shape.end, &kept))
        },
        _ => None,
    }
}

/// The ends of the first of two hops.
pub open spec fn mid_ends(g: Graph, p: AggV) -> Seq<u64> {
    all_ends(g, walk_of(g, p.chain.hops[0], false), seeds::scan(g, p.chain.a_labels))
}

/// The ends of two hops, one for each pair of relationships. There are none
/// where no relationship has the type of either hop.
pub open spec fn far_ends(g: Graph, p: AggV) -> Seq<u64> {
    if g.type_tokens(p.chain.hops[0].types) is None || g.type_tokens(p.chain.hops[1].types) is None {
        Seq::empty()
    } else {
        all_ends(g, walk_of(g, p.chain.hops[1], false), mid_ends(g, p))
    }
}

/// Counts the pairs of relationships that lead over two hops to each far end,
/// without following a middle node twice.
pub fn rollup_counts(g: &Graph, p: &AggPlan) -> (r: Vec<(u64, i64)>)
    requires
        g.wf(),
        p.chain.hops@.len() == 2,
        mid_ends(*g, p.v()).len() <= i64::MAX,
        far_ends(*g, p.v()).len() <= i64::MAX,
    ensures
        forall|i: int|
            0 <= i < r@.len() ==> (#[trigger] r@[i]).1 == occurs(far_ends(*g, p.v()), r@[i].0),
        ids_of(r@).no_duplicates(),
        forall|x: u64| #[trigger]
            ids_of(r@).contains(x) <==> far_ends(*g, p.v()).contains(x),
        counts(pairs_v(r@)),
        total(pairs_v(r@)) == far_ends(*g, p.v()).len(),
{
    assert(p.v().chain.hops[0] == p.chain.hops@[0].v());
    assert(p.v().chain.hops[1] == p.chain.hops@[1].v());
    let ghost far = far_ends(*g, p.v());
    let mut r: Vec<(u64, i64)> = Vec::new();
    match (hop_walk(g, &p.chain.hops[0], false), hop_walk(g, &p.chain.hops[1], false)) {
        (Some(w1), Some(w2)) => {
            let ns = scan_ids(g, &p.chain.a_labels);
            let (t, mids, rolled) = tally_two_hops(g, &w1, &w2, &ns);
            let ghost one = all_ends(*g, w1.v(), ns@);
            proof {
                table::law_first_seen_same(all_ends(*g, w2.v(), mids@));
                lemma_same_ends(*g, w2.v(), mids@, one);
            }
            let mut i: usize = 0;
            while i < rolled.seen.len()
                invariant
                    i <= rolled.seen@.len(),
                    rolled.counts@.len() == rolled.seen@.len(),
                    forall|j: int|
                        0 <= j < rolled.seen@.len() ==> #[trigger] rolled.counts@[j] == occurs(
                            far,
                            rolled.seen@[j],
                        ),
                    r@.len() == i,
                    forall|j: int|
                        0 <= j < i ==> (#[trigger] r@[j]).0 == rolled.seen@[j] && r@[j].1 == occurs(
                            far,
                            r@[j].0,
                        ),
                decreases rolled.seen.len() - i,
            {
                r.push((rolled.seen[i], rolled.counts[i]));
                i = i + 1;
            }
            proof {
                assert(ids_of(r@) =~= rolled.seen@);
                assert forall|x: u64| #[trigger] ids_of(r@).contains(x) <==> far.contains(x) by {
                    assert(all_ends(*g, w2.v(), mids@).contains(x) <==> all_ends(
                        *g,
                        w2.v(),
                        one,
                    ).contains(x));
                    assert(first_seen(all_ends(*g, w2.v(), mids@)).contains(x) <==> all_ends(
                        *g,
                        w2.v(),
                        mids@,
                    ).contains(x));
                }
            }
        },
        _ => {
            proof {
                assert(ids_of(r@) =~= Seq::empty());
                assert(far =~= Seq::empty());
                assert forall|x: u64| #[trigger] ids_of(r@).contains(x) <==> far.contains(x) by {}
            }
        },
    }
    proof {
        let ds = ids_of(r@);
        lemma_met_all(ds, far);
        lemma_met_total(ds, far);
        assert(pairs_v(r@) =~= ds.map_values(|x: u64| (x, occurs(far, x) as int)));
    }
    r
}

proof fn lemma_ends_hold(g: Graph, w: WalkV, ns: Seq<u64>, x: u64)
    ensures
        all_ends(g, w, ns).contains(x) <==> exists|n: u64| #[trigger]
            ns.contains(n) && ends_hold(g, w, n, x),
    decreases ns.len(),
{
    if ns.len() > 0 {
        let p = ns.drop_last();
        lemma_ends_hold(g, w, p, x);
        assert(ns =~= p.push(ns.last()));
        let a = all_ends(g, w, p);
        let b = tally::ends(g, w, ns.last());
        if all_ends(g, w, ns).contains(x) {
            let i = choose|i: int| 0 <= i < (a + b).len() && (a + b)[i] == x;
            if i < a.len() {
                assert(a[i] == x);
                assert(a.contains(x));
                let n = choose|n: u64| #[trigger] p.contains(n) && ends_hold(g, w, n, x);
                seqs::lemma_push_contains(p, ns.last(), n);
                assert(ns.contains(n));
            } else {
                assert(b[i - a.len()] == x);
                seqs::lemma_push_contains(p, ns.last(), ns.last());
                assert(ns.contains(ns.last()));
            }
        }
        if exists|n: u64| #[trigger] ns.contains(n) && ends_hold(g, w, n, x) {
            let n = choose|n: u64| #[trigger] ns.contains(n) && ends_hold(g, w, n, x);
            seqs::lemma_push_contains(p, ns.last(), n);
            if p.contains(n) {
                assert(a.contains(x));
                let i = choose|i: int| 0 <= i < a.len() && a[i] == x;
                assert((a + b)[i] == x);
            } else {
                let i = choose|i: int| 0 <= i < b.len() && b[i] == x;
                assert((a + b)[a.len() + i] == x);
            }
        }
    }
}

/// Whether a node reaches an end.
pub open spec fn ends_hold(g: Graph, w: WalkV, n: u64, x: u64) -> bool {
    tally::ends(g, w, n).contains(x)
}

proof fn lemma_same_ends(g: Graph, w: WalkV, a: Seq<u64>, b: Seq<u64>)
    requires
        forall|x: u64| #[trigger] a.contains(x) <==> b.contains(x),
    ensures
        forall|x: u64| #[trigger] all_ends(g, w, a).contains(x) <==> all_ends(g, w, b).contains(x),
{
    assert forall|x: u64| #[trigger] all_ends(g, w, a).contains(x) <==> all_ends(
        g,
        w,
        b,
    ).contains(x) by {
        lemma_ends_hold(g, w, a, x);
        lemma_ends_hold(g, w, b, x);
        if all_ends(g, w, a).contains(x) {
            let n = choose|n: u64| #[trigger] a.contains(n) && ends_hold(g, w, n, x);
            assert(b.contains(n));
        }
        if all_ends(g, w, b).contains(x) {
            let n = choose|n: u64| #[trigger] b.contains(n) && ends_hold(g, w, n, x);
            assert(a.contains(n));
        }
    }
}

/// The groups of a count over two hops by a property of the far end, given the
/// property of each far end.
pub fn try_bi7_rollup(p: &AggPlan, shape: &Shape, ns: &Vec<(u64, i64)>, vals: &Vec<Val>) -> (r:
    Option<Vec<Group>>)
    requires
        shape.end < p.chain.vars@.len(),
        vals@.len() == ns@.len(),
        counts(pairs_v(ns@)),
        total(pairs_v(ns@)) <= i64::MAX,
    ensures
        groups_opt(r) == if groupable(reduce::vals_v(vals@)) {
            Some(
                count_groups(
                    p.chain.vars@.len(),
                    shape.end as int,
                    merged(reduce::vals_v(vals@), pairs_v(ns@)),
                ),
            )
        } else {
            None
        },
{
    match merge_by_value(vals, ns) {
        Some(m) => Some(groups_of_counts(p.chain.vars.len(), shape.end, &m)),
        None => None,
    }
}

} // verus!
