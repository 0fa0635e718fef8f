//! Rewrites of a query into a shape that a planner recognises.

use vstd::prelude::*;

use crate::ast;
use crate::ast::{conjuncts_of, reads_within, Expr, ExprV, Head};
use crate::fold_build::types_disjoint;
use crate::fold_model::disjoint;
use crate::multistage::{as_match, as_return, as_with, distinct_projection, distinct_var, get_match, get_return, get_with};
use crate::names;
use crate::names::{has_name, names_differ};
use crate::preds::{and_all, and_node_anchors};
use crate::query;
use crate::query::{copy_clauses, copy_hops, copy_items, copy_order, items_aggregate, Clause, ClauseV, ItemV, NodePattern, NodeV, OrderV, PathPattern, PathV, Pattern, PatternV, ProjItem, ProjV, Projection, RelV, SingleQuery};
use crate::reroot::query_opt;
use crate::seqs;

verus! {

/// The variables at the ends of hops.
pub open spec fn end_vars(hops: Seq<(RelV, NodeV)>) -> Seq<Seq<char>> {
    seqs::keep_map(
        hops,
        |h: (RelV, NodeV)| h.1.var is Some,
        |h: (RelV, NodeV)| h.1.var->0,
    )
}

/// Whether a hop is of fixed length, without a variable or properties.
pub open spec fn fixed_hop(h: (RelV, NodeV)) -> bool {
    h.0.length is None && h.0.props is None && h.0.var is None
}

/// The end of a first hop of one to a bounded number of relationships that
/// fixed hops follow.
pub open spec fn varlen_end(p: PathV) -> Option<Seq<char>> {
    if p.var is Some || p.shortest || p.hops.len() < 2 {
        None
    } else {
        let rel = p.hops[0].0;
        let node = p.hops[0].1;
        match rel.length {
            Some(l) => if (l.min is None || l.min == Some(1u64)) && l.max is Some && rel.var is None
                && rel.props is None && node.props is None && forall|i: int|
                1 <= i < p.hops.len() ==> fixed_hop(#[trigger] p.hops[i]) {
                node.var
            } else {
                None
            },
            None => None,
        }
    }
}

/// The variable that an item hands on under its own name.
pub open spec fn hands_on(it: ItemV) -> Option<Seq<char>> {
    match ast::as_var(it.expr) {
        Some(x) => if it.alias is None || it.alias == Some(x) {
            Some(x)
        } else {
            None
        },
        None => None,
    }
}

/// Whether items hand on only variables of a list, and one of them in any case.
pub open spec fn hands_on_only(items: Seq<ItemV>, xs: Seq<Seq<char>>, b: Seq<char>) -> bool {
    &&& forall|i: int|
        0 <= i < items.len() ==> (hands_on(#[trigger] items[i]) matches Some(x) && xs.contains(x))
    &&& exists|i: int| 0 <= i < items.len() && hands_on(#[trigger] items[i]) == Some(b)
}

/// The variables of the first part of a split path.
pub open spec fn first_vars(p: PathV, b: Seq<char>) -> Seq<Seq<char>> {
    match p.start.var {
        Some(a) => seq![a, b],
        None => seq![b],
    }
}

/// The variables of the second part of a split path.
pub open spec fn second_vars(p: PathV, b: Seq<char>) -> Seq<Seq<char>> {
    seq![b] + end_vars(p.hops.skip(1))
}

/// Whether the parts of a split path share only the variable that they meet at,
/// and no relationship that the first part takes can be kept from the second: a
/// later hop that leads back is not held to what it leads back to once the first
/// part is forgotten.
pub open spec fn parts_apart(p: PathV, b: Seq<char>) -> bool {
    &&& second_vars(p, b).no_duplicates()
    &&& p.start.var matches Some(a) ==> !end_vars(p.hops.skip(1)).contains(a)
    &&& forall|i: int|
        1 <= i < p.hops.len() ==> disjoint(p.hops[0].0.types, (#[trigger] p.hops[i]).0.types)
}

/// The conjuncts of an optional condition.
pub open spec fn opt_conjuncts(w: Option<ExprV>) -> Seq<ExprV> {
    match w {
        Some(w) => ast::conjuncts(w),
        None => Seq::empty(),
    }
}

/// A match of one path.
pub open spec fn match_path(path: PathV, where_: Option<ExprV>) -> ClauseV {
    ClauseV::Match { optional: false, pattern: PatternV { paths: seq![path] }, where_ }
}

/// The three clauses that stand for a match of a variable-length hop and fixed
/// ones, where what follows keeps the distinct ends alone.
pub open spec fn split_match(m: ClauseV, w: ClauseV) -> Option<Seq<ClauseV>> {
    match (as_match(m), as_with(w)) {
        (Some((pattern, where_)), Some((proj, None))) => if !proj.distinct || proj.star
            || proj.order.len() > 0 || proj.skip is Some || pattern.paths.len() != 1 {
            None
        } else {
            let p = pattern.paths[0];
            match varlen_end(p) {
                None => None,
                Some(b) => {
                    let xs = first_vars(p, b);
                    let ys = second_vars(p, b);
                    let cs = opt_conjuncts(where_);
                    if parts_apart(p, b) && hands_on_only(proj.items, ys, b) && forall|i: int|
                        0 <= i < cs.len() ==> ast::reads_only(#[trigger] cs[i], xs)
                            || ast::reads_only(cs[i], ys) {
                        Some(
                            seq![
                                match_path(
                                    PathV {
                                        var: None,
                                        shortest: false,
                                        start: p.start,
                                        hops: p.hops.take(1),
                                    },
                                    and_all(None, cs.filter(|c: ExprV| ast::reads_only(c, xs))),
                                ),
                                ClauseV::With { proj: distinct_var(b), where_: None },
                                match_path(
                                    PathV {
                                        var: None,
                                        shortest: false,
                                        start: NodeV {
                                            var: Some(b),
                                            labels: Seq::empty(),
                                            props: None,
                                        },
                                        hops: p.hops.skip(1),
                                    },
                                    and_all(None, cs.filter(|c: ExprV| !ast::reads_only(c, xs))),
                                ),
                            ],
                        )
                    } else {
                        None
                    }
                },
            }
        },
        _ => None,
    }
}

fn fixed_after(p: &PathPattern) -> (b: bool)
    requires
        p.hops@.len() >= 1,
    ensures
        b == forall|i: int| 1 <= i < p.v().hops.len() ==> fixed_hop(#[trigger] p.v().hops[i]),
{
    let mut i: usize = 1;
    while i < p.hops.len()
        invariant
            1 <= i <= p.hops@.len(),
            forall|j: int| 1 <= j < i ==> fixed_hop(#[trigger] p.v().hops[j]),
        decreases p.hops.len() - i,
    {
        assert(p.v().hops[i as int] == (p.hops@[i as int].0.v(), p.hops@[i as int].1.v()));
        let r = &p.hops[i].0;
        if r.length.is_some() || r.props.is_some() || r.var.is_some() {
            assert(!fixed_hop(p.v().hops[i as int]));
            return false;
        }
        i = i + 1;
    }
    true
}

fn find_varlen_end(p: &PathPattern) -> (r: Option<String>)
    ensures
        ast::opt_str(r) == varlen_end(p.v()),
{
    if p.var.is_some() || p.shortest || p.hops.len() < 2 {
        return None;
    }
    assert(p.v().hops[0] == (p.hops@[0].0.v(), p.hops@[0].1.v()));
    let rel = &p.hops[0].0;
    let node = &p.hops[0].1;
    match rel.length {
        Some(l) => {
            let one = match l.min {
                Some(n) => n == 1,
                None => true,
            };
            if !one || l.max.is_none() || rel.var.is_some() || rel.props.is_some()
                || node.props.is_some() || !fixed_after(p) {
                return None;
            }
            ast::copy_opt_name(&node.var)
        },
        None => None,
    }
}

fn second_names(p: &PathPattern, b: &String) -> (r: Vec<String>)
    requires
        p.hops@.len() >= 1,
    ensures
        names::of(r@) == second_vars(p.v(), b@),
{
    let ghost hs = p.v().hops.skip(1);
    let ghost keep = |h: (RelV, NodeV)| h.1.var is Some;
    let ghost make = |h: (RelV, NodeV)| h.1.var->0;
    let mut r: Vec<String> = Vec::new();
    r.push(b.clone());
    proof {
        seqs::lemma_keep_map_empty(hs, keep, make);
        assert(names::of(r@) =~= seq![b@] + seqs::keep_map(hs.take(0), keep, make));
    }
    let mut i: usize = 1;
    while i < p.hops.len()
        invariant
            1 <= i <= p.hops@.len(),
            hs == p.v().hops.skip(1),
            keep == (|h: (RelV, NodeV)| h.1.var is Some),
            make == (|h: (RelV, NodeV)| h.1.var->0),
            names::of(r@) == seq![b@] + seqs::keep_map(hs.take(i - 1), keep, make),
        decreases p.hops.len() - i,
    {
        let ghost r0 = r@;
        proof {
            assert(hs[i - 1] == (p.hops@[i as int].0.v(), p.hops@[i as int].1.v()));
            seqs::lemma_keep_map_take(hs, i - 1, keep, make);
        }
        match &p.hops[i].1.var {
            Some(x) => {
                assert(keep(hs[i - 1]));
                r.push(x.clone());
                assert(names::of(r@) =~= names::of(r0).push(x@));
                assert(names::of(r@) =~= seq![b@] + seqs::keep_map(
                    hs.take(i - 1),
                    keep,
                    make,
                ).push(x@));
            },
            None => {
                assert(!keep(hs[i - 1]));
            },
        }
        i = i + 1;
    }
    assert(hs.take(i - 1) =~= hs);
    r
}

fn are_parts_apart(p: &PathPattern, b: &String, ys: &Vec<String>) -> (r: bool)
    requires
        p.hops@.len() >= 1,
        names::of(ys@) == second_vars(p.v(), b@),
    ensures
        r == parts_apart(p.v(), b@),
{
    let ghost yv = names::of(ys@);
    let ghost ends = end_vars(p.v().hops.skip(1));
    if !names_differ(ys) {
        return false;
    }
    match &p.start.var {
        Some(a) => {
            proof {
                assert(yv.skip(1) =~= ends);
                assert(yv[0] == b@);
                if ends.contains(a@) {
                    let k = choose|k: int| 0 <= k < ends.len() && ends[k] == a@;
                    assert(yv[k + 1] == a@);
                }
                if yv.contains(a@) && a@ != b@ {
                    let k = choose|k: int| 0 <= k < yv.len() && yv[k] == a@;
                    assert(ends[k - 1] == a@);
                }
            }
            if *a != *b && has_name(ys, a) {
                return false;
            }
        },
        None => {},
    }
    assert(p.v().hops[0] == (p.hops@[0].0.v(), p.hops@[0].1.v()));
    let mut i: usize = 1;
    while i < p.hops.len()
        invariant
            1 <= i <= p.hops@.len(),
            p.v().hops[0] == (p.hops@[0].0.v(), p.hops@[0].1.v()),
            forall|j: int|
                1 <= j < i ==> disjoint(p.v().hops[0].0.types, (#[trigger] p.v().hops[j]).0.types),
        decreases p.hops.len() - i,
    {
        assert(p.v().hops[i as int] == (p.hops@[i as int].0.v(), p.hops@[i as int].1.v()));
        if !types_disjoint(&p.hops[0].0.types, &p.hops[i].0.types) {
            assert(!disjoint(p.v().hops[0].0.types, p.v().hops[i as int].0.types));
            return false;
        }
        i = i + 1;
    }
    true
}

fn first_names(p: &PathPattern, b: &String) -> (r: Vec<String>)
    ensures
        names::of(r@) == first_vars(p.v(), b@),
{
    let mut r: Vec<String> = Vec::new();
    match &p.start.var {
        Some(a) => {
            r.push(a.clone());
        },
        None => {},
    }
    r.push(b.clone());
    assert(names::of(r@) =~= first_vars(p.v(), b@));
    r
}

fn handed_on(it: &ProjItem) -> (r: Option<&String>)
    ensures
        match r {
            Some(x) => hands_on(it.v()) == Some(x@),
            None => hands_on(it.v()) is None,
        },
{
    match &it.expr.head {
        Head::Var(x) => {
            match &it.alias {
                Some(a) => {
                    if *a != *x {
                        return None;
                    }
                },
                None => {},
            }
            Some(x)
        },
        _ => None,
    }
}

fn only_handed_on(p: &Projection, ys: &Vec<String>, b: &String) -> (r: bool)
    ensures
        r == hands_on_only(p.v().items, names::of(ys@), b@),
{
    let ghost items = p.v().items;
    let mut found = false;
    let mut i: usize = 0;
    while i < p.items.len()
        invariant
            i <= p.items@.len(),
            items == p.v().items,
            forall|j: int|
                0 <= j < i ==> (hands_on(#[trigger] items[j]) matches Some(x) && names::of(
                    ys@,
                ).contains(x)),
            found == exists|j: int| 0 <= j < i && hands_on(#[trigger] items[j]) == Some(b@),
        decreases p.items.len() - i,
    {
        assert(items[i as int] == p.items@[i as int].v());
        match handed_on(&p.items[i]) {
            Some(x) => {
                if !has_name(ys, x) {
                    assert(!(hands_on(items[i as int]) matches Some(x) && names::of(
                        ys@,
                    ).contains(x)));
                    return false;
                }
                if *x == *b {
                    found = true;
                }
            },
            None => {
                assert(hands_on(items[i as int]) is None);
                return false;
            },
        }
        i = i + 1;
    }
    found
}

struct Parts {
    first: Vec<Expr>,
    second: Vec<Expr>,
}

fn part_where(w: &Option<Expr>, xs: &Vec<String>, ys: &Vec<String>) -> (r: Option<Parts>)
    ensures
        ({
            let cs = opt_conjuncts(ast::opt_v(*w));
            let xv = names::of(xs@);
            let yv = names::of(ys@);
            let ok = forall|i: int|
                0 <= i < cs.len() ==> ast::reads_only(#[trigger] cs[i], xv) || ast::reads_only(
                    cs[i],
                    yv,
                );
            match r {
                Some(p) => ok && ast::exprs_v(p.first@) == cs.filter(
                    |c: ExprV| ast::reads_only(c, xv),
                ) && ast::exprs_v(p.second@) == cs.filter(|c: ExprV| !ast::reads_only(c, xv)),
                None => !ok,
            }
        }),
{
    let ghost cs = opt_conjuncts(ast::opt_v(*w));
    let ghost xv = names::of(xs@);
    let ghost yv = names::of(ys@);
    let ghost f = |c: ExprV| ast::reads_only(c, xv);
    let ghost g = |c: ExprV| !ast::reads_only(c, xv);
    let mut all: Vec<&Expr> = Vec::new();
    match w {
        Some(w) => {
            conjuncts_of(w, &mut all);
        },
        None => {},
    }
    assert(all@.map_values(|x: &Expr| x.v()) =~= cs);
    let mut first: Vec<Expr> = Vec::new();
    let mut second: Vec<Expr> = Vec::new();
    proof {
        assert(cs.take(0) =~= Seq::empty());
        seqs::lemma_filter_empty(f);
        seqs::lemma_filter_empty(g);
        assert(ast::exprs_v(first@) =~= Seq::empty());
        assert(ast::exprs_v(second@) =~= Seq::empty());
    }
    let mut i: usize = 0;
    while i < all.len()
        invariant
            i <= all@.len(),
            cs == opt_conjuncts(ast::opt_v(*w)),
            all@.map_values(|x: &Expr| x.v()) == cs,
            xv == names::of(xs@),
            yv == names::of(ys@),
            f == (|c: ExprV| ast::reads_only(c, xv)),
            g == (|c: ExprV| !ast::reads_only(c, xv)),
            forall|j: int|
                0 <= j < i ==> ast::reads_only(#[trigger] cs[j], xv) || ast::reads_only(cs[j], yv),
            ast::exprs_v(first@) == cs.take(i as int).filter(f),
            ast::exprs_v(second@) == cs.take(i as int).filter(g),
        decreases all.len() - i,
    {
        let ghost f0 = first@;
        let ghost s0 = second@;
        proof {
            assert(cs[i as int] == all@[i as int].v());
            seqs::lemma_take_last(cs, i as int);
            seqs::lemma_filter_last(cs.take(i + 1), f);
            seqs::lemma_filter_last(cs.take(i + 1), g);
        }
        let e = all[i];
        if reads_within(e, xs) {
            assert(f(cs[i as int]) && !g(cs[i as int]));
            let x = e.copy();
            first.push(x);
            assert(ast::exprs_v(first@) =~= ast::exprs_v(f0).push(x.v()));
        } else if reads_within(e, ys) {
            assert(!f(cs[i as int]) && g(cs[i as int]));
            let x = e.copy();
            second.push(x);
            assert(ast::exprs_v(second@) =~= ast::exprs_v(s0).push(x.v()));
        } else {
            assert(!(ast::reads_only(cs[i as int], xv) || ast::reads_only(cs[i as int], yv)));
            return None;
        }
        i = i + 1;
    }
    assert(cs.take(i as int) =~= cs);
    Some(Parts { first, second })
}

fn one_path(p: PathPattern, where_: Option<Expr>) -> (c: Clause)
    ensures
        c.v() == match_path(p.v(), ast::opt_v(where_)),
{
    let mut paths: Vec<PathPattern> = Vec::new();
    paths.push(p);
    let pattern = Pattern { paths };
    assert(pattern.v().paths =~= seq![p.v()]);
    Clause::Match { optional: false, pattern, where_ }
}

/// Clauses that may be missing.
pub open spec fn clauses_opt(c: Option<Vec<Clause>>) -> Option<Seq<ClauseV>> {
    match c {
        Some(c) => Some(query::clauses_v(c@)),
        None => None,
    }
}

/// The three clauses that stand for a match of a variable-length hop and fixed
/// ones, where what follows keeps the distinct ends alone.
pub fn try_split_varlen_then_fixed(m: &Clause, w: &Clause) -> (r: Option<Vec<Clause>>)
    ensures
        clauses_opt(r) == split_match(m.v(), w.v()),
{
    match (get_match(m), get_with(w)) {
        (Some((pattern, where_)), Some((proj, None))) => {
            if !proj.distinct || proj.star || proj.order.len() > 0 || proj.skip.is_some()
                || pattern.paths.len() != 1 {
                return None;
            }
            let p = &pattern.paths[0];
            assert(pattern.v().paths[0] == p.v());
            let b = match find_varlen_end(p) {
                Some(b) => b,
                None => {
                    return None;
                },
            };
            let xs = first_names(p, &b);
            let ys = second_names(p, &b);
            if !are_parts_apart(p, &b, &ys) || !only_handed_on(proj, &ys, &b) {
                return None;
            }
            let parts = match part_where(where_, &xs, &ys) {
                Some(x) => x,
                None => {
                    return None;
                },
            };
            let first = PathPattern {
                var: None,
                shortest: false,
                start: p.start.copy(),
                hops: copy_hops(&p.hops, 0, 1),
            };
            let second = PathPattern {
                var: None,
                shortest: false,
                start: NodePattern { var: Some(b.clone()), labels: Vec::new(), props: None },
                hops: copy_hops(&p.hops, 1, p.hops.len()),
            };
            proof {
                assert(first.v().hops =~= p.v().hops.take(1));
                assert(second.v().hops =~= p.v().hops.skip(1));
                assert(second.v().start.labels =~= Seq::empty());
            }
            let w1 = and_node_anchors(None, &parts.first);
            let w2 = and_node_anchors(None, &parts.second);
            let mut out: Vec<Clause> = Vec::new();
            out.push(one_path(first, w1));
            let keep = distinct_projection(&b);
            out.push(Clause::With { proj: keep, where_: None });
            out.push(one_path(second, w2));
            assert(query::clauses_v(out@) =~= split_match(m.v(), w.v())->0);
            Some(out)
        },
        _ => None,
    }
}

/// The first clause, from one on, that splits together with the next.
pub open spec fn first_split(q: Seq<ClauseV>, i: int) -> Option<int>
    decreases q.len() - i,
{
    if i < 0 || i + 1 >= q.len() {
        None
    } else if split_match(q[i], q[i + 1]) is Some {
        Some(i)
    } else {
        first_split(q, i + 1)
    }
}

/// A query with its first match that splits split.
pub open spec fn split_query(q: Seq<ClauseV>) -> Option<Seq<ClauseV>> {
    match first_split(q, 0) {
        Some(i) => Some(q.take(i) + split_match(q[i], q[i + 1])->0 + q.skip(i + 1)),
        None => None,
    }
}

proof fn lemma_first_split(q: Seq<ClauseV>, from: int, i: int)
    requires
        0 <= from <= i,
        forall|j: int|
            from <= j < i && j + 1 < q.len() ==> #[trigger] split_match(q[j], q[j + 1]) is None,
    ensures
        first_split(q, from) == first_split(q, i),
    decreases i - from,
{
    if from < i {
        if from + 1 < q.len() {
            assert(split_match(q[from], q[from + 1]) is None);
        }
        lemma_first_split(q, from + 1, i);
    }
}

/// Splits the first match of a variable-length hop and fixed ones that splits.
pub fn normalise_varlen_then_fixed(q: &SingleQuery) -> (r: Option<SingleQuery>)
    ensures
        query_opt(r) == split_query(q.v()),
{
    let ghost qv = q.v();
    let n = q.clauses.len();
    let mut i: usize = 0;
    while i < n && n - i > 1
        invariant
            i <= n == q.clauses@.len(),
            qv == q.v(),
            forall|j: int|
                0 <= j < i && j + 1 < qv.len() ==> #[trigger] split_match(qv[j], qv[j + 1]) is None,
        decreases n - i,
    {
        assert(qv[i as int] == q.clauses@[i as int].v());
        assert(qv[i + 1] == q.clauses@[i + 1].v());
        match try_split_varlen_then_fixed(&q.clauses[i], &q.clauses[i + 1]) {
            Some(mid) => {
                let ghost midv = query::clauses_v(mid@);
                let mut clauses = copy_clauses(&q.clauses, 0, i);
                let mut rest = copy_clauses(&q.clauses, i + 1, n);
                let mut mid = mid;
                clauses.append(&mut mid);
                clauses.append(&mut rest);
                proof {
                    lemma_first_split(qv, 0, i as int);
                    assert(query::clauses_v(clauses@) =~= qv.take(i as int) + midv + qv.skip(
                        i + 1,
                    ));
                }
                return Some(SingleQuery { clauses });
            },
            None => {},
        }
        i = i + 1;
    }
    proof {
        lemma_first_split(qv, 0, i as int);
    }
    None
}

/// Whether a projection hands everything on and only orders or pages.
pub open spec fn only_orders(p: ProjV) -> bool {
    p.star && p.items.len() == 0 && !p.distinct && (p.order.len() > 0 || p.skip is Some
        || p.limit is Some)
}

/// Whether a projection turns rows into rows, in their order.
pub open spec fn one_to_one(p: ProjV) -> bool {
    !p.star && !p.distinct && p.order.len() == 0 && p.skip is None && p.limit is None
        && !query::any_aggregate(p.items)
}

/// Whether a projection neither orders nor pages.
pub open spec fn pages_nothing(p: ProjV) -> bool {
    !p.star && p.order.len() == 0 && p.skip is None && p.limit is None
}

/// Whether no column of a projection takes the name of something else that an
/// order reads.
pub open spec fn order_stands(order: Seq<OrderV>, items: Seq<ItemV>) -> bool {
    forall|i: int, j: int|
        0 <= i < order.len() && 0 <= j < items.len() && ast::reads(
            (#[trigger] order[i]).expr,
            query::column_of(#[trigger] items[j]),
        ) ==> ast::as_var(items[j].expr) == Some(query::column_of(items[j]))
}

fn does_order_stand(s: &Projection, r: &Projection) -> (b: bool)
    ensures
        b == order_stands(s.v().order, r.v().items),
{
    let ghost order = s.v().order;
    let ghost items = r.v().items;
    let mut j: usize = 0;
    while j < r.items.len()
        invariant
            j <= r.items@.len(),
            order == s.v().order,
            items == r.v().items,
            forall|a: int, b: int|
                0 <= a < order.len() && 0 <= b < j && ast::reads(
                    (#[trigger] order[a]).expr,
                    query::column_of(#[trigger] items[b]),
                ) ==> ast::as_var(items[b].expr) == Some(query::column_of(items[b])),
        decreases r.items.len() - j,
    {
        assert(items[j as int] == r.items@[j as int].v());
        let c = r.items[j].column();
        let same = match &r.items[j].expr.head {
            Head::Var(x) => *x == c,
            _ => false,
        };
        if !same {
            let mut i: usize = 0;
            while i < s.order.len()
                invariant
                    i <= s.order@.len(),
                    j < r.items@.len(),
                    order == s.v().order,
                    items == r.v().items,
                    items[j as int] == r.items@[j as int].v(),
                    c@ == query::column_of(items[j as int]),
                    ast::as_var(items[j as int].expr) != Some(c@),
                    forall|a: int| 0 <= a < i ==> !ast::reads((#[trigger] order[a]).expr, c@),
                decreases s.order.len() - i,
            {
                assert(order[i as int] == s.order@[i as int].v());
                if ast::reads_var(&s.order[i].expr, &c) {
                    assert(ast::reads(order[i as int].expr, query::column_of(items[j as int])));
                    return false;
                }
                i = i + 1;
            }
        }
        j = j + 1;
    }
    true
}

/// A query whose last projection takes over the order and the page of the one
/// before it.
pub open spec fn tail_fused(q: Seq<ClauseV>) -> Option<Seq<ClauseV>> {
    let n = q.len();
    if n < 3 {
        None
    } else {
        match (as_with(q[n - 3]), as_with(q[n - 2]), as_return(q[n - 1])) {
            (Some((w, _)), Some((s, None)), Some(r)) => if only_orders(s) && one_to_one(r)
                && pages_nothing(w) && order_stands(s.order, r.items) {
                Some(
                    q.take(n - 2).push(
                        ClauseV::Return {
                            proj: ProjV {
                                distinct: false,
                                star: false,
                                items: r.items,
                                order: s.order,
                                skip: s.skip,
                                limit: s.limit,
                                distinct_vars: r.distinct_vars,
                            },
                        },
                    ),
                )
            } else {
                None
            },
            _ => None,
        }
    }
}

/// Lets the last projection take over the order and the page of the one before
/// it.
pub fn normalise_where_first_tail(q: &SingleQuery) -> (r: Option<SingleQuery>)
    ensures
        query_opt(r) == tail_fused(q.v()),
{
    let n = q.clauses.len();
    if n < 3 {
        return None;
    }
    let ghost qv = q.v();
    assert(qv[n - 3] == q.clauses@[n - 3].v());
    assert(qv[n - 2] == q.clauses@[n - 2].v());
    assert(qv[n - 1] == q.clauses@[n - 1].v());
    match (get_with(&q.clauses[n - 3]), get_with(&q.clauses[n - 2]), get_return(&q.clauses[n - 1])) {
        (Some((w, _)), Some((s, None)), Some(r)) => {
            if !s.star || s.items.len() > 0 || s.distinct || (s.order.len() == 0 && s.skip.is_none()
                && s.limit.is_none()) {
                return None;
            }
            if r.star || r.distinct || r.order.len() > 0 || r.skip.is_some() || r.limit.is_some()
                || items_aggregate(r) {
                return None;
            }
            if w.star || w.order.len() > 0 || w.skip.is_some() || w.limit.is_some() {
                return None;
            }
            if !does_order_stand(s, r) {
                return None;
            }
            let proj = Projection {
                distinct: false,
                star: false,
                items: copy_items(&r.items),
                order: copy_order(&s.order),
                skip: ast::copy_opt(ast::as_opt(&s.skip)),
                limit: ast::copy_opt(ast::as_opt(&s.limit)),
                distinct_vars: names::copy_names(&r.distinct_vars),
            };
            let mut clauses = copy_clauses(&q.clauses, 0, n - 2);
            clauses.push(Clause::Return { proj });
            assert(query::clauses_v(clauses@) =~= tail_fused(qv)->0);
            Some(SingleQuery { clauses })
        },
        _ => None,
    }
}

/// The path of a query that may be walked from its other end: the only one of
/// its first match, unless the last projection keeps rows by their order alone.
pub open spec fn turnable(q: Seq<ClauseV>) -> Option<(PathV, Option<ExprV>)> {
    if q.len() == 0 {
        None
    } else {
        match as_match(q[0]) {
            Some((pattern, where_)) => if pattern.paths.len() != 1 || (as_return(q.last()) matches
                Some(p) && p.limit is Some && p.order.len() == 0) {
                None
            } else {
                Some((pattern.paths[0], where_))
            },
            None => None,
        }
    }
}

/// A query whose first path is replaced by one that binds the same rows.
pub open spec fn turned(q: Seq<ClauseV>, path: PathV) -> Option<Seq<ClauseV>> {
    match turnable(q) {
        Some((_, where_)) => Some(q.update(0, match_path(path, where_))),
        None => None,
    }
}

/// The path of a query that may be walked from its other end.
pub fn turnable_path(q: &SingleQuery) -> (r: Option<&PathPattern>)
    ensures
        match r {
            Some(p) => turnable(q.v()) matches Some((v, _)) && v == p.v(),
            None => turnable(q.v()) is None,
        },
{
    let n = q.clauses.len();
    if n == 0 {
        return None;
    }
    assert(q.v()[0] == q.clauses@[0].v());
    assert(q.v().last() == q.clauses@[n - 1].v());
    match get_match(&q.clauses[0]) {
        Some((pattern, _)) => {
            if pattern.paths.len() != 1 {
                return None;
            }
            assert(pattern.v().paths[0] == pattern.paths@[0].v());
            match get_return(&q.clauses[n - 1]) {
                Some(p) => {
                    if p.limit.is_some() && p.order.len() == 0 {
                        return None;
                    }
                },
                None => {},
            }
            Some(&pattern.paths[0])
        },
        None => None,
    }
}

/// Replaces the first path of a query by one that binds the same rows from its
/// other end.
pub fn normalise_seekable_end_first(q: &SingleQuery, path: PathPattern) -> (r: Option<SingleQuery>)
    ensures
        query_opt(r) == turned(q.v(), path.v()),
{
    if turnable_path(q).is_none() {
        return None;
    }
    assert(q.v()[0] == q.clauses@[0].v());
    match get_match(&q.clauses[0]) {
        Some((_, where_)) => {
            let w = ast::copy_opt(ast::as_opt(where_));
            let ghost pv = path.v();
            let first = one_path(path, w);
            let mut clauses: Vec<Clause> = Vec::new();
            clauses.push(first);
            let mut rest = copy_clauses(&q.clauses, 1, q.clauses.len());
            let ghost rv = query::clauses_v(rest@);
            clauses.append(&mut rest);
            proof {
                assert(query::clauses_v(clauses@) =~= seq![first.v()] + rv);
                assert(rv =~= q.v().skip(1));
                assert(q.v().update(0, first.v()) =~= seq![first.v()] + q.v().skip(1));
                assert(turned(q.v(), pv) == Some(q.v().update(0, first.v())));
            }
            Some(SingleQuery { clauses })
        },
        None => None,
    }
}

/// The first of the rewrites by shape alone that applies.
pub open spec fn reshaped(q: Seq<ClauseV>) -> Option<Seq<ClauseV>> {
    match split_query(q) {
        Some(r) => Some(r),
        None => tail_fused(q),
    }
}

/// The first of the rewrites by shape alone that applies.
pub fn normalise_shape(q: &SingleQuery) -> (r: Option<SingleQuery>)
    ensures
        query_opt(r) == reshaped(q.v()),
{
    match normalise_varlen_then_fixed(q) {
        Some(r) => Some(r),
        None => normalise_where_first_tail(q),
    }
}

/// The first half of a split match never splits again.
pub proof fn law_split_once(m: ClauseV, w: ClauseV)
    requires
        split_match(m, w) is Some,
    ensures
        split_match((split_match(m, w)->0)[0], (split_match(m, w)->0)[1]) is None,
        split_match((split_match(m, w)->0)[2], w) is None,
{
    let cs = split_match(m, w)->0;
    let p = (as_match(m)->0).0.paths[0];
    assert((as_match(cs[0])->0).0.paths[0].hops.len() == 1);
    let second = (as_match(cs[2])->0).0.paths[0];
    assert(second.hops[0] == p.hops[1]);
    assert(fixed_hop(p.hops[1]));
}

/// A query whose tail was fused has no tail left to fuse.
pub proof fn law_fuse_once(q: Seq<ClauseV>)
    requires
        tail_fused(q) is Some,
    ensures
        tail_fused(tail_fused(q)->0) is None,
{
    let r = tail_fused(q)->0;
    assert(r.last() == r[r.len() - 1]);
    assert(r[r.len() - 2] == q[q.len() - 3]);
}

} // verus!
