//! A leading match that only binds constants for the rest of a query.

use vstd::prelude::*;
use vstd::string::StringExecFns;

use crate::ast;
use crate::ast::{expr_has_aggregate, reads_some, Expr, ExprV, Head, HeadV, Op};
use crate::fuse::{subst, substitute_aliases, ExprMap};
use crate::multistage::{as_match, as_with, get_match, get_with};
use crate::names;
use crate::names::copy_names;
use crate::query;
use crate::query::{Clause, ClauseV, ItemV, NodePattern, NodeV, OrderV, PathPattern, PathV, Pattern, PatternV, ProjItem, ProjV, Projection, RelPattern, RelV, SingleQuery};
use crate::reorder::{add_labels, path_nodes};
use crate::reroot::query_opt;
use crate::rewrite::{clause_mentions_var, clause_names, clauses_mention_var, clauses_name, opt_mentions, opt_reads, opt_subst, opt_substitute, subst_order};
use crate::seqs;
use crate::table::first_seen;

verus! {

/// Whether an expression is a collected list.
pub open spec fn is_collect(e: ExprV) -> bool {
    e.head matches HeadV::Call(f) && f.name == "collect"@
}

fn collects(e: &Expr) -> (b: bool)
    ensures
        b == is_collect(e.v()),
{
    match &e.head {
        Head::Call(f) => f.name == "collect".to_owned(),
        _ => false,
    }
}

/// Whether a name is that of a list that some item collects.
pub open spec fn names_list(items: Seq<ItemV>, x: Seq<char>) -> bool {
    exists|i: int|
        0 <= i < items.len() && is_collect((#[trigger] items[i]).expr) && query::column_of(items[i])
            == x
}

/// Whether a clause unwinds a list that some item collects.
pub open spec fn unwinds_list(c: ClauseV, items: Seq<ItemV>) -> bool {
    c matches ClauseV::Unwind { expr, .. } && (ast::as_var(expr) matches Some(x) && names_list(
        items,
        x,
    ))
}

/// Whether a projection can bind constants: it is plain, aggregates nothing but
/// into lists, and hands on a whole entity only under a limit.
pub open spec fn binds_constants(p: ProjV) -> bool {
    &&& !p.star && !p.distinct && p.order.len() == 0 && p.skip is None && p.items.len() > 0
    &&& forall|i: int|
        0 <= i < p.items.len() ==> (ast::has_aggregate((#[trigger] p.items[i]).expr) ==> is_collect(
            p.items[i].expr,
        ))
    &&& (exists|i: int| 0 <= i < p.items.len() && (#[trigger] p.items[i]).expr.head is Var)
        ==> p.limit is Some
}

/// Whether the rest of a query only reads, and unwinds no list of the items.
pub open spec fn rest_reads(cs: Seq<ClauseV>, items: Seq<ItemV>) -> bool {
    forall|i: int|
        0 <= i < cs.len() ==> !((#[trigger] cs[i]) is Other) && !unwinds_list(cs[i], items)
}

/// The query that computes the constants.
pub open spec fn prelude_of(q: Seq<ClauseV>) -> Option<Seq<ClauseV>> {
    if q.len() < 3 {
        None
    } else {
        match (as_match(q[0]), as_with(q[1])) {
            (Some((pattern, where_)), Some((p, None))) => if binds_constants(p) && rest_reads(
                q.skip(2),
                p.items,
            ) {
                Some(
                    seq![
                        ClauseV::Match { optional: false, pattern, where_ },
                        ClauseV::Return {
                            proj: ProjV {
                                items: p.items.map_values(
                                    |it: ItemV|
                                        ItemV { alias: Some(query::column_of(it)), ..it },
                                ),
                                ..p
                            },
                        },
                    ],
                )
            } else {
                None
            },
            _ => None,
        }
    }
}

fn list_named(p: &Projection, x: &String) -> (b: bool)
    ensures
        b == names_list(p.v().items, x@),
{
    let mut i: usize = 0;
    while i < p.items.len()
        invariant
            i <= p.items@.len(),
            forall|j: int|
                0 <= j < i ==> !(is_collect((#[trigger] p.v().items[j]).expr) && query::column_of(
                    p.v().items[j],
                ) == x@),
        decreases p.items.len() - i,
    {
        assert(p.v().items[i as int] == p.items@[i as int].v());
        if collects(&p.items[i].expr) {
            let c = p.items[i].column();
            if c == *x {
                return true;
            }
        }
        i = i + 1;
    }
    false
}

fn has_constants(p: &Projection) -> (b: bool)
    ensures
        b == binds_constants(p.v()),
{
    if p.star || p.distinct || p.order.len() > 0 || p.skip.is_some() || p.items.len() == 0 {
        return false;
    }
    let mut bare = false;
    let mut i: usize = 0;
    while i < p.items.len()
        invariant
            i <= p.items@.len(),
            forall|j: int|
                0 <= j < i ==> (ast::has_aggregate((#[trigger] p.v().items[j]).expr) ==> is_collect(
                    p.v().items[j].expr,
                )),
            bare == (exists|j: int| 0 <= j < i && (#[trigger] p.v().items[j]).expr.head is Var),
        decreases p.items.len() - i,
    {
        assert(p.v().items[i as int] == p.items@[i as int].v());
        let e = &p.items[i].expr;
        if expr_has_aggregate(e) && !collects(e) {
            return false;
        }
        if matches!(e.head, Head::Var(_)) {
            bare = true;
        }
        i = i + 1;
    }
    !bare || p.limit.is_some()
}

fn only_reads(cs: &Vec<Clause>, p: &Projection) -> (b: bool)
    requires
        cs@.len() >= 2,
    ensures
        b == rest_reads(query::clauses_v(cs@).skip(2), p.v().items),
{
    let ghost rest = query::clauses_v(cs@).skip(2);
    let mut i: usize = 2;
    while i < cs.len()
        invariant
            2 <= i <= cs@.len(),
            rest == query::clauses_v(cs@).skip(2),
            forall|j: int|
                0 <= j < i - 2 ==> !((#[trigger] rest[j]) is Other) && !unwinds_list(
                    rest[j],
                    p.v().items,
                ),
        decreases cs.len() - i,
    {
        assert(rest[i - 2] == cs@[i as int].v());
        match &cs[i] {
            Clause::Other(_) => {
                return false;
            },
            Clause::Unwind { expr, .. } => match &expr.head {
                Head::Var(x) => {
                    if list_named(p, x) {
                        return false;
                    }
                },
                _ => {},
            },
            _ => {},
        }
        i = i + 1;
    }
    true
}

fn name_columns(p: &Projection) -> (r: Projection)
    ensures
        r.v() == (ProjV {
            items: p.v().items.map_values(
                |it: ItemV| ItemV { alias: Some(query::column_of(it)), ..it },
            ),
            ..p.v()
        }),
{
    let mut r = p.copy();
    let mut items: Vec<ProjItem> = Vec::new();
    let mut i: usize = 0;
    while i < p.items.len()
        invariant
            i <= p.items@.len(),
            items@.len() == i,
            forall|j: int|
                0 <= j < i ==> (#[trigger] items@[j]).v() == (ItemV {
                    alias: Some(query::column_of(p.items@[j].v())),
                    ..p.items@[j].v()
                }),
        decreases p.items.len() - i,
    {
        let mut it = p.items[i].copy();
        it.alias = Some(p.items[i].column());
        items.push(it);
        i = i + 1;
    }
    r.items = items;
    assert(r.v().items =~= p.v().items.map_values(
        |it: ItemV| ItemV { alias: Some(query::column_of(it)), ..it },
    ));
    r
}

/// The query that computes the constants that a leading match binds for the
/// rest of a query.
pub fn scalar_prelude(q: &SingleQuery) -> (r: Option<SingleQuery>)
    ensures
        query_opt(r) == prelude_of(q.v()),
{
    if q.clauses.len() < 3 {
        return None;
    }
    assert(q.v()[0] == q.clauses@[0].v());
    assert(q.v()[1] == q.clauses@[1].v());
    match (get_match(&q.clauses[0]), get_with(&q.clauses[1])) {
        (Some((pattern, where_)), Some((p, None))) => {
            if !has_constants(p) || !only_reads(&q.clauses, p) {
                return None;
            }
            let mut clauses: Vec<Clause> = Vec::new();
            clauses.push(
                Clause::Match {
                    optional: false,
                    pattern: pattern.copy(),
                    where_: ast::copy_opt(ast::as_opt(where_)),
                },
            );
            let proj = name_columns(p);
            clauses.push(Clause::Return { proj });
            let r = SingleQuery { clauses };
            assert(r.v() =~= prelude_of(q.v())->0);
            Some(r)
        },
        _ => None,
    }
}

/// A node with names in its properties replaced.
pub open spec fn subst_node(n: NodeV, m: Map<Seq<char>, ExprV>) -> NodeV {
    NodeV { props: opt_subst(n.props, m), ..n }
}

/// A path with names in its properties replaced.
pub open spec fn subst_path(p: PathV, m: Map<Seq<char>, ExprV>) -> PathV {
    PathV {
        start: subst_node(p.start, m),
        hops: p.hops.map_values(
            |h: (RelV, NodeV)|
                (RelV { props: opt_subst(h.0.props, m), ..h.0 }, subst_node(h.1, m)),
        ),
        ..p
    }
}

/// An item with names replaced. One that changes keeps the name of its column.
pub open spec fn subst_item(it: ItemV, m: Map<Seq<char>, ExprV>) -> ItemV {
    let e = subst(it.expr, m);
    ItemV {
        expr: e,
        alias: if e != it.expr {
            Some(query::column_of(it))
        } else {
            it.alias
        },
        ..it
    }
}

/// A projection with names replaced.
pub open spec fn subst_proj(p: ProjV, m: Map<Seq<char>, ExprV>) -> ProjV {
    ProjV {
        items: p.items.map_values(|it: ItemV| subst_item(it, m)),
        order: p.order.map_values(|o: OrderV| OrderV { expr: subst(o.expr, m), ..o }),
        skip: opt_subst(p.skip, m),
        limit: opt_subst(p.limit, m),
        ..p
    }
}

/// A clause with names replaced.
pub open spec fn subst_clause(c: ClauseV, m: Map<Seq<char>, ExprV>) -> ClauseV {
    match c {
        ClauseV::Match { optional, pattern, where_ } => ClauseV::Match {
            optional,
            pattern: PatternV { paths: pattern.paths.map_values(|p: PathV| subst_path(p, m)) },
            where_: opt_subst(where_, m),
        },
        ClauseV::With { proj, where_ } => ClauseV::With {
            proj: subst_proj(proj, m),
            where_: opt_subst(where_, m),
        },
        ClauseV::Return { proj } => ClauseV::Return { proj: subst_proj(proj, m) },
        ClauseV::Unwind { expr, alias } => ClauseV::Unwind { expr: subst(expr, m), alias },
        ClauseV::Other(i) => ClauseV::Other(i),
    }
}

fn subst_node_props(n: &NodePattern, m: &ExprMap) -> (r: NodePattern)
    ensures
        r.v() == subst_node(n.v(), m.v()),
{
    NodePattern {
        var: ast::copy_opt_name(&n.var),
        labels: copy_names(&n.labels),
        props: opt_substitute(&n.props, m),
    }
}

fn subst_path_exprs(p: &PathPattern, m: &ExprMap) -> (r: PathPattern)
    ensures
        r.v() == subst_path(p.v(), m.v()),
{
    let mut hops: Vec<(RelPattern, NodePattern)> = Vec::new();
    let mut i: usize = 0;
    while i < p.hops.len()
        invariant
            i <= p.hops@.len(),
            hops@.len() == i,
            forall|j: int|
                0 <= j < i ==> (#[trigger] hops@[j]).0.v() == (RelV {
                    props: opt_subst(p.hops@[j].0.v().props, m.v()),
                    ..p.hops@[j].0.v()
                }) && hops@[j].1.v() == subst_node(p.hops@[j].1.v(), m.v()),
        decreases p.hops.len() - i,
    {
        let mut rel = p.hops[i].0.copy();
        rel.props = opt_substitute(&p.hops[i].0.props, m);
        let node = subst_node_props(&p.hops[i].1, m);
        hops.push((rel, node));
        i = i + 1;
    }
    let r = PathPattern {
        var: ast::copy_opt_name(&p.var),
        shortest: p.shortest,
        start: subst_node_props(&p.start, m),
        hops,
    };
    assert(r.v().hops =~= subst_path(p.v(), m.v()).hops);
    r
}

fn subst_pattern_exprs(p: &Pattern, m: &ExprMap) -> (r: Pattern)
    ensures
        r.v() == (PatternV { paths: p.v().paths.map_values(|x: PathV| subst_path(x, m.v())) }),
{
    let mut paths: Vec<PathPattern> = Vec::new();
    let mut i: usize = 0;
    while i < p.paths.len()
        invariant
            i <= p.paths@.len(),
            paths@.len() == i,
            forall|j: int|
                0 <= j < i ==> (#[trigger] paths@[j]).v() == subst_path(p.paths@[j].v(), m.v()),
        decreases p.paths.len() - i,
    {
        let x = subst_path_exprs(&p.paths[i], m);
        paths.push(x);
        i = i + 1;
    }
    let r = Pattern { paths };
    assert(r.v().paths =~= p.v().paths.map_values(|x: PathV| subst_path(x, m.v())));
    r
}

fn subst_one(it: &ProjItem, m: &ExprMap) -> (r: ProjItem)
    ensures
        r.v() == subst_item(it.v(), m.v()),
{
    let e = substitute_aliases(&it.expr, m);
    let mut r = it.copy();
    if !e.same(&it.expr) {
        r.alias = Some(it.column());
    }
    r.expr = e;
    r
}

fn subst_proj_exprs(p: &Projection, m: &ExprMap) -> (r: Projection)
    ensures
        r.v() == subst_proj(p.v(), m.v()),
{
    let mut items: Vec<ProjItem> = Vec::new();
    let mut i: usize = 0;
    while i < p.items.len()
        invariant
            i <= p.items@.len(),
            items@.len() == i,
            forall|j: int|
                0 <= j < i ==> (#[trigger] items@[j]).v() == subst_item(p.items@[j].v(), m.v()),
        decreases p.items.len() - i,
    {
        let x = subst_one(&p.items[i], m);
        items.push(x);
        i = i + 1;
    }
    let r = Projection {
        distinct: p.distinct,
        star: p.star,
        items,
        order: subst_order(&p.order, m),
        skip: opt_substitute(&p.skip, m),
        limit: opt_substitute(&p.limit, m),
        distinct_vars: copy_names(&p.distinct_vars),
    };
    assert(r.v().items =~= subst_proj(p.v(), m.v()).items);
    r
}

fn subst_clause_exprs(c: &Clause, m: &ExprMap) -> (r: Clause)
    ensures
        r.v() == subst_clause(c.v(), m.v()),
{
    match c {
        Clause::Match { optional, pattern, where_ } => Clause::Match {
            optional: *optional,
            pattern: subst_pattern_exprs(pattern, m),
            where_: opt_substitute(where_, m),
        },
        Clause::With { proj, where_ } => Clause::With {
            proj: subst_proj_exprs(proj, m),
            where_: opt_substitute(where_, m),
        },
        Clause::Return { proj } => Clause::Return { proj: subst_proj_exprs(proj, m) },
        Clause::Unwind { expr, alias } => Clause::Unwind {
            expr: substitute_aliases(expr, m),
            alias: alias.clone(),
        },
        Clause::Other(i) => Clause::Other(*i),
    }
}

/// Whether a clause projects every column.
pub open spec fn stars(c: ClauseV) -> bool {
    match c {
        ClauseV::With { proj, .. } => proj.star,
        ClauseV::Return { proj } => proj.star,
        _ => false,
    }
}

/// Whether an item is a constant that nothing after it reads. An aggregate reads
/// the rows, though it may read no variable.
pub open spec fn dead(it: ItemV, tail: Seq<ClauseV>, having: Option<ExprV>) -> bool {
    !ast::reads_any(it.expr) && !ast::has_aggregate(it.expr) && !clauses_name(
        tail,
        query::column_of(it),
    ) && !opt_reads(having, query::column_of(it)) && !any_stars(tail)
}

/// Whether a clause projects every column.
pub open spec fn any_stars(cs: Seq<ClauseV>) -> bool {
    exists|i: int| 0 <= i < cs.len() && stars(#[trigger] cs[i])
}

fn some_star(cs: &Vec<Clause>, from: usize) -> (b: bool)
    requires
        from <= cs@.len(),
    ensures
        b == any_stars(query::clauses_v(cs@).skip(from as int)),
{
    let ghost rest = query::clauses_v(cs@).skip(from as int);
    let mut i: usize = from;
    while i < cs.len()
        invariant
            from <= i <= cs@.len(),
            rest == query::clauses_v(cs@).skip(from as int),
            forall|j: int| 0 <= j < i - from ==> !stars(#[trigger] rest[j]),
        decreases cs.len() - i,
    {
        assert(rest[i - from] == cs@[i as int].v());
        let star = match &cs[i] {
            Clause::With { proj, .. } => proj.star,
            Clause::Return { proj } => proj.star,
            _ => false,
        };
        if star {
            assert(stars(rest[i - from]));
            return true;
        }
        i = i + 1;
    }
    false
}

/// A projection without its dead constants, unless it has nothing else.
pub open spec fn trimmed(c: ClauseV, tail: Seq<ClauseV>) -> ClauseV {
    match c {
        ClauseV::With { proj, where_ } => {
            let kept = proj.items.filter(|it: ItemV| !dead(it, tail, where_));
            if proj.items.len() < 2 || kept.len() == 0 {
                c
            } else {
                ClauseV::With { proj: ProjV { items: kept, ..proj }, where_ }
            }
        },
        _ => c,
    }
}

/// Clauses without the dead constants of their projections.
pub open spec fn all_trimmed(cs: Seq<ClauseV>) -> Seq<ClauseV> {
    Seq::new(cs.len(), |i: int| trimmed(cs[i], cs.skip(i + 1)))
}

fn trim_items(p: &Projection, w: &Option<Expr>, cs: &Vec<Clause>, from: usize) -> (r: Vec<ProjItem>)
    requires
        from <= cs@.len(),
    ensures
        query::items_v(r@) == p.v().items.filter(
            |it: ItemV| !dead(it, query::clauses_v(cs@).skip(from as int), ast::opt_v(*w)),
        ),
{
    let ghost tail = query::clauses_v(cs@).skip(from as int);
    let ghost items = p.v().items;
    let ghost keep = |it: ItemV| !dead(it, tail, ast::opt_v(*w));
    let mut r: Vec<ProjItem> = Vec::new();
    let mut i: usize = 0;
    proof {
        assert(items.take(0) =~= Seq::empty());
        seqs::lemma_filter_empty(keep);
        assert(query::items_v(r@) =~= Seq::empty());
    }
    while i < p.items.len()
        invariant
            i <= p.items@.len(),
            from <= cs@.len(),
            tail == query::clauses_v(cs@).skip(from as int),
            items == p.v().items,
            keep == (|it: ItemV| !dead(it, tail, ast::opt_v(*w))),
            query::items_v(r@) == items.take(i as int).filter(keep),
        decreases p.items.len() - i,
    {
        let ghost r0 = r@;
        proof {
            assert(items[i as int] == p.items@[i as int].v());
            seqs::lemma_take_last(items, i as int);
            seqs::lemma_filter_last(items.take(i + 1), keep);
        }
        let c = p.items[i].column();
        let gone = !reads_some(&p.items[i].expr) && !expr_has_aggregate(&p.items[i].expr)
            && !clauses_mention_var(cs, from, &c) && !opt_mentions(w, &c) && !some_star(cs, from);
        if !gone {
            assert(keep(items[i as int]));
            let x = p.items[i].copy();
            r.push(x);
            assert(query::items_v(r@) =~= query::items_v(r0).push(x.v()));
        } else {
            assert(!keep(items[i as int]));
        }
        i = i + 1;
    }
    assert(items.take(i as int) =~= items);
    r
}

/// Drops the constants of projections that nothing reads.
pub fn drop_dead_const_with_items(cs: &Vec<Clause>) -> (r: Vec<Clause>)
    ensures
        query::clauses_v(r@) == all_trimmed(query::clauses_v(cs@)),
{
    let ghost cv = query::clauses_v(cs@);
    let mut r: Vec<Clause> = Vec::new();
    let mut i: usize = 0;
    while i < cs.len()
        invariant
            i <= cs@.len(),
            cv == query::clauses_v(cs@),
            r@.len() == i,
            forall|j: int|
                0 <= j < i ==> (#[trigger] r@[j]).v() == trimmed(cv[j], cv.skip(j + 1)),
        decreases cs.len() - i,
    {
        assert(cv[i as int] == cs@[i as int].v());
        let c = match &cs[i] {
            Clause::With { proj, where_ } => {
                if proj.items.len() < 2 {
                    cs[i].copy()
                } else {
                    let kept = trim_items(proj, where_, cs, i + 1);
                    assert(query::items_v(kept@).len() == kept@.len());
                    if kept.len() == 0 {
                        cs[i].copy()
                    } else {
                        let mut p = proj.copy();
                        p.items = kept;
                        Clause::With { proj: p, where_: ast::copy_opt(ast::as_opt(where_)) }
                    }
                }
            },
            _ => cs[i].copy(),
        };
        r.push(c);
        i = i + 1;
    }
    assert(query::clauses_v(r@) =~= all_trimmed(cv));
    r
}

/// Whether a clause is a match with a path that starts at a variable.
pub open spec fn starts_at(c: ClauseV, x: Seq<char>) -> bool {
    c matches ClauseV::Match { pattern, .. } && exists|i: int|
        0 <= i < pattern.paths.len() && (#[trigger] pattern.paths[i]).start.var == Some(x)
}

/// The first clause with a path that starts at a variable.
pub open spec fn first_start(cs: Seq<ClauseV>, x: Seq<char>) -> Option<int> {
    names::position(cs.map_values(|c: ClauseV| starts_at(c, x)), true)
}

fn does_start_at(c: &Clause, x: &String) -> (b: bool)
    ensures
        b == starts_at(c.v(), x@),
{
    match c {
        Clause::Match { optional, pattern, where_ } => {
            let mut i: usize = 0;
            while i < pattern.paths.len()
                invariant
                    i <= pattern.paths@.len(),
                    c.v() matches ClauseV::Match { pattern: q, .. } && q == pattern.v(),
                    forall|j: int|
                        0 <= j < i ==> (#[trigger] pattern.v().paths[j]).start.var != Some(x@),
                decreases pattern.paths.len() - i,
            {
                assert(pattern.v().paths[i as int] == pattern.paths@[i as int].v());
                match &pattern.paths[i].start.var {
                    Some(y) => {
                        if *y == *x {
                            assert(c.v() matches ClauseV::Match { pattern: q, .. }
                                && q.paths[i as int].start.var == Some(x@));
                            return true;
                        }
                    },
                    None => {},
                }
                i = i + 1;
            }
            false
        },
        _ => false,
    }
}

/// The first clause from the third on with a path that starts at a variable.
pub fn var_first_pattern_start(cs: &Vec<Clause>, x: &String) -> (r: Option<usize>)
    requires
        cs@.len() >= 2,
    ensures
        match r {
            Some(i) => first_start(query::clauses_v(cs@).skip(2), x@) == Some(i as int) && i + 2
                < cs@.len(),
            None => first_start(query::clauses_v(cs@).skip(2), x@) is None,
        },
{
    let ghost rest = query::clauses_v(cs@).skip(2);
    let ghost s = rest.map_values(|c: ClauseV| starts_at(c, x@));
    let mut i: usize = 2;
    while i < cs.len()
        invariant
            2 <= i <= cs@.len(),
            rest == query::clauses_v(cs@).skip(2),
            s == rest.map_values(|c: ClauseV| starts_at(c, x@)),
            forall|j: int| 0 <= j < i - 2 ==> #[trigger] s[j] != true,
        decreases cs.len() - i,
    {
        assert(rest[i - 2] == cs@[i as int].v());
        assert(s[i - 2] == starts_at(rest[i - 2], x@));
        if does_start_at(&cs[i], x) {
            proof {
                names::lemma_first_is_position(s, true, i - 2);
            }
            return Some(i - 2);
        }
        i = i + 1;
    }
    proof {
        assert(!s.contains(true));
        names::lemma_position(s, true);
    }
    None
}

/// A node, if it is a variable.
pub open spec fn node_if(n: NodeV, x: Seq<char>) -> Option<NodeV> {
    if n.var == Some(x) {
        Some(n)
    } else {
        None
    }
}

/// The first node of a path that is a variable.
pub open spec fn node_in(p: PathV, x: Seq<char>) -> Option<NodeV> {
    seqs::find_map(path_nodes(p), |n: NodeV| node_if(n, x))
}

/// The first node of a pattern that is a variable.
pub open spec fn first_node(p: PatternV, x: Seq<char>) -> Option<NodeV> {
    seqs::find_map(p.paths, |q: PathV| node_in(q, x))
}

/// A node that may be missing.
pub open spec fn node_opt(n: Option<NodePattern>) -> Option<NodeV> {
    match n {
        Some(n) => Some(n.v()),
        None => None,
    }
}

fn own_node(n: &NodePattern, x: &String) -> (b: bool)
    ensures
        b == (n.v().var == Some(x@)),
{
    match &n.var {
        Some(y) => *y == *x,
        None => false,
    }
}

fn find_in_path(p: &PathPattern, x: &String) -> (r: Option<NodePattern>)
    ensures
        node_opt(r) == node_in(p.v(), x@),
{
    let ghost ns = path_nodes(p.v());
    let ghost f = |n: NodeV| node_if(n, x@);
    assert(ns[0] == p.start.v());
    if own_node(&p.start, x) {
        proof {
            seqs::lemma_find_map(ns, f, 0);
        }
        return Some(p.start.copy());
    }
    let mut i: usize = 0;
    while i < p.hops.len()
        invariant
            i <= p.hops@.len(),
            ns == path_nodes(p.v()),
            f == (|n: NodeV| node_if(n, x@)),
            forall|j: int| 0 <= j <= i ==> f(#[trigger] ns[j]) is None,
        decreases p.hops.len() - i,
    {
        assert(p.v().hops[i as int] == (p.hops@[i as int].0.v(), p.hops@[i as int].1.v()));
        assert(ns[i + 1] == p.hops@[i as int].1.v());
        if own_node(&p.hops[i].1, x) {
            proof {
                seqs::lemma_find_map(ns, f, i + 1);
            }
            return Some(p.hops[i].1.copy());
        }
        i = i + 1;
    }
    proof {
        seqs::lemma_find_map(ns, f, ns.len() as int);
    }
    None
}

/// The first node of a pattern that is a variable.
pub fn prelude_node_pattern(p: &Pattern, x: &String) -> (r: Option<NodePattern>)
    ensures
        node_opt(r) == first_node(p.v(), x@),
{
    let ghost ps = p.v().paths;
    let ghost f = |q: PathV| node_in(q, x@);
    let mut i: usize = 0;
    while i < p.paths.len()
        invariant
            i <= p.paths@.len(),
            ps == p.v().paths,
            f == (|q: PathV| node_in(q, x@)),
            forall|j: int| 0 <= j < i ==> f(#[trigger] ps[j]) is None,
        decreases p.paths.len() - i,
    {
        assert(ps[i as int] == p.paths@[i as int].v());
        let r = find_in_path(&p.paths[i], x);
        if r.is_some() {
            proof {
                seqs::lemma_find_map(ps, f, i as int);
            }
            return r;
        }
        i = i + 1;
    }
    proof {
        seqs::lemma_find_map(ps, f, ps.len() as int);
    }
    None
}

/// A path with more labels on its start, if that is a variable.
pub open spec fn label_start(p: PathV, x: Seq<char>, labels: Seq<Seq<char>>) -> PathV {
    if p.start.var == Some(x) {
        PathV { start: NodeV { labels: first_seen(p.start.labels + labels), ..p.start }, ..p }
    } else {
        p
    }
}

/// A match that scans for a variable and keeps only the entity of a parameter.
pub open spec fn seed_filtered(
    c: ClauseV,
    x: Seq<char>,
    labels: Seq<Seq<char>>,
    param: Seq<char>,
) -> ClauseV {
    match c {
        ClauseV::Match { optional, pattern, where_ } => {
            let same = ast::bin_v(Op::Eq, ast::var_v(x), ast::param_v(param));
            ClauseV::Match {
                optional,
                pattern: PatternV {
                    paths: pattern.paths.map_values(|p: PathV| label_start(p, x, labels)),
                },
                where_: Some(
                    match where_ {
                        Some(w) => ast::bin_v(Op::And, same, w),
                        None => same,
                    },
                ),
            }
        },
        _ => c,
    }
}

/// Whether an item gives a variable its name.
pub open spec fn defines(it: ItemV, x: Seq<char>) -> bool {
    it.alias == Some(x) || (it.alias is None && ast::as_var(it.expr) == Some(x))
}

/// A projection without the items that give a variable its name.
pub open spec fn without_carry(c: ClauseV, x: Seq<char>) -> ClauseV {
    match c {
        ClauseV::With { proj, where_ } => ClauseV::With {
            proj: ProjV { items: proj.items.filter(|it: ItemV| !defines(it, x)), ..proj },
            where_,
        },
        _ => c,
    }
}

/// A variable that stays bound: where its path starts, its labels, and the
/// parameter whose entity it is.
pub struct SeedV {
    pub var: Seq<char>,
    pub labels: Seq<Seq<char>>,
    pub param: Seq<char>,
    pub at: int,
}

/// Clauses in which a variable stays bound, scanned for where its path starts
/// and no longer handed on before that.
pub open spec fn seed_applied(cs: Seq<ClauseV>, s: SeedV) -> Seq<ClauseV> {
    Seq::new(
        cs.len(),
        |i: int|
            if i == s.at {
                seed_filtered(cs[i], s.var, s.labels, s.param)
            } else if i < s.at {
                without_carry(cs[i], s.var)
            } else {
                cs[i]
            },
    )
}

/// Clauses in which variables stay bound.
pub open spec fn seeds_applied(cs: Seq<ClauseV>, ss: Seq<SeedV>) -> Seq<ClauseV>
    decreases ss.len(),
{
    if ss.len() == 0 {
        cs
    } else {
        seed_applied(seeds_applied(cs, ss.drop_last()), ss.last())
    }
}

/// A variable that stays bound.
#[derive(Debug)]
pub struct Seed {
    pub var: String,
    pub labels: Vec<String>,
    pub param: String,
    pub at: usize,
}

impl Seed {
    pub open spec fn v(self) -> SeedV {
        SeedV {
            var: self.var@,
            labels: names::of(self.labels@),
            param: self.param@,
            at: self.at as int,
        }
    }
}

/// Variables that stay bound.
pub open spec fn seeds_v(s: Seq<Seed>) -> Seq<SeedV> {
    s.map_values(|x: Seed| x.v())
}

fn filter_seed(c: &Clause, s: &Seed) -> (r: Clause)
    ensures
        r.v() == seed_filtered(c.v(), s.var@, names::of(s.labels@), s.param@),
{
    match c {
        Clause::Match { optional, pattern, where_ } => {
            let mut paths: Vec<PathPattern> = Vec::new();
            let mut i: usize = 0;
            while i < pattern.paths.len()
                invariant
                    i <= pattern.paths@.len(),
                    paths@.len() == i,
                    forall|j: int|
                        0 <= j < i ==> (#[trigger] paths@[j]).v() == label_start(
                            pattern.paths@[j].v(),
                            s.var@,
                            names::of(s.labels@),
                        ),
                decreases pattern.paths.len() - i,
            {
                let mut p = pattern.paths[i].copy();
                if own_node(&pattern.paths[i].start, &s.var) {
                    let mut labels: Vec<String> = Vec::new();
                    let ghost own = names::of(p.start.labels@);
                    proof {
                        assert(names::of(labels@) =~= first_seen(Seq::<Seq<char>>::empty()));
                        assert(Seq::<Seq<char>>::empty() + own =~= own);
                    }
                    add_labels(&mut labels, &p.start.labels, Ghost(Seq::empty()));
                    add_labels(&mut labels, &s.labels, Ghost(own));
                    p.start.labels = labels;
                }
                paths.push(p);
                i = i + 1;
            }
            let same = Expr::bin(Op::Eq, Expr::var(&s.var), Expr::param(&s.param));
            let w = match where_ {
                Some(w) => Expr::bin(Op::And, same, w.copy()),
                None => same,
            };
            let p = Pattern { paths };
            assert(p.v().paths =~= pattern.v().paths.map_values(
                |p: PathV| label_start(p, s.var@, names::of(s.labels@)),
            ));
            Clause::Match { optional: *optional, pattern: p, where_: Some(w) }
        },
        _ => c.copy(),
    }
}

fn gives_name(it: &ProjItem, x: &String) -> (b: bool)
    ensures
        b == defines(it.v(), x@),
{
    match &it.alias {
        Some(a) => *a == *x,
        None => match &it.expr.head {
            Head::Var(y) => *y == *x,
            _ => false,
        },
    }
}

fn drop_carry(c: &Clause, x: &String) -> (r: Clause)
    ensures
        r.v() == without_carry(c.v(), x@),
{
    match c {
        Clause::With { proj, where_ } => {
            let ghost items = proj.v().items;
            let ghost keep = |it: ItemV| !defines(it, x@);
            let mut kept: Vec<ProjItem> = Vec::new();
            let mut i: usize = 0;
            proof {
                assert(items.take(0) =~= Seq::empty());
                seqs::lemma_filter_empty(keep);
                assert(query::items_v(kept@) =~= Seq::empty());
            }
            while i < proj.items.len()
                invariant
                    i <= proj.items@.len(),
                    items == proj.v().items,
                    keep == (|it: ItemV| !defines(it, x@)),
                    query::items_v(kept@) == items.take(i as int).filter(keep),
                decreases proj.items.len() - i,
            {
                let ghost k0 = kept@;
                proof {
                    assert(items[i as int] == proj.items@[i as int].v());
                    seqs::lemma_take_last(items, i as int);
                    seqs::lemma_filter_last(items.take(i + 1), keep);
                }
                if !gives_name(&proj.items[i], x) {
                    assert(keep(items[i as int]));
                    let it = proj.items[i].copy();
                    kept.push(it);
                    assert(query::items_v(kept@) =~= query::items_v(k0).push(it.v()));
                } else {
                    assert(!keep(items[i as int]));
                }
                i = i + 1;
            }
            assert(items.take(i as int) =~= items);
            let mut p = proj.copy();
            p.items = kept;
            Clause::With { proj: p, where_: ast::copy_opt(ast::as_opt(where_)) }
        },
        _ => c.copy(),
    }
}

/// Keeps a variable bound: it is scanned for where its path starts, and no
/// longer handed on before that.
pub fn apply_seed_filter(cs: &Vec<Clause>, s: &Seed) -> (r: Vec<Clause>)
    ensures
        query::clauses_v(r@) == seed_applied(query::clauses_v(cs@), s.v()),
{
    let ghost cv = query::clauses_v(cs@);
    let mut r: Vec<Clause> = Vec::new();
    let mut i: usize = 0;
    while i < cs.len()
        invariant
            i <= cs@.len(),
            cv == query::clauses_v(cs@),
            r@.len() == i,
            forall|j: int|
                0 <= j < i ==> (#[trigger] r@[j]).v() == seed_applied(cv, s.v())[j],
        decreases cs.len() - i,
    {
        assert(cv[i as int] == cs@[i as int].v());
        let c = if i == s.at {
            filter_seed(&cs[i], s)
        } else if i < s.at {
            drop_carry(&cs[i], &s.var)
        } else {
            cs[i].copy()
        };
        r.push(c);
        i = i + 1;
    }
    assert(query::clauses_v(r@) =~= seed_applied(cv, s.v()));
    r
}

/// The value of a constant.
#[derive(Debug)]
pub enum Bound {
    /// A value that can be written down.
    Literal(Expr),
    /// A node or a relationship.
    Entity,
    /// A list.
    List,
    /// A value that can be neither written down nor handed on.
    Other,
}

/// A [`Bound`].
pub enum BoundV {
    Literal(ExprV),
    Entity,
    List,
    Other,
}

impl Bound {
    pub open spec fn v(self) -> BoundV {
        match self {
            Bound::Literal(e) => BoundV::Literal(e.v()),
            Bound::Entity => BoundV::Entity,
            Bound::List => BoundV::List,
            Bound::Other => BoundV::Other,
        }
    }
}

/// A value that can be written down, as an expression. A float is known by its
/// bits.
pub open spec fn literal_of(v: Scalar) -> ExprV {
    ExprV {
        head: match v {
            Scalar::Null => HeadV::Null,
            Scalar::Bool(b) => HeadV::Bool(b),
            Scalar::Int(i) => HeadV::Int(i),
            Scalar::Float(bits) => HeadV::Float(bits),
            Scalar::Str(s) => HeadV::Str(s@),
        },
        args: Seq::empty(),
    }
}

/// A value that can be written down.
#[derive(Debug)]
pub enum Scalar {
    Null,
    Bool(bool),
    Int(i64),
    Float(u64),
    Str(String),
}

/// A value that can be written down, as an expression.
pub fn value_to_literal_expr(v: &Scalar) -> (e: Expr)
    ensures
        e.v() == literal_of(*v),
{
    let head = match v {
        Scalar::Null => Head::Null,
        Scalar::Bool(b) => Head::Bool(*b),
        Scalar::Int(i) => Head::Int(*i),
        Scalar::Float(bits) => Head::Float(*bits),
        Scalar::Str(s) => Head::Str(s.clone()),
    };
    let e = Expr { head, args: Vec::new() };
    assert(e.v().args =~= Seq::empty());
    e
}

/// The parameter that holds a constant.
pub open spec fn param_name(col: Seq<char>) -> Seq<char> {
    "\0__prelude_"@ + col
}

fn param_text(col: &String) -> (r: String)
    ensures
        r@ == param_name(col@),
{
    let mut s: String = "\0__prelude_".to_owned();
    s.append(col.as_str());
    s
}

/// What constants are turned into: names that are replaced, parameters by the
/// column that they hold, and variables that stay bound.
pub struct FoldedV {
    pub names: Map<Seq<char>, ExprV>,
    pub params: Seq<(Seq<char>, int)>,
    pub seeds: Seq<SeedV>,
}

/// Whether an item gives a name to something else than what has it.
pub open spec fn items_renew(items: Seq<ItemV>, x: Seq<char>) -> bool {
    exists|i: int|
        0 <= i < items.len() && query::column_of(#[trigger] items[i]) == x && ast::as_var(
            items[i].expr,
        ) != Some(x)
}

/// Whether a clause gives a name to something else than what has it.
pub open spec fn renews(c: ClauseV, x: Seq<char>) -> bool {
    match c {
        ClauseV::Match { .. } => false,
        ClauseV::With { proj, .. } => items_renew(proj.items, x),
        ClauseV::Return { proj } => items_renew(proj.items, x),
        ClauseV::Unwind { alias, .. } => alias == x,
        ClauseV::Other(_) => true,
    }
}

/// Whether a name stands for one constant throughout, and nothing names it once
/// names are replaced.
pub open spec fn replaceable(cs: Seq<ClauseV>, m: Map<Seq<char>, ExprV>, x: Seq<char>) -> bool {
    forall|i: int|
        0 <= i < cs.len() ==> !renews(#[trigger] cs[i], x) && !clause_names(
            subst_clause(cs[i], m),
            x,
        )
}

/// Whether a clause hands a variable on beside others, and does not read it.
pub open spec fn only_hands_on(c: ClauseV, x: Seq<char>) -> bool {
    match c {
        ClauseV::With { proj, .. } => {
            &&& !proj.star
            &&& exists|i: int| 0 <= i < proj.items.len() && defines(#[trigger] proj.items[i], x)
            &&& exists|i: int| 0 <= i < proj.items.len() && !defines(#[trigger] proj.items[i], x)
            &&& forall|i: int|
                0 <= i < proj.items.len() && defines(#[trigger] proj.items[i], x) ==> ast::as_var(
                    proj.items[i].expr,
                ) == Some(x)
            &&& !clause_names(without_carry(c, x), x)
        },
        _ => !clause_names(c, x),
    }
}

/// Whether a variable is handed on, unread, to the match that starts at it, and
/// that match is not optional.
pub open spec fn handed_to(cs: Seq<ClauseV>, x: Seq<char>, at: int) -> bool {
    &&& cs[at] matches ClauseV::Match { optional: false, .. }
    &&& forall|i: int| 0 <= i < at ==> only_hands_on(#[trigger] cs[i], x)
}

/// What constants are turned into once one more is.
pub open spec fn fold_one(
    st: FoldedV,
    q: Seq<ClauseV>,
    p0: PatternV,
    col: Seq<char>,
    i: int,
    val: BoundV,
) -> Option<FoldedV> {
    let param = param_name(col);
    match val {
        BoundV::Literal(e) => Some(FoldedV { names: st.names.insert(col, e), ..st }),
        BoundV::List => Some(
            FoldedV {
                names: st.names.insert(col, ast::param_v(param)),
                params: st.params.push((param, i)),
                seeds: st.seeds,
            },
        ),
        BoundV::Entity => match first_start(q.skip(2), col) {
            None => Some(
                FoldedV {
                    names: st.names.insert(col, ast::param_v(param)),
                    params: st.params.push((param, i)),
                    seeds: st.seeds,
                },
            ),
            Some(at) => match first_node(p0, col) {
                Some(n) => if n.labels.len() == 0 || !handed_to(q.skip(2), col, at) {
                    None
                } else {
                    Some(
                        FoldedV {
                            names: st.names,
                            params: st.params.push((param, i)),
                            seeds: st.seeds.push(SeedV { var: col, labels: n.labels, param, at }),
                        },
                    )
                },
                None => None,
            },
        },
        BoundV::Other => None,
    }
}

/// What the first `n` constants are turned into.
pub open spec fn fold_all(
    q: Seq<ClauseV>,
    p0: PatternV,
    cols: Seq<Seq<char>>,
    vals: Seq<BoundV>,
    n: nat,
) -> Option<FoldedV>
    decreases n,
{
    if n == 0 {
        Some(FoldedV { names: Map::empty(), params: Seq::empty(), seeds: Seq::empty() })
    } else {
        match fold_all(q, p0, cols, vals, (n - 1) as nat) {
            Some(st) => fold_one(st, q, p0, cols[n - 1], n - 1, vals[n - 1]),
            None => None,
        }
    }
}

/// The rest of a query once constants are known, and the parameters to be
/// handed to it, by the column that each holds. None where a constant's name is
/// given to something else later on, or is named where it cannot be replaced.
pub open spec fn folded_rest(q: Seq<ClauseV>, cols: Seq<Seq<char>>, vals: Seq<BoundV>) -> Option<
    (Seq<ClauseV>, Seq<(Seq<char>, int)>),
> {
    match as_match(q[0]) {
        None => None,
        Some((p0, _)) => match fold_all(q, p0, cols, vals, cols.len()) {
            None => None,
            Some(st) => if !(forall|i: int|
                0 <= i < cols.len() && st.names.contains_key(#[trigger] cols[i]) ==> replaceable(
                    q.skip(2),
                    st.names,
                    cols[i],
                )) {
                None
            } else { Some(
                (
                    all_trimmed(
                        seeds_applied(
                            q.skip(2).map_values(|c: ClauseV| subst_clause(c, st.names)),
                            st.seeds,
                        ),
                    ),
                    st.params,
                ),
            ) },
        },
    }
}

fn do_items_renew(p: &Projection, x: &String) -> (b: bool)
    ensures
        b == items_renew(p.v().items, x@),
{
    let ghost items = p.v().items;
    let mut i: usize = 0;
    while i < p.items.len()
        invariant
            i <= p.items@.len(),
            items == p.v().items,
            forall|j: int|
                0 <= j < i ==> !(query::column_of(#[trigger] items[j]) == x@ && ast::as_var(
                    items[j].expr,
                ) != Some(x@)),
        decreases p.items.len() - i,
    {
        assert(items[i as int] == p.items@[i as int].v());
        let same = match &p.items[i].expr.head {
            Head::Var(y) => *y == *x,
            _ => false,
        };
        if !same && p.items[i].column() == *x {
            return true;
        }
        i = i + 1;
    }
    false
}

fn does_renew(c: &Clause, x: &String) -> (b: bool)
    ensures
        b == renews(c.v(), x@),
{
    match c {
        Clause::Match { .. } => false,
        Clause::With { proj, .. } => do_items_renew(proj, x),
        Clause::Return { proj } => do_items_renew(proj, x),
        Clause::Unwind { alias, .. } => *alias == *x,
        Clause::Other(_) => true,
    }
}

fn is_replaceable(q: &SingleQuery, m: &ExprMap, x: &String) -> (b: bool)
    requires
        q.clauses@.len() >= 2,
    ensures
        b == replaceable(q.v().skip(2), m.v(), x@),
{
    let ghost rest = q.v().skip(2);
    let mut i: usize = 2;
    while i < q.clauses.len()
        invariant
            2 <= i <= q.clauses@.len(),
            rest == q.v().skip(2),
            forall|j: int|
                0 <= j < i - 2 ==> !renews(#[trigger] rest[j], x@) && !clause_names(
                    subst_clause(rest[j], m.v()),
                    x@,
                ),
        decreases q.clauses.len() - i,
    {
        assert(rest[i - 2] == q.clauses@[i as int].v());
        let c = subst_clause_exprs(&q.clauses[i], m);
        if does_renew(&q.clauses[i], x) || clause_mentions_var(&c, x) {
            assert(renews(rest[i - 2], x@) || clause_names(subst_clause(rest[i - 2], m.v()), x@));
            return false;
        }
        i = i + 1;
    }
    true
}

fn all_replaceable(q: &SingleQuery, m: &ExprMap, cols: &Vec<String>) -> (b: bool)
    requires
        q.clauses@.len() >= 2,
    ensures
        b == forall|i: int|
            0 <= i < names::of(cols@).len() && m.v().contains_key(#[trigger] names::of(cols@)[i])
                ==> replaceable(q.v().skip(2), m.v(), names::of(cols@)[i]),
{
    let ghost cv = names::of(cols@);
    let mut i: usize = 0;
    while i < cols.len()
        invariant
            i <= cols@.len(),
            cv == names::of(cols@),
            q.clauses@.len() >= 2,
            forall|j: int|
                0 <= j < i && m.v().contains_key(#[trigger] cv[j]) ==> replaceable(
                    q.v().skip(2),
                    m.v(),
                    cv[j],
                ),
        decreases cols.len() - i,
    {
        assert(cv[i as int] == cols@[i as int]@);
        if m.get(&cols[i]).is_some() && !is_replaceable(q, m, &cols[i]) {
            assert(m.v().contains_key(cv[i as int]));
            return false;
        }
        i = i + 1;
    }
    true
}

fn just_hands_on(c: &Clause, x: &String) -> (b: bool)
    ensures
        b == only_hands_on(c.v(), x@),
{
    match c {
        Clause::With { proj, where_ } => {
            let ghost items = proj.v().items;
            if proj.star {
                return false;
            }
            let mut some = false;
            let mut other = false;
            let mut i: usize = 0;
            while i < proj.items.len()
                invariant
                    i <= proj.items@.len(),
                    items == proj.v().items,
                    c.v() matches ClauseV::With { proj: p, .. } && p.items == items,
                    some == exists|j: int| 0 <= j < i && defines(#[trigger] items[j], x@),
                    other == exists|j: int| 0 <= j < i && !defines(#[trigger] items[j], x@),
                    forall|j: int|
                        0 <= j < i && defines(#[trigger] items[j], x@) ==> ast::as_var(items[j].expr)
                            == Some(x@),
                decreases proj.items.len() - i,
            {
                assert(items[i as int] == proj.items@[i as int].v());
                if gives_name(&proj.items[i], x) {
                    let same = match &proj.items[i].expr.head {
                        Head::Var(y) => *y == *x,
                        _ => false,
                    };
                    if !same {
                        assert(defines(items[i as int], x@));
                        return false;
                    }
                    assert(defines(items[i as int], x@));
                    some = true;
                } else {
                    assert(!defines(items[i as int], x@));
                    other = true;
                }
                i = i + 1;
            }
            let rest = drop_carry(c, x);
            some && other && !clause_mentions_var(&rest, x)
        },
        _ => !clause_mentions_var(c, x),
    }
}

fn is_handed_to(q: &SingleQuery, x: &String, at: usize) -> (b: bool)
    requires
        q.clauses@.len() >= 2,
        at < q.clauses@.len() - 2,
    ensures
        b == handed_to(q.v().skip(2), x@, at as int),
{
    let ghost rest = q.v().skip(2);
    assert(q.clauses.len() == q.clauses@.len());
    assert(rest[at as int] == q.clauses@[at + 2].v());
    let plain = match &q.clauses[at + 2] {
        Clause::Match { optional, .. } => !*optional,
        _ => false,
    };
    if !plain {
        return false;
    }
    let mut i: usize = 0;
    while i < at
        invariant
            i <= at < q.clauses@.len() - 2,
            q.clauses@.len() == q.clauses.len(),
            rest == q.v().skip(2),
            forall|j: int| 0 <= j < i ==> only_hands_on(#[trigger] rest[j], x@),
        decreases at - i,
    {
        assert(rest[i as int] == q.clauses@[i + 2].v());
        if !just_hands_on(&q.clauses[i + 2], x) {
            assert(!only_hands_on(rest[i as int], x@));
            return false;
        }
        i = i + 1;
    }
    true
}

struct Folded {
    names: ExprMap,
    params: Vec<(String, usize)>,
    seeds: Vec<Seed>,
}

/// Parameters, by the column that each holds.
pub open spec fn params_v(s: Seq<(String, usize)>) -> Seq<(Seq<char>, int)> {
    s.map_values(|p: (String, usize)| (p.0@, p.1 as int))
}

impl Folded {
    spec fn v(self) -> FoldedV {
        FoldedV {
            names: self.names.v(),
            params: params_v(self.params@),
            seeds: seeds_v(self.seeds@),
        }
    }
}

fn push_param(ps: &mut Vec<(String, usize)>, name: &String, i: usize)
    ensures
        params_v(final(ps)@) == params_v(old(ps)@).push((name@, i as int)),
{
    let ghost p0 = ps@;
    ps.push((name.clone(), i));
    assert(params_v(ps@) =~= params_v(p0).push((name@, i as int)));
}

fn fold_constant(st: &mut Folded, q: &SingleQuery, p0: &Pattern, col: &String, i: usize, val: &Bound) -> (ok:
    bool)
    requires
        q.clauses@.len() >= 2,
    ensures
        match fold_one(old(st).v(), q.v(), p0.v(), col@, i as int, val.v()) {
            Some(s) => ok && final(st).v() == s,
            None => !ok,
        },
{
    let param = param_text(col);
    match val {
        Bound::Literal(e) => {
            st.names.learn(col.clone(), e.copy());
            true
        },
        Bound::List => {
            st.names.learn(col.clone(), Expr::param(&param));
            push_param(&mut st.params, &param, i);
            true
        },
        Bound::Entity => match var_first_pattern_start(&q.clauses, col) {
            None => {
                st.names.learn(col.clone(), Expr::param(&param));
                push_param(&mut st.params, &param, i);
                true
            },
            Some(at) => match prelude_node_pattern(p0, col) {
                None => false,
                Some(n) => {
                    if n.labels.len() == 0 || !is_handed_to(q, col, at) {
                        return false;
                    }
                    push_param(&mut st.params, &param, i);
                    let ghost s0 = st.seeds@;
                    let s = Seed { var: col.clone(), labels: n.labels, param, at };
                    st.seeds.push(s);
                    assert(seeds_v(st.seeds@) =~= seeds_v(s0).push(s.v()));
                    true
                },
            },
        },
        Bound::Other => false,
    }
}

proof fn lemma_fold_none(
    q: Seq<ClauseV>,
    p0: PatternV,
    cols: Seq<Seq<char>>,
    vals: Seq<BoundV>,
    n: nat,
    m: nat,
)
    requires
        n <= m,
        fold_all(q, p0, cols, vals, n) is None,
    ensures
        fold_all(q, p0, cols, vals, m) is None,
    decreases m - n,
{
    if n < m {
        lemma_fold_none(q, p0, cols, vals, n, (m - 1) as nat);
    }
}

/// Values of constants.
pub open spec fn bounds_v(s: Seq<Bound>) -> Seq<BoundV> {
    s.map_values(|b: Bound| b.v())
}

fn subst_rest(q: &SingleQuery, m: &ExprMap) -> (r: Vec<Clause>)
    requires
        q.clauses@.len() >= 2,
    ensures
        query::clauses_v(r@) == q.v().skip(2).map_values(|c: ClauseV| subst_clause(c, m.v())),
{
    let ghost rest = q.v().skip(2);
    let mut r: Vec<Clause> = Vec::new();
    let mut i: usize = 2;
    while i < q.clauses.len()
        invariant
            2 <= i <= q.clauses@.len(),
            rest == q.v().skip(2),
            r@.len() == i - 2,
            forall|j: int|
                0 <= j < i - 2 ==> (#[trigger] r@[j]).v() == subst_clause(rest[j], m.v()),
        decreases q.clauses.len() - i,
    {
        assert(rest[i - 2] == q.clauses@[i as int].v());
        let c = subst_clause_exprs(&q.clauses[i], m);
        r.push(c);
        i = i + 1;
    }
    assert(query::clauses_v(r@) =~= rest.map_values(|c: ClauseV| subst_clause(c, m.v())));
    r
}

fn fold_constants(q: &SingleQuery, cols: &Vec<String>, vals: &Vec<Bound>) -> (r: Option<
    (SingleQuery, Vec<(String, usize)>),
>)
    requires
        q.clauses@.len() >= 2,
        vals@.len() == cols@.len(),
    ensures
        match r {
            Some((out, params)) => folded_rest(q.v(), names::of(cols@), bounds_v(vals@)) == Some(
                (out.v(), params_v(params@)),
            ),
            None => folded_rest(q.v(), names::of(cols@), bounds_v(vals@)) is None,
        },
{
    assert(q.v()[0] == q.clauses@[0].v());
    let p0 = match get_match(&q.clauses[0]) {
        Some((p, _)) => p,
        None => {
            return None;
        },
    };
    let ghost cv = names::of(cols@);
    let ghost bv = bounds_v(vals@);
    let mut st = Folded { names: ExprMap::new(), params: Vec::new(), seeds: Vec::new() };
    let mut i: usize = 0;
    proof {
        assert(params_v(st.params@) =~= Seq::empty());
        assert(seeds_v(st.seeds@) =~= Seq::empty());
    }
    while i < cols.len()
        invariant
            i <= cols@.len(),
            q.clauses@.len() >= 2,
            vals@.len() == cols@.len(),
            cv == names::of(cols@),
            bv == bounds_v(vals@),
            fold_all(q.v(), p0.v(), cv, bv, i as nat) == Some(st.v()),
            as_match(q.v()[0]) matches Some((p, _)) && p == p0.v(),
        decreases cols.len() - i,
    {
        assert(cv[i as int] == cols@[i as int]@);
        assert(bv[i as int] == vals@[i as int].v());
        if !fold_constant(&mut st, q, p0, &cols[i], i, &vals[i]) {
            proof {
                lemma_fold_none(q.v(), p0.v(), cv, bv, (i + 1) as nat, cv.len());
            }
            return None;
        }
        i = i + 1;
    }
    if !all_replaceable(q, &st.names, cols) {
        return None;
    }
    let mut rest = subst_rest(q, &st.names);
    let ghost base = query::clauses_v(rest@);
    let ghost ss = seeds_v(st.seeds@);
    let mut k: usize = 0;
    assert(ss.take(0) =~= Seq::empty());
    while k < st.seeds.len()
        invariant
            k <= st.seeds@.len(),
            ss == seeds_v(st.seeds@),
            query::clauses_v(rest@) == seeds_applied(base, ss.take(k as int)),
        decreases st.seeds.len() - k,
    {
        proof {
            seqs::lemma_take_last(ss, k as int);
            assert(ss[k as int] == st.seeds@[k as int].v());
        }
        rest = apply_seed_filter(&rest, &st.seeds[k]);
        k = k + 1;
    }
    assert(ss.take(k as int) =~= ss);
    let clauses = drop_dead_const_with_items(&rest);
    Some((SingleQuery { clauses }, st.params))
}

/// The rest of a query once the constants of its leading match are known, and
/// the parameters to be handed to it, by the column that each holds. A leading
/// match of no row or of several binds no constants.
pub fn scalar_prelude_rewrite(q: &SingleQuery, cols: &Vec<String>, rows: &Vec<Vec<Bound>>) -> (r:
    Option<(SingleQuery, Vec<(String, usize)>)>)
    requires
        q.clauses@.len() >= 2,
        forall|i: int| 0 <= i < rows@.len() ==> (#[trigger] rows@[i])@.len() == cols@.len(),
    ensures
        rows@.len() != 1 ==> r is None,
        rows@.len() == 1 ==> match r {
            Some((out, params)) => folded_rest(q.v(), names::of(cols@), bounds_v(rows@[0]@))
                == Some((out.v(), params_v(params@))),
            None => folded_rest(q.v(), names::of(cols@), bounds_v(rows@[0]@)) is None,
        },
{
    if rows.len() != 1 {
        return None;
    }
    fold_constants(q, cols, &rows[0])
}

} // verus!
