//! Renaming a variable in a query.

use vstd::prelude::*;

use crate::ast;
use crate::ast::{reads_var, Expr, ExprV, Head, HeadV};
use crate::fuse::{subst, substitute_aliases, ExprMap};
use crate::names;
use crate::query;
use crate::query::{copy_clauses, Clause, ClauseV, ItemV, NodePattern, NodeV, OrderItem, OrderV, PathPattern, PathV, Pattern, PatternV, ProjItem, ProjV, Projection, RelPattern, RelV, SingleQuery};
use crate::reroot::query_opt;

verus! {

/// Whether an optional expression reads a variable.
pub open spec fn opt_reads(e: Option<ExprV>, x: Seq<char>) -> bool {
    match e {
        Some(e) => ast::reads(e, x),
        None => false,
    }
}

/// Whether a node names a variable.
pub open spec fn node_names(n: NodeV, x: Seq<char>) -> bool {
    n.var == Some(x) || opt_reads(n.props, x)
}

/// Whether a relationship names a variable.
pub open spec fn rel_names(r: RelV, x: Seq<char>) -> bool {
    r.var == Some(x) || opt_reads(r.props, x)
}

/// Whether a path names a variable.
pub open spec fn path_names(p: PathV, x: Seq<char>) -> bool {
    p.var == Some(x) || node_names(p.start, x) || exists|i: int|
        0 <= i < p.hops.len() && (rel_names((#[trigger] p.hops[i]).0, x) || node_names(
            p.hops[i].1,
            x,
        ))
}

/// Whether a pattern names a variable.
pub open spec fn pattern_names(p: PatternV, x: Seq<char>) -> bool {
    exists|i: int| 0 <= i < p.paths.len() && path_names(#[trigger] p.paths[i], x)
}

/// Whether a projection reads a variable.
pub open spec fn proj_reads(p: ProjV, x: Seq<char>) -> bool {
    ||| exists|i: int| 0 <= i < p.items.len() && ast::reads((#[trigger] p.items[i]).expr, x)
    ||| exists|i: int| 0 <= i < p.order.len() && ast::reads((#[trigger] p.order[i]).expr, x)
    ||| opt_reads(p.skip, x)
    ||| opt_reads(p.limit, x)
}

/// Whether a clause names a variable. A clause that is not read might.
pub open spec fn clause_names(c: ClauseV, x: Seq<char>) -> bool {
    match c {
        ClauseV::Match { pattern, where_, .. } => pattern_names(pattern, x) || opt_reads(where_, x),
        ClauseV::With { proj, where_ } => proj_reads(proj, x) || opt_reads(where_, x),
        ClauseV::Return { proj } => proj_reads(proj, x),
        ClauseV::Unwind { expr, alias } => alias == x || ast::reads(expr, x),
        ClauseV::Other(_) => true,
    }
}

/// Whether any clause names a variable.
pub open spec fn clauses_name(cs: Seq<ClauseV>, x: Seq<char>) -> bool {
    exists|i: int| 0 <= i < cs.len() && clause_names(#[trigger] cs[i], x)
}

/// Whether an optional expression reads a variable.
pub fn opt_mentions(e: &Option<Expr>, x: &String) -> (b: bool)
    ensures
        b == opt_reads(ast::opt_v(*e), x@),
{
    match e {
        Some(e) => reads_var(e, x),
        None => false,
    }
}

fn named(v: &Option<String>, x: &String) -> (b: bool)
    ensures
        b == (ast::opt_str(*v) == Some(x@)),
{
    match v {
        Some(y) => *y == *x,
        None => false,
    }
}

fn path_mentions(p: &PathPattern, x: &String) -> (b: bool)
    ensures
        b == path_names(p.v(), x@),
{
    if named(&p.var, x) || named(&p.start.var, x) || opt_mentions(&p.start.props, x) {
        return true;
    }
    let mut i: usize = 0;
    while i < p.hops.len()
        invariant
            i <= p.hops@.len(),
            p.v().var != Some(x@),
            !node_names(p.v().start, x@),
            forall|j: int|
                0 <= j < i ==> !(rel_names((#[trigger] p.v().hops[j]).0, x@) || node_names(
                    p.v().hops[j].1,
                    x@,
                )),
        decreases p.hops.len() - i,
    {
        assert(p.v().hops[i as int] == (p.hops@[i as int].0.v(), p.hops@[i as int].1.v()));
        let r = &p.hops[i].0;
        let n = &p.hops[i].1;
        if named(&r.var, x) || opt_mentions(&r.props, x) || named(&n.var, x) || opt_mentions(
            &n.props,
            x,
        ) {
            return true;
        }
        i = i + 1;
    }
    false
}

fn pattern_mentions_var(p: &Pattern, x: &String) -> (b: bool)
    ensures
        b == pattern_names(p.v(), x@),
{
    let mut i: usize = 0;
    while i < p.paths.len()
        invariant
            i <= p.paths@.len(),
            forall|j: int| 0 <= j < i ==> !path_names(#[trigger] p.v().paths[j], x@),
        decreases p.paths.len() - i,
    {
        assert(p.v().paths[i as int] == p.paths@[i as int].v());
        if path_mentions(&p.paths[i], x) {
            return true;
        }
        i = i + 1;
    }
    false
}

fn proj_mentions_var(p: &Projection, x: &String) -> (b: bool)
    ensures
        b == proj_reads(p.v(), x@),
{
    let mut i: usize = 0;
    while i < p.items.len()
        invariant
            i <= p.items@.len(),
            forall|j: int| 0 <= j < i ==> !ast::reads((#[trigger] p.v().items[j]).expr, x@),
        decreases p.items.len() - i,
    {
        assert(p.v().items[i as int] == p.items@[i as int].v());
        if reads_var(&p.items[i].expr, x) {
            return true;
        }
        i = i + 1;
    }
    let mut k: usize = 0;
    while k < p.order.len()
        invariant
            k <= p.order@.len(),
            forall|j: int| 0 <= j < k ==> !ast::reads((#[trigger] p.v().order[j]).expr, x@),
        decreases p.order.len() - k,
    {
        assert(p.v().order[k as int] == p.order@[k as int].v());
        if reads_var(&p.order[k].expr, x) {
            return true;
        }
        k = k + 1;
    }
    opt_mentions(&p.skip, x) || opt_mentions(&p.limit, x)
}

/// Whether a clause names a variable.
pub fn clause_mentions_var(c: &Clause, x: &String) -> (b: bool)
    ensures
        b == clause_names(c.v(), x@),
{
    match c {
        Clause::Match { optional, pattern, where_ } => pattern_mentions_var(pattern, x)
            || opt_mentions(where_, x),
        Clause::With { proj, where_ } => proj_mentions_var(proj, x) || opt_mentions(where_, x),
        Clause::Return { proj } => proj_mentions_var(proj, x),
        Clause::Unwind { expr, alias } => *alias == *x || reads_var(expr, x),
        Clause::Other(_) => true,
    }
}

/// Whether any clause from `from` on names a variable.
pub fn clauses_mention_var(cs: &Vec<Clause>, from: usize, x: &String) -> (b: bool)
    requires
        from <= cs@.len(),
    ensures
        b == clauses_name(query::clauses_v(cs@).skip(from as int), x@),
{
    let ghost rest = query::clauses_v(cs@).skip(from as int);
    let mut i: usize = from;
    while i < cs.len()
        invariant
            from <= i <= cs@.len(),
            rest == query::clauses_v(cs@).skip(from as int),
            forall|j: int| 0 <= j < i - from ==> !clause_names(#[trigger] rest[j], x@),
        decreases cs.len() - i,
    {
        assert(rest[i - from] == cs@[i as int].v());
        if clause_mentions_var(&cs[i], x) {
            return true;
        }
        i = i + 1;
    }
    false
}

/// A name with one renamed to another.
pub open spec fn renamed(s: Seq<char>, from: Seq<char>, to: Seq<char>) -> Seq<char> {
    if s == from {
        to
    } else {
        s
    }
}

/// A name with one renamed to another.
pub fn rename_ident(s: &String, from: &String, to: &String) -> (r: String)
    ensures
        r@ == renamed(s@, from@, to@),
{
    if *s == *from {
        to.clone()
    } else {
        s.clone()
    }
}

/// An optional name with one renamed to another.
pub open spec fn opt_renamed(s: Option<Seq<char>>, from: Seq<char>, to: Seq<char>) -> Option<
    Seq<char>,
> {
    match s {
        Some(s) => Some(renamed(s, from, to)),
        None => None,
    }
}

/// What the renamed variable stands for.
pub open spec fn rename_map(from: Seq<char>, to: Seq<char>) -> Map<Seq<char>, ExprV> {
    Map::<Seq<char>, ExprV>::empty().insert(from, ast::var_v(to))
}

/// An optional expression with names replaced.
pub open spec fn opt_subst(e: Option<ExprV>, m: Map<Seq<char>, ExprV>) -> Option<ExprV> {
    match e {
        Some(e) => Some(subst(e, m)),
        None => None,
    }
}

/// A node with a variable renamed.
pub open spec fn rename_node(n: NodeV, from: Seq<char>, to: Seq<char>) -> NodeV {
    NodeV {
        var: opt_renamed(n.var, from, to),
        labels: n.labels,
        props: opt_subst(n.props, rename_map(from, to)),
    }
}

/// A relationship with a variable renamed.
pub open spec fn rename_rel(r: RelV, from: Seq<char>, to: Seq<char>) -> RelV {
    RelV {
        var: opt_renamed(r.var, from, to),
        props: opt_subst(r.props, rename_map(from, to)),
        ..r
    }
}

/// A path with a variable renamed.
pub open spec fn rename_path(p: PathV, from: Seq<char>, to: Seq<char>) -> PathV {
    PathV {
        var: opt_renamed(p.var, from, to),
        shortest: p.shortest,
        start: rename_node(p.start, from, to),
        hops: p.hops.map_values(
            |h: (RelV, NodeV)| (rename_rel(h.0, from, to), rename_node(h.1, from, to)),
        ),
    }
}

/// A pattern with a variable renamed.
pub open spec fn rename_pattern(p: PatternV, from: Seq<char>, to: Seq<char>) -> PatternV {
    PatternV { paths: p.paths.map_values(|x: PathV| rename_path(x, from, to)) }
}

/// A projection with a variable renamed.
pub open spec fn rename_proj(p: ProjV, from: Seq<char>, to: Seq<char>) -> ProjV {
    let m = rename_map(from, to);
    ProjV {
        distinct: p.distinct,
        star: p.star,
        items: p.items.map_values(
            |it: ItemV|
                ItemV {
                    expr: subst(it.expr, m),
                    alias: opt_renamed(it.alias, from, to),
                    text: it.text,
                    default_name: renamed(it.default_name, from, to),
                },
        ),
        order: p.order.map_values(|o: OrderV| OrderV { expr: subst(o.expr, m), ..o }),
        skip: opt_subst(p.skip, m),
        limit: opt_subst(p.limit, m),
        distinct_vars: p.distinct_vars.map_values(|x: Seq<char>| renamed(x, from, to)),
    }
}

/// A clause with a variable renamed.
pub open spec fn rename_clause(c: ClauseV, from: Seq<char>, to: Seq<char>) -> ClauseV {
    let m = rename_map(from, to);
    match c {
        ClauseV::Match { optional, pattern, where_ } => ClauseV::Match {
            optional,
            pattern: rename_pattern(pattern, from, to),
            where_: opt_subst(where_, m),
        },
        ClauseV::With { proj, where_ } => ClauseV::With {
            proj: rename_proj(proj, from, to),
            where_: opt_subst(where_, m),
        },
        ClauseV::Return { proj } => ClauseV::Return { proj: rename_proj(proj, from, to) },
        ClauseV::Unwind { expr, alias } => ClauseV::Unwind {
            expr: subst(expr, m),
            alias: renamed(alias, from, to),
        },
        ClauseV::Other(i) => ClauseV::Other(i),
    }
}

/// Clauses with a variable renamed, if every one can be read.
pub open spec fn rename_clauses(cs: Seq<ClauseV>, from: Seq<char>, to: Seq<char>) -> Option<
    Seq<ClauseV>,
> {
    if exists|i: int| 0 <= i < cs.len() && (#[trigger] cs[i]) is Other {
        None
    } else {
        Some(cs.map_values(|c: ClauseV| rename_clause(c, from, to)))
    }
}

/// An optional expression with names replaced.
pub fn opt_substitute(e: &Option<Expr>, m: &ExprMap) -> (r: Option<Expr>)
    ensures
        ast::opt_v(r) == opt_subst(ast::opt_v(*e), m.v()),
{
    match e {
        Some(e) => Some(substitute_aliases(e, m)),
        None => None,
    }
}

fn opt_rename(s: &Option<String>, from: &String, to: &String) -> (r: Option<String>)
    ensures
        ast::opt_str(r) == opt_renamed(ast::opt_str(*s), from@, to@),
{
    match s {
        Some(s) => Some(rename_ident(s, from, to)),
        None => None,
    }
}

fn rename_var_node(n: &NodePattern, from: &String, to: &String, m: &ExprMap) -> (r: NodePattern)
    requires
        m.v() == rename_map(from@, to@),
    ensures
        r.v() == rename_node(n.v(), from@, to@),
{
    NodePattern {
        var: opt_rename(&n.var, from, to),
        labels: names::copy_names(&n.labels),
        props: opt_substitute(&n.props, m),
    }
}

fn rename_var_rel(x: &RelPattern, from: &String, to: &String, m: &ExprMap) -> (r: RelPattern)
    requires
        m.v() == rename_map(from@, to@),
    ensures
        r.v() == rename_rel(x.v(), from@, to@),
{
    RelPattern {
        var: opt_rename(&x.var, from, to),
        types: names::copy_names(&x.types),
        dir: x.dir,
        props: opt_substitute(&x.props, m),
        length: x.length,
    }
}

fn rename_var_path(p: &PathPattern, from: &String, to: &String, m: &ExprMap) -> (r: PathPattern)
    requires
        m.v() == rename_map(from@, to@),
    ensures
        r.v() == rename_path(p.v(), from@, to@),
{
    let mut hops: Vec<(RelPattern, NodePattern)> = Vec::new();
    let mut i: usize = 0;
    while i < p.hops.len()
        invariant
            i <= p.hops@.len(),
            m.v() == rename_map(from@, to@),
            hops@.len() == i,
            forall|j: int|
                0 <= j < i ==> (#[trigger] hops@[j]).0.v() == rename_rel(
                    p.hops@[j].0.v(),
                    from@,
                    to@,
                ) && hops@[j].1.v() == rename_node(p.hops@[j].1.v(), from@, to@),
        decreases p.hops.len() - i,
    {
        let h = (
            rename_var_rel(&p.hops[i].0, from, to, m),
            rename_var_node(&p.hops[i].1, from, to, m),
        );
        hops.push(h);
        i = i + 1;
    }
    let r = PathPattern {
        var: opt_rename(&p.var, from, to),
        shortest: p.shortest,
        start: rename_var_node(&p.start, from, to, m),
        hops,
    };
    assert(r.v().hops =~= rename_path(p.v(), from@, to@).hops);
    r
}

fn rename_var_pattern(p: &Pattern, from: &String, to: &String, m: &ExprMap) -> (r: Pattern)
    requires
        m.v() == rename_map(from@, to@),
    ensures
        r.v() == rename_pattern(p.v(), from@, to@),
{
    let mut paths: Vec<PathPattern> = Vec::new();
    let mut i: usize = 0;
    while i < p.paths.len()
        invariant
            i <= p.paths@.len(),
            m.v() == rename_map(from@, to@),
            paths@.len() == i,
            forall|j: int|
                0 <= j < i ==> (#[trigger] paths@[j]).v() == rename_path(
                    p.paths@[j].v(),
                    from@,
                    to@,
                ),
        decreases p.paths.len() - i,
    {
        let x = rename_var_path(&p.paths[i], from, to, m);
        paths.push(x);
        i = i + 1;
    }
    let r = Pattern { paths };
    assert(r.v().paths =~= rename_pattern(p.v(), from@, to@).paths);
    r
}

/// Sort keys with names replaced.
pub fn subst_order(order: &Vec<OrderItem>, m: &ExprMap) -> (r: Vec<OrderItem>)
    ensures
        query::order_v(r@) == query::order_v(order@).map_values(
            |o: OrderV| OrderV { expr: subst(o.expr, m.v()), ..o },
        ),
{
    let mut r: Vec<OrderItem> = Vec::new();
    let mut i: usize = 0;
    while i < order.len()
        invariant
            i <= order@.len(),
            r@.len() == i,
            forall|j: int|
                0 <= j < i ==> (#[trigger] r@[j]).v() == (OrderV {
                    expr: subst(order@[j].v().expr, m.v()),
                    ..order@[j].v()
                }),
        decreases order.len() - i,
    {
        let o = OrderItem {
            expr: substitute_aliases(&order[i].expr, m),
            descending: order[i].descending,
        };
        r.push(o);
        i = i + 1;
    }
    assert(query::order_v(r@) =~= query::order_v(order@).map_values(
        |o: OrderV| OrderV { expr: subst(o.expr, m.v()), ..o },
    ));
    r
}

fn rename_list(xs: &Vec<String>, from: &String, to: &String) -> (r: Vec<String>)
    ensures
        names::of(r@) == names::of(xs@).map_values(|x: Seq<char>| renamed(x, from@, to@)),
{
    let mut r: Vec<String> = Vec::new();
    let mut i: usize = 0;
    while i < xs.len()
        invariant
            i <= xs@.len(),
            r@.len() == i,
            forall|j: int| 0 <= j < i ==> (#[trigger] r@[j])@ == renamed(xs@[j]@, from@, to@),
        decreases xs.len() - i,
    {
        r.push(rename_ident(&xs[i], from, to));
        i = i + 1;
    }
    assert(names::of(r@) =~= names::of(xs@).map_values(|x: Seq<char>| renamed(x, from@, to@)));
    r
}

fn rename_var_proj(p: &Projection, from: &String, to: &String, m: &ExprMap) -> (r: Projection)
    requires
        m.v() == rename_map(from@, to@),
    ensures
        r.v() == rename_proj(p.v(), from@, to@),
{
    let mut items: Vec<ProjItem> = Vec::new();
    let mut i: usize = 0;
    while i < p.items.len()
        invariant
            i <= p.items@.len(),
            m.v() == rename_map(from@, to@),
            items@.len() == i,
            forall|j: int|
                0 <= j < i ==> (#[trigger] items@[j]).v() == (ItemV {
                    expr: subst(p.items@[j].v().expr, m.v()),
                    alias: opt_renamed(p.items@[j].v().alias, from@, to@),
                    text: p.items@[j].v().text,
                    default_name: renamed(p.items@[j].v().default_name, from@, to@),
                }),
        decreases p.items.len() - i,
    {
        let it = &p.items[i];
        let x = ProjItem {
            expr: substitute_aliases(&it.expr, m),
            alias: opt_rename(&it.alias, from, to),
            text: ast::copy_opt_name(&it.text),
            default_name: rename_ident(&it.default_name, from, to),
        };
        items.push(x);
        i = i + 1;
    }
    let r = Projection {
        distinct: p.distinct,
        star: p.star,
        items,
        order: subst_order(&p.order, m),
        skip: opt_substitute(&p.skip, m),
        limit: opt_substitute(&p.limit, m),
        distinct_vars: rename_list(&p.distinct_vars, from, to),
    };
    assert(r.v().items =~= rename_proj(p.v(), from@, to@).items);
    r
}

fn rename_var_clause(c: &Clause, from: &String, to: &String, m: &ExprMap) -> (r: Option<Clause>)
    requires
        m.v() == rename_map(from@, to@),
    ensures
        match r {
            Some(x) => !(c.v() is Other) && x.v() == rename_clause(c.v(), from@, to@),
            None => c.v() is Other,
        },
{
    match c {
        Clause::Match { optional, pattern, where_ } => Some(
            Clause::Match {
                optional: *optional,
                pattern: rename_var_pattern(pattern, from, to, m),
                where_: opt_substitute(where_, m),
            },
        ),
        Clause::With { proj, where_ } => Some(
            Clause::With {
                proj: rename_var_proj(proj, from, to, m),
                where_: opt_substitute(where_, m),
            },
        ),
        Clause::Return { proj } => Some(
            Clause::Return { proj: rename_var_proj(proj, from, to, m) },
        ),
        Clause::Unwind { expr, alias } => Some(
            Clause::Unwind {
                expr: substitute_aliases(expr, m),
                alias: rename_ident(alias, from, to),
            },
        ),
        Clause::Other(_) => None,
    }
}

/// Renames a variable in the clauses from `start` on.
pub fn rename_var_clauses(cs: &Vec<Clause>, start: usize, from: &String, to: &String) -> (r: Option<
    Vec<Clause>,
>)
    requires
        start <= cs@.len(),
    ensures
        match r {
            Some(x) => rename_clauses(query::clauses_v(cs@).skip(start as int), from@, to@) == Some(
                query::clauses_v(x@),
            ),
            None => rename_clauses(query::clauses_v(cs@).skip(start as int), from@, to@) is None,
        },
{
    let ghost rest = query::clauses_v(cs@).skip(start as int);
    let mut m = ExprMap::new();
    m.learn(from.clone(), Expr::var(to));
    let mut r: Vec<Clause> = Vec::new();
    let mut i: usize = start;
    while i < cs.len()
        invariant
            start <= i <= cs@.len(),
            rest == query::clauses_v(cs@).skip(start as int),
            m.v() == rename_map(from@, to@),
            r@.len() == i - start,
            forall|j: int| 0 <= j < i - start ==> !((#[trigger] rest[j]) is Other),
            forall|j: int|
                0 <= j < i - start ==> (#[trigger] r@[j]).v() == rename_clause(rest[j], from@, to@),
        decreases cs.len() - i,
    {
        assert(rest[i - start] == cs@[i as int].v());
        match rename_var_clause(&cs[i], from, to, &m) {
            Some(c) => {
                r.push(c);
            },
            None => {
                return None;
            },
        }
        i = i + 1;
    }
    assert(query::clauses_v(r@) =~= rest.map_values(
        |c: ClauseV| rename_clause(c, from@, to@),
    ));
    Some(r)
}

/// Renaming a variable that nothing names changes nothing.
pub proof fn law_rename_unnamed(c: ClauseV, from: Seq<char>, to: Seq<char>)
    requires
        !clause_names(c, from),
        c matches ClauseV::With { proj, .. } ==> !mentions_output(proj, from),
        c matches ClauseV::Return { proj } ==> !mentions_output(proj, from),
    ensures
        rename_clause(c, from, to) == c,
{
    let m = rename_map(from, to);
    match c {
        ClauseV::Match { optional, pattern, where_ } => {
            lemma_opt_unread(where_, from, to);
            assert forall|i: int| 0 <= i < pattern.paths.len() implies rename_path(
                #[trigger] pattern.paths[i],
                from,
                to,
            ) == pattern.paths[i] by {
                lemma_path_unnamed(pattern.paths[i], from, to);
            }
            assert(rename_pattern(pattern, from, to).paths =~= pattern.paths);
        },
        ClauseV::With { proj, where_ } => {
            lemma_opt_unread(where_, from, to);
            lemma_proj_unread(proj, from, to);
        },
        ClauseV::Return { proj } => {
            lemma_proj_unread(proj, from, to);
        },
        ClauseV::Unwind { expr, alias } => {
            lemma_unread(expr, from, to);
        },
        ClauseV::Other(_) => {},
    }
}

/// Whether a projection gives a column or a list of variables a name.
pub open spec fn mentions_output(p: ProjV, x: Seq<char>) -> bool {
    ||| exists|i: int|
        0 <= i < p.items.len() && ((#[trigger] p.items[i]).alias == Some(x)
            || p.items[i].default_name == x)
    ||| p.distinct_vars.contains(x)
}

proof fn lemma_unread(e: ExprV, from: Seq<char>, to: Seq<char>)
    requires
        !ast::reads(e, from),
    ensures
        subst(e, rename_map(from, to)) == e,
{
    crate::fuse::law_subst_unread(e, rename_map(from, to));
}

proof fn lemma_opt_unread(e: Option<ExprV>, from: Seq<char>, to: Seq<char>)
    requires
        !opt_reads(e, from),
    ensures
        opt_subst(e, rename_map(from, to)) == e,
{
    match e {
        Some(e) => {
            lemma_unread(e, from, to);
        },
        None => {},
    }
}

proof fn lemma_path_unnamed(p: PathV, from: Seq<char>, to: Seq<char>)
    requires
        !path_names(p, from),
    ensures
        rename_path(p, from, to) == p,
{
    lemma_opt_unread(p.start.props, from, to);
    assert forall|i: int| 0 <= i < p.hops.len() implies rename_rel(
        (#[trigger] p.hops[i]).0,
        from,
        to,
    ) == p.hops[i].0 && rename_node(p.hops[i].1, from, to) == p.hops[i].1 by {
        lemma_opt_unread(p.hops[i].0.props, from, to);
        lemma_opt_unread(p.hops[i].1.props, from, to);
    }
    assert(rename_path(p, from, to).hops =~= p.hops);
}

proof fn lemma_proj_unread(p: ProjV, from: Seq<char>, to: Seq<char>)
    requires
        !proj_reads(p, from),
        !mentions_output(p, from),
    ensures
        rename_proj(p, from, to) == p,
{
    let r = rename_proj(p, from, to);
    lemma_opt_unread(p.skip, from, to);
    lemma_opt_unread(p.limit, from, to);
    assert forall|i: int| 0 <= i < p.items.len() implies r.items[i] == #[trigger] p.items[i] by {
        lemma_unread(p.items[i].expr, from, to);
    }
    assert(r.items =~= p.items);
    assert forall|i: int| 0 <= i < p.order.len() implies r.order[i] == #[trigger] p.order[i] by {
        lemma_unread(p.order[i].expr, from, to);
    }
    assert(r.order =~= p.order);
    assert forall|i: int| 0 <= i < p.distinct_vars.len() implies r.distinct_vars[i]
        == p.distinct_vars[i] by {
        assert(p.distinct_vars.contains(p.distinct_vars[i]));
    }
    assert(r.distinct_vars =~= p.distinct_vars);
}

/// The variable whose distinct values a projection collects into a list that
/// is unwound into a variable of another name, and that name.
pub open spec fn renamed_pair(a: ClauseV, b: ClauseV) -> Option<(Seq<char>, Seq<char>)> {
    match (a, b) {
        (
            ClauseV::With { proj, where_: None },
            ClauseV::Unwind { expr, alias },
        ) => if proj.items.len() != 1 || proj.distinct || proj.star {
            None
        } else {
            let it = proj.items[0];
            match (it.alias, it.expr.head) {
                (
                    Some(list),
                    HeadV::Call(f),
                ) => if f.name == "collect"@ && f.distinct && !f.star && it.expr.args.len() == 1
                    && ast::as_var(expr) == Some(list) {
                    match ast::as_var(it.expr.args[0]) {
                        Some(x) => if x != alias {
                            Some((x, alias))
                        } else {
                            None
                        },
                        None => None,
                    }
                } else {
                    None
                },
                _ => None,
            }
        },
        _ => None,
    }
}

/// The first clause from `i` on at which [`renamed_pair`] holds.
pub open spec fn first_pair(q: Seq<ClauseV>, i: int) -> Option<int>
    decreases q.len() - i,
{
    if i < 0 || i + 1 >= q.len() {
        None
    } else if renamed_pair(q[i], q[i + 1]) is Some {
        Some(i)
    } else {
        first_pair(q, i + 1)
    }
}

/// The column of an item once a variable is renamed.
pub open spec fn renamed_column(it: ItemV, from: Seq<char>, to: Seq<char>) -> Seq<char> {
    match it.alias {
        Some(a) => renamed(a, from, to),
        None => match it.text {
            Some(t) => t,
            None => renamed(it.default_name, from, to),
        },
    }
}

/// Whether renaming a variable renames the columns that a projection hands on, or
/// leaves those that it answers with alone, and gives none a name that is taken.
pub open spec fn columns_follow(p: ProjV, from: Seq<char>, to: Seq<char>, answers: bool) -> bool {
    &&& answers ==> !p.star
    &&& forall|i: int|
        0 <= i < p.items.len() ==> {
            let c = query::column_of(#[trigger] p.items[i]);
            c != to && renamed_column(p.items[i], from, to) == if answers {
                c
            } else {
                renamed(c, from, to)
            }
        }
}

/// Whether a variable can be renamed throughout a clause, which then does not name
/// it any more.
pub open spec fn renames(c: ClauseV, from: Seq<char>, to: Seq<char>) -> bool {
    &&& match c {
        ClauseV::With { proj, .. } => columns_follow(proj, from, to, false),
        ClauseV::Return { proj } => columns_follow(proj, from, to, true),
        _ => true,
    }
    &&& !clause_names(rename_clause(c, from, to), from)
}

/// A query whose collected variable is unwound into itself, as long as the query
/// keeps its columns and the name can be replaced wherever it stands.
pub open spec fn unwound_as_itself(q: Seq<ClauseV>) -> Option<Seq<ClauseV>> {
    match first_pair(q, 0) {
        None => None,
        Some(i) => {
            let (x, f) = renamed_pair(q[i], q[i + 1])->0;
            let tail = q.skip(i + 2);
            if clauses_name(tail, x) || !(forall|k: int|
                0 <= k < tail.len() ==> renames(#[trigger] tail[k], f, x)) {
                None
            } else {
                match rename_clauses(tail, f, x) {
                    None => None,
                    Some(rest) => Some(
                        q.take(i + 1).push(
                            ClauseV::Unwind { expr: q[i + 1]->Unwind_expr, alias: x },
                        ) + rest,
                    ),
                }
            }
        },
    }
}

fn find_pair(a: &Clause, b: &Clause) -> (r: Option<(String, String)>)
    ensures
        match r {
            Some((x, f)) => renamed_pair(a.v(), b.v()) == Some((x@, f@)),
            None => renamed_pair(a.v(), b.v()) is None,
        },
{
    match (a, b) {
        (Clause::With { proj, where_: None }, Clause::Unwind { expr, alias }) => {
            if proj.items.len() != 1 || proj.distinct || proj.star {
                return None;
            }
            assert(proj.v().items[0] == proj.items@[0].v());
            let it = &proj.items[0];
            match (&it.alias, &it.expr.head, &expr.head) {
                (Some(list), Head::Call(f), Head::Var(u)) => {
                    if f.name != "collect".to_owned() || !f.distinct || f.star || it.expr.args.len()
                        != 1 || *u != *list {
                        return None;
                    }
                    assert(it.expr.v().args[0] == it.expr.args@[0].v());
                    match &it.expr.args[0].head {
                        Head::Var(x) => {
                            if *x != *alias {
                                Some((x.clone(), alias.clone()))
                            } else {
                                None
                            }
                        },
                        _ => None,
                    }
                },
                _ => None,
            }
        },
        _ => None,
    }
}

fn do_columns_follow(p: &Projection, from: &String, to: &String, answers: bool) -> (b: bool)
    ensures
        b == columns_follow(p.v(), from@, to@, answers),
{
    if answers && p.star {
        return false;
    }
    let ghost items = p.v().items;
    let mut i: usize = 0;
    while i < p.items.len()
        invariant
            i <= p.items@.len(),
            items == p.v().items,
            forall|j: int|
                0 <= j < i ==> {
                    let c = query::column_of(#[trigger] items[j]);
                    c != to@ && renamed_column(items[j], from@, to@) == if answers {
                        c
                    } else {
                        renamed(c, from@, to@)
                    }
                },
        decreases p.items.len() - i,
    {
        let it = &p.items[i];
        assert(items[i as int] == it.v());
        let c = it.column();
        let r = match (&it.alias, &it.text) {
            (Some(a), _) => rename_ident(a, from, to),
            (None, Some(t)) => t.clone(),
            (None, None) => rename_ident(&it.default_name, from, to),
        };
        let want = if answers {
            c.clone()
        } else {
            rename_ident(&c, from, to)
        };
        if c == *to || r != want {
            assert(!(query::column_of(items[i as int]) != to@ && renamed_column(
                items[i as int],
                from@,
                to@,
            ) == if answers {
                query::column_of(items[i as int])
            } else {
                renamed(query::column_of(items[i as int]), from@, to@)
            }));
            return false;
        }
        i = i + 1;
    }
    true
}

/// Whether a variable can be renamed throughout the clauses from `at` on.
fn all_rename(cs: &Vec<Clause>, at: usize, out: &Vec<Clause>, from: &String, to: &String) -> (b: bool)
    requires
        at <= cs@.len(),
        query::clauses_v(out@) == query::clauses_v(cs@).skip(at as int).map_values(
            |c: ClauseV| rename_clause(c, from@, to@),
        ),
    ensures
        b == forall|k: int|
            0 <= k < query::clauses_v(cs@).skip(at as int).len() ==> renames(
                #[trigger] query::clauses_v(cs@).skip(at as int)[k],
                from@,
                to@,
            ),
{
    let ghost tail = query::clauses_v(cs@).skip(at as int);
    let n: usize = cs.len();
    assert(query::clauses_v(out@).len() == out@.len());
    let mut i: usize = 0;
    while i < out.len()
        invariant
            i <= out@.len(),
            at <= n,
            n == cs@.len(),
            out@.len() == n - at,
            tail == query::clauses_v(cs@).skip(at as int),
            query::clauses_v(out@) == tail.map_values(|c: ClauseV| rename_clause(c, from@, to@)),
            out@.len() == tail.len(),
            forall|k: int| 0 <= k < i ==> renames(#[trigger] tail[k], from@, to@),
        decreases out.len() - i,
    {
        assert(tail[i as int] == cs@[at + i].v());
        assert(query::clauses_v(out@)[i as int] == out@[i as int].v());
        let follow = match &cs[at + i] {
            Clause::With { proj, .. } => do_columns_follow(proj, from, to, false),
            Clause::Return { proj } => do_columns_follow(proj, from, to, true),
            _ => true,
        };
        if !follow || clause_mentions_var(&out[i], from) {
            assert(!renames(tail[i as int], from@, to@));
            return false;
        }
        i = i + 1;
    }
    true
}

/// Unwinds a collected variable into itself, where it is unwound into another
/// name and nothing after that names it.
pub fn normalise_renamed_unwind(q: &SingleQuery) -> (r: Option<SingleQuery>)
    ensures
        query_opt(r) == unwound_as_itself(q.v()),
{
    let ghost qv = q.v();
    let n: usize = q.clauses.len();
    if n < 2 {
        return None;
    }
    let mut i: usize = 0;
    while i < n - 1
        invariant
            qv == q.v(),
            n == q.clauses@.len(),
            n >= 2,
            i <= n - 1,
            first_pair(qv, 0) == first_pair(qv, i as int),
        decreases n - i,
    {
        assert(qv[i as int] == q.clauses@[i as int].v());
        assert(qv[i + 1] == q.clauses@[i + 1].v());
        match find_pair(&q.clauses[i], &q.clauses[i + 1]) {
            None => {},
            Some((x, f)) => {
                if clauses_mention_var(&q.clauses, i + 2, &x) {
                    return None;
                }
                let rest = match rename_var_clauses(&q.clauses, i + 2, &f, &x) {
                    Some(r) => r,
                    None => {
                        return None;
                    },
                };
                let ghost rv = query::clauses_v(rest@);
                if !all_rename(&q.clauses, i + 2, &rest, &f, &x) {
                    return None;
                }
                let mut clauses = copy_clauses(&q.clauses, 0, i + 1);
                let ghost head = query::clauses_v(clauses@);
                proof {
                    assert(head =~= qv.take(i + 1));
                }
                match &q.clauses[i + 1] {
                    Clause::Unwind { expr, .. } => {
                        let u = Clause::Unwind { expr: expr.copy(), alias: x };
                        let ghost c0 = clauses@;
                        clauses.push(u);
                        assert(query::clauses_v(clauses@) =~= head.push(u.v()));
                    },
                    _ => {
                        return None;
                    },
                }
                let ghost mid = clauses@;
                let mut rest = rest;
                let ghost rest0 = rest@;
                clauses.append(&mut rest);
                proof {
                    assert(query::clauses_v(clauses@) =~= query::clauses_v(mid) + rv);
                }
                return Some(SingleQuery { clauses });
            },
        }
        i = i + 1;
    }
    None
}

} // verus!
