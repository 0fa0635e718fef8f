//! Patterns, projections and clauses of a query.

use vstd::prelude::*;

use crate::ast;
use crate::ast::{copy_opt_name, same_names, same_opt_name, Expr, ExprV};
use crate::graph::Dir;
use crate::names;
use crate::names::copy_names;
use crate::seqs;

verus! {

/// The direction in which a relationship is written.
#[derive(Clone, Copy, Debug, PartialEq, Eq, Structural)]
pub enum RelDir {
    Out,
    In,
    Undirected,
}

/// The direction of a hop along a relationship.
pub open spec fn dir_of(d: RelDir) -> Dir {
    match d {
        RelDir::Out => Dir::Out,
        RelDir::In => Dir::In,
        RelDir::Undirected => Dir::Both,
    }
}

/// The direction of a hop along a relationship.
pub fn hop_dir(d: RelDir) -> (r: Dir)
    ensures
        r == dir_of(d),
{
    match d {
        RelDir::Out => Dir::Out,
        RelDir::In => Dir::In,
        RelDir::Undirected => Dir::Both,
    }
}

/// The bounds of a variable-length relationship.
#[derive(Clone, Copy, Debug)]
pub struct VarLength {
    pub min: Option<u64>,
    pub max: Option<u64>,
}

/// A node of a pattern.
#[derive(Debug)]
pub struct NodePattern {
    pub var: Option<String>,
    pub labels: Vec<String>,
    pub props: Option<Expr>,
}

/// A relationship of a pattern.
#[derive(Debug)]
pub struct RelPattern {
    pub var: Option<String>,
    pub types: Vec<String>,
    pub dir: RelDir,
    pub props: Option<Expr>,
    pub length: Option<VarLength>,
}

/// A path of a pattern.
#[derive(Debug)]
pub struct PathPattern {
    pub var: Option<String>,
    pub shortest: bool,
    pub start: NodePattern,
    pub hops: Vec<(RelPattern, NodePattern)>,
}

/// A pattern: its paths.
#[derive(Debug)]
pub struct Pattern {
    pub paths: Vec<PathPattern>,
}

/// A sort key.
#[derive(Debug)]
pub struct OrderItem {
    pub expr: Expr,
    pub descending: bool,
}

/// A projected item.
#[derive(Debug)]
pub struct ProjItem {
    pub expr: Expr,
    pub alias: Option<String>,
    /// The item as it was written.
    pub text: Option<String>,
    /// The column name of an item with neither an alias nor a text.
    pub default_name: String,
}

/// A projection.
#[derive(Debug)]
pub struct Projection {
    pub distinct: bool,
    pub star: bool,
    pub items: Vec<ProjItem>,
    pub order: Vec<OrderItem>,
    pub skip: Option<Expr>,
    pub limit: Option<Expr>,
    /// The variables that the projection uses without regard to repeats.
    pub distinct_vars: Vec<String>,
}

/// A clause.
#[derive(Debug)]
pub enum Clause {
    Match { optional: bool, pattern: Pattern, where_: Option<Expr> },
    With { proj: Projection, where_: Option<Expr> },
    Return { proj: Projection },
    Unwind { expr: Expr, alias: String },
    /// A clause that the planner does not read.
    Other(u64),
}

/// A query without unions.
#[derive(Debug)]
pub struct SingleQuery {
    pub clauses: Vec<Clause>,
}

/// A [`NodePattern`].
pub struct NodeV {
    pub var: Option<Seq<char>>,
    pub labels: Seq<Seq<char>>,
    pub props: Option<ExprV>,
}

/// A [`RelPattern`].
pub struct RelV {
    pub var: Option<Seq<char>>,
    pub types: Seq<Seq<char>>,
    pub dir: RelDir,
    pub props: Option<ExprV>,
    pub length: Option<VarLength>,
}

/// A [`PathPattern`].
pub struct PathV {
    pub var: Option<Seq<char>>,
    pub shortest: bool,
    pub start: NodeV,
    pub hops: Seq<(RelV, NodeV)>,
}

/// A [`Pattern`].
pub struct PatternV {
    pub paths: Seq<PathV>,
}

/// An [`OrderItem`].
pub struct OrderV {
    pub expr: ExprV,
    pub descending: bool,
}

/// A [`ProjItem`].
pub struct ItemV {
    pub expr: ExprV,
    pub alias: Option<Seq<char>>,
    pub text: Option<Seq<char>>,
    pub default_name: Seq<char>,
}

/// A [`Projection`].
pub struct ProjV {
    pub distinct: bool,
    pub star: bool,
    pub items: Seq<ItemV>,
    pub order: Seq<OrderV>,
    pub skip: Option<ExprV>,
    pub limit: Option<ExprV>,
    pub distinct_vars: Seq<Seq<char>>,
}

/// A [`Clause`].
pub enum ClauseV {
    Match { optional: bool, pattern: PatternV, where_: Option<ExprV> },
    With { proj: ProjV, where_: Option<ExprV> },
    Return { proj: ProjV },
    Unwind { expr: ExprV, alias: Seq<char> },
    Other(u64),
}

impl NodePattern {
    pub open spec fn v(self) -> NodeV {
        NodeV {
            var: ast::opt_str(self.var),
            labels: names::of(self.labels@),
            props: ast::opt_v(self.props),
        }
    }

    pub fn copy(&self) -> (r: NodePattern)
        ensures
            r.v() == self.v(),
    {
        NodePattern {
            var: copy_opt_name(&self.var),
            labels: copy_names(&self.labels),
            props: ast::copy_opt(ast::as_opt(&self.props)),
        }
    }

    pub fn same(&self, other: &NodePattern) -> (r: bool)
        ensures
            r == (self.v() == other.v()),
    {
        same_opt_name(&self.var, &other.var) && same_names(&self.labels, &other.labels) && same_opt(
            &self.props,
            &other.props,
        )
    }
}

/// Whether two optional expressions are the same.
pub fn same_opt(a: &Option<Expr>, b: &Option<Expr>) -> (r: bool)
    ensures
        r == (ast::opt_v(*a) == ast::opt_v(*b)),
{
    match (a, b) {
        (Some(x), Some(y)) => x.same(y),
        (None, None) => true,
        _ => false,
    }
}

fn same_bound(a: Option<u64>, b: Option<u64>) -> (r: bool)
    ensures
        r == (a == b),
{
    match (a, b) {
        (Some(x), Some(y)) => x == y,
        (None, None) => true,
        _ => false,
    }
}

impl RelPattern {
    pub open spec fn v(self) -> RelV {
        RelV {
            var: ast::opt_str(self.var),
            types: names::of(self.types@),
            dir: self.dir,
            props: ast::opt_v(self.props),
            length: self.length,
        }
    }

    pub fn copy(&self) -> (r: RelPattern)
        ensures
            r.v() == self.v(),
    {
        RelPattern {
            var: copy_opt_name(&self.var),
            types: copy_names(&self.types),
            dir: self.dir,
            props: ast::copy_opt(ast::as_opt(&self.props)),
            length: self.length,
        }
    }

    pub fn same(&self, other: &RelPattern) -> (r: bool)
        ensures
            r == (self.v() == other.v()),
    {
        let len = match (self.length, other.length) {
            (Some(a), Some(b)) => same_bound(a.min, b.min) && same_bound(a.max, b.max),
            (None, None) => true,
            _ => false,
        };
        same_opt_name(&self.var, &other.var) && same_names(&self.types, &other.types) && self.dir
            == other.dir && same_opt(&self.props, &other.props) && len
    }
}

/// The hops of a path.
pub open spec fn hops_v(s: Seq<(RelPattern, NodePattern)>) -> Seq<(RelV, NodeV)> {
    s.map_values(|h: (RelPattern, NodePattern)| (h.0.v(), h.1.v()))
}

/// A copy of the hops `from..` of a path.
pub fn copy_hops(s: &Vec<(RelPattern, NodePattern)>, from: usize, to: usize) -> (r: Vec<
    (RelPattern, NodePattern),
>)
    requires
        from <= to <= s@.len(),
    ensures
        hops_v(r@) == hops_v(s@).subrange(from as int, to as int),
{
    let mut r: Vec<(RelPattern, NodePattern)> = Vec::new();
    let mut i: usize = from;
    while i < to
        invariant
            from <= i <= to <= s@.len(),
            hops_v(r@) == hops_v(s@).subrange(from as int, i as int),
        decreases to - i,
    {
        let ghost r0 = r@;
        let h = (s[i].0.copy(), s[i].1.copy());
        r.push(h);
        proof {
            assert(hops_v(r@) =~= hops_v(r0).push((h.0.v(), h.1.v())));
            assert(hops_v(s@).subrange(from as int, i + 1) =~= hops_v(s@).subrange(
                from as int,
                i as int,
            ).push(hops_v(s@)[i as int]));
        }
        i = i + 1;
    }
    r
}

impl PathPattern {
    pub open spec fn v(self) -> PathV {
        PathV {
            var: ast::opt_str(self.var),
            shortest: self.shortest,
            start: self.start.v(),
            hops: hops_v(self.hops@),
        }
    }

    pub fn copy(&self) -> (r: PathPattern)
        ensures
            r.v() == self.v(),
    {
        let hops = copy_hops(&self.hops, 0, self.hops.len());
        assert(hops_v(self.hops@).subrange(0, self.hops@.len() as int) =~= hops_v(self.hops@));
        PathPattern {
            var: copy_opt_name(&self.var),
            shortest: self.shortest,
            start: self.start.copy(),
            hops,
        }
    }

    pub fn same(&self, other: &PathPattern) -> (r: bool)
        ensures
            r == (self.v() == other.v()),
    {
        if !same_opt_name(&self.var, &other.var) || self.shortest != other.shortest
            || !self.start.same(&other.start) {
            return false;
        }
        if self.hops.len() != other.hops.len() {
            assert(self.v().hops.len() != other.v().hops.len());
            return false;
        }
        let mut i: usize = 0;
        while i < self.hops.len()
            invariant
                i <= self.hops@.len(),
                self.hops@.len() == other.hops@.len(),
                forall|j: int| 0 <= j < i ==> self.v().hops[j] == #[trigger] other.v().hops[j],
            decreases self.hops.len() - i,
        {
            if !self.hops[i].0.same(&other.hops[i].0) || !self.hops[i].1.same(&other.hops[i].1) {
                assert(self.v().hops[i as int] != other.v().hops[i as int]);
                return false;
            }
            i = i + 1;
        }
        assert(self.v().hops =~= other.v().hops);
        true
    }
}

/// The paths of a pattern.
pub open spec fn paths_v(s: Seq<PathPattern>) -> Seq<PathV> {
    s.map_values(|p: PathPattern| p.v())
}

impl Pattern {
    pub open spec fn v(self) -> PatternV {
        PatternV { paths: paths_v(self.paths@) }
    }

    pub fn copy(&self) -> (r: Pattern)
        ensures
            r.v() == self.v(),
    {
        let mut paths: Vec<PathPattern> = Vec::new();
        let mut i: usize = 0;
        while i < self.paths.len()
            invariant
                i <= self.paths@.len(),
                paths_v(paths@) == paths_v(self.paths@).take(i as int),
            decreases self.paths.len() - i,
        {
            let ghost p0 = paths@;
            let p = self.paths[i].copy();
            paths.push(p);
            proof {
                assert(paths_v(paths@) =~= paths_v(p0).push(p.v()));
                seqs::lemma_take_last(paths_v(self.paths@), i as int);
            }
            i = i + 1;
        }
        assert(paths_v(self.paths@).take(i as int) =~= paths_v(self.paths@));
        Pattern { paths }
    }

    pub fn same(&self, other: &Pattern) -> (r: bool)
        ensures
            r == (self.v() == other.v()),
    {
        if self.paths.len() != other.paths.len() {
            assert(self.v().paths.len() != other.v().paths.len());
            return false;
        }
        let mut i: usize = 0;
        while i < self.paths.len()
            invariant
                i <= self.paths@.len(),
                self.paths@.len() == other.paths@.len(),
                forall|j: int| 0 <= j < i ==> self.v().paths[j] == #[trigger] other.v().paths[j],
            decreases self.paths.len() - i,
        {
            if !self.paths[i].same(&other.paths[i]) {
                assert(self.v().paths[i as int] != other.v().paths[i as int]);
                return false;
            }
            i = i + 1;
        }
        assert(self.v().paths =~= other.v().paths);
        true
    }
}

impl OrderItem {
    pub open spec fn v(self) -> OrderV {
        OrderV { expr: self.expr.v(), descending: self.descending }
    }
}

impl ProjItem {
    pub open spec fn v(self) -> ItemV {
        ItemV {
            expr: self.expr.v(),
            alias: ast::opt_str(self.alias),
            text: ast::opt_str(self.text),
            default_name: self.default_name@,
        }
    }

    pub fn copy(&self) -> (r: ProjItem)
        ensures
            r.v() == self.v(),
    {
        ProjItem {
            expr: self.expr.copy(),
            alias: copy_opt_name(&self.alias),
            text: copy_opt_name(&self.text),
            default_name: self.default_name.clone(),
        }
    }

    /// The column that the item makes: its alias, else its text, else its
    /// default name.
    pub fn column(&self) -> (r: String)
        ensures
            r@ == column_of(self.v()),
    {
        match &self.alias {
            Some(a) => a.clone(),
            None => match &self.text {
                Some(t) => t.clone(),
                None => self.default_name.clone(),
            },
        }
    }
}

/// The column that an item makes.
pub open spec fn column_of(it: ItemV) -> Seq<char> {
    match it.alias {
        Some(a) => a,
        None => match it.text {
            Some(t) => t,
            None => it.default_name,
        },
    }
}

/// The columns of items.
pub open spec fn columns_of(items: Seq<ItemV>) -> Seq<Seq<char>> {
    items.map_values(|it: ItemV| column_of(it))
}

/// The items of a projection.
pub open spec fn items_v(s: Seq<ProjItem>) -> Seq<ItemV> {
    s.map_values(|i: ProjItem| i.v())
}

/// The sort keys of a projection.
pub open spec fn order_v(s: Seq<OrderItem>) -> Seq<OrderV> {
    s.map_values(|o: OrderItem| o.v())
}

/// A copy of items.
pub fn copy_items(s: &Vec<ProjItem>) -> (r: Vec<ProjItem>)
    ensures
        items_v(r@) == items_v(s@),
{
    let mut r: Vec<ProjItem> = Vec::new();
    let mut i: usize = 0;
    while i < s.len()
        invariant
            i <= s@.len(),
            items_v(r@) == items_v(s@).take(i as int),
        decreases s.len() - i,
    {
        let ghost r0 = r@;
        let x = s[i].copy();
        r.push(x);
        proof {
            assert(items_v(r@) =~= items_v(r0).push(x.v()));
            seqs::lemma_take_last(items_v(s@), i as int);
        }
        i = i + 1;
    }
    assert(items_v(s@).take(i as int) =~= items_v(s@));
    r
}

/// A copy of sort keys.
pub fn copy_order(s: &Vec<OrderItem>) -> (r: Vec<OrderItem>)
    ensures
        order_v(r@) == order_v(s@),
{
    let mut r: Vec<OrderItem> = Vec::new();
    let mut i: usize = 0;
    while i < s.len()
        invariant
            i <= s@.len(),
            order_v(r@) == order_v(s@).take(i as int),
        decreases s.len() - i,
    {
        let ghost r0 = r@;
        let x = OrderItem { expr: s[i].expr.copy(), descending: s[i].descending };
        r.push(x);
        proof {
            assert(order_v(r@) =~= order_v(r0).push(x.v()));
            seqs::lemma_take_last(order_v(s@), i as int);
        }
        i = i + 1;
    }
    assert(order_v(s@).take(i as int) =~= order_v(s@));
    r
}

impl Projection {
    pub open spec fn v(self) -> ProjV {
        ProjV {
            distinct: self.distinct,
            star: self.star,
            items: items_v(self.items@),
            order: order_v(self.order@),
            skip: ast::opt_v(self.skip),
            limit: ast::opt_v(self.limit),
            distinct_vars: names::of(self.distinct_vars@),
        }
    }

    pub fn copy(&self) -> (r: Projection)
        ensures
            r.v() == self.v(),
    {
        Projection {
            distinct: self.distinct,
            star: self.star,
            items: copy_items(&self.items),
            order: copy_order(&self.order),
            skip: ast::copy_opt(ast::as_opt(&self.skip)),
            limit: ast::copy_opt(ast::as_opt(&self.limit)),
            distinct_vars: copy_names(&self.distinct_vars),
        }
    }
}

/// Whether any item aggregates.
pub open spec fn any_aggregate(items: Seq<ItemV>) -> bool {
    exists|i: int| 0 <= i < items.len() && ast::has_aggregate((#[trigger] items[i]).expr)
}

/// Whether any item of a projection aggregates.
pub fn items_aggregate(p: &Projection) -> (b: bool)
    ensures
        b == any_aggregate(p.v().items),
{
    let mut i: usize = 0;
    while i < p.items.len()
        invariant
            i <= p.items@.len(),
            forall|j: int| 0 <= j < i ==> !ast::has_aggregate((#[trigger] p.v().items[j]).expr),
        decreases p.items.len() - i,
    {
        assert(p.v().items[i as int] == p.items@[i as int].v());
        if ast::expr_has_aggregate(&p.items[i].expr) {
            return true;
        }
        i = i + 1;
    }
    false
}

impl Clause {
    pub open spec fn v(self) -> ClauseV {
        match self {
            Clause::Match { optional, pattern, where_ } => ClauseV::Match {
                optional,
                pattern: pattern.v(),
                where_: ast::opt_v(where_),
            },
            Clause::With { proj, where_ } => ClauseV::With {
                proj: proj.v(),
                where_: ast::opt_v(where_),
            },
            Clause::Return { proj } => ClauseV::Return { proj: proj.v() },
            Clause::Unwind { expr, alias } => ClauseV::Unwind { expr: expr.v(), alias: alias@ },
            Clause::Other(i) => ClauseV::Other(i),
        }
    }

    pub fn copy(&self) -> (r: Clause)
        ensures
            r.v() == self.v(),
    {
        match self {
            Clause::Match { optional, pattern, where_ } => Clause::Match {
                optional: *optional,
                pattern: pattern.copy(),
                where_: ast::copy_opt(ast::as_opt(where_)),
            },
            Clause::With { proj, where_ } => Clause::With {
                proj: proj.copy(),
                where_: ast::copy_opt(ast::as_opt(where_)),
            },
            Clause::Return { proj } => Clause::Return { proj: proj.copy() },
            Clause::Unwind { expr, alias } => Clause::Unwind {
                expr: expr.copy(),
                alias: alias.clone(),
            },
            Clause::Other(i) => Clause::Other(*i),
        }
    }
}

/// The clauses of a query.
pub open spec fn clauses_v(s: Seq<Clause>) -> Seq<ClauseV> {
    s.map_values(|c: Clause| c.v())
}

impl SingleQuery {
    pub open spec fn v(self) -> Seq<ClauseV> {
        clauses_v(self.clauses@)
    }
}

/// A copy of the clauses `from..to`.
pub fn copy_clauses(s: &Vec<Clause>, from: usize, to: usize) -> (r: Vec<Clause>)
    requires
        from <= to <= s@.len(),
    ensures
        clauses_v(r@) == clauses_v(s@).subrange(from as int, to as int),
{
    let mut r: Vec<Clause> = Vec::new();
    let mut i: usize = from;
    while i < to
        invariant
            from <= i <= to <= s@.len(),
            clauses_v(r@) == clauses_v(s@).subrange(from as int, i as int),
        decreases to - i,
    {
        let ghost r0 = r@;
        let c = s[i].copy();
        r.push(c);
        proof {
            assert(clauses_v(r@) =~= clauses_v(r0).push(c.v()));
            assert(clauses_v(s@).subrange(from as int, i + 1) =~= clauses_v(s@).subrange(
                from as int,
                i as int,
            ).push(clauses_v(s@)[i as int]));
        }
        i = i + 1;
    }
    r
}

} // verus!
