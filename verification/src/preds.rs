//! The conditions of a chain, one conjunct at a time.

use vstd::prelude::*;

use crate::ast;
use crate::ast::{classify_key, conjuncts_of, contains_opaque, expr_has_aggregate, EdgePattern, Expr, ExprV, Head, HeadV, KeyRef, Op};
use crate::chain;
use crate::chain::{anchor_expr, collect_hops, Allow, HopsV};
use crate::graph::{Dir, VarKind};
use crate::hop;
use crate::hop::{Hop, StepHop};
use crate::names;
use crate::names::{copy_names, has_name};
use crate::query::{dir_of, hop_dir, Pattern, PatternV};
use crate::seqs;

verus! {

/// An edge between two bound variables, or the lack of one.
#[derive(Debug)]
pub struct EdgePred {
    pub src: String,
    pub dst: String,
    pub dir: Dir,
    pub types: Vec<String>,
    pub negate: bool,
}

/// An [`EdgePred`].
pub struct EdgePredV {
    pub src: Seq<char>,
    pub dst: Seq<char>,
    pub dir: Dir,
    pub types: Seq<Seq<char>>,
    pub negate: bool,
}

/// One conjunct of a chain's condition.
#[derive(Debug)]
pub struct WherePred {
    pub expr: Expr,
    /// The variable it reads, or the first of two.
    pub var: String,
    /// The other variable of an identity test, and whether it must differ.
    pub id_other: Option<(String, bool)>,
    pub edge: Option<EdgePred>,
}

/// A [`WherePred`].
pub struct WhereV {
    pub expr: ExprV,
    pub var: Seq<char>,
    pub id_other: Option<(Seq<char>, bool)>,
    pub edge: Option<EdgePredV>,
}

impl EdgePred {
    pub open spec fn v(self) -> EdgePredV {
        EdgePredV {
            src: self.src@,
            dst: self.dst@,
            dir: self.dir,
            types: names::of(self.types@),
            negate: self.negate,
        }
    }

    pub fn copy(&self) -> (r: EdgePred)
        ensures
            r.v() == self.v(),
    {
        EdgePred {
            src: self.src.clone(),
            dst: self.dst.clone(),
            dir: self.dir,
            types: copy_names(&self.types),
            negate: self.negate,
        }
    }
}

/// An edge test that may be missing.
pub open spec fn edge_v(e: Option<EdgePred>) -> Option<EdgePredV> {
    match e {
        Some(e) => Some(e.v()),
        None => None,
    }
}

/// An identity test that may be missing.
pub open spec fn id_v(o: Option<(String, bool)>) -> Option<(Seq<char>, bool)> {
    match o {
        Some((x, ne)) => Some((x@, ne)),
        None => None,
    }
}

impl WherePred {
    pub open spec fn v(self) -> WhereV {
        WhereV {
            expr: self.expr.v(),
            var: self.var@,
            id_other: id_v(self.id_other),
            edge: edge_v(self.edge),
        }
    }

    pub fn copy(&self) -> (r: WherePred)
        ensures
            r.v() == self.v(),
    {
        WherePred {
            expr: self.expr.copy(),
            var: self.var.clone(),
            id_other: match &self.id_other {
                Some((x, ne)) => Some((x.clone(), *ne)),
                None => None,
            },
            edge: match &self.edge {
                Some(e) => Some(e.copy()),
                None => None,
            },
        }
    }
}

/// The conjuncts of a chain's condition.
pub open spec fn wheres_v(s: Seq<WherePred>) -> Seq<WhereV> {
    s.map_values(|w: WherePred| w.v())
}

/// A pattern predicate and whether it is negated.
pub open spec fn pattern_of(w: ExprV) -> Option<(ast::EdgePatternV, bool)> {
    match w.head {
        HeadV::Pattern(p) => Some((p, false)),
        _ => if ast::is_op(w, Op::Not, 1) {
            match w.args[0].head {
                HeadV::Pattern(p) => Some((p, true)),
                _ => None,
            }
        } else {
            None
        },
    }
}

/// Whether a path is one hop of fixed length, without a variable for the path or
/// the relationship, and without labels or properties.
pub open spec fn bare_hop(p: ast::EdgePatternV) -> bool {
    &&& p.var is None && !p.shortest && p.steps.len() == 1
    &&& p.steps[0].var is None && !p.steps[0].props && p.steps[0].length is None
    &&& p.start.labels.len() == 0 && !p.start.props
    &&& p.steps[0].end.labels.len() == 0 && !p.steps[0].end.props
}

/// The edge test that a condition is, when both of its ends are bound.
pub open spec fn edge_pred(w: ExprV, vars: Seq<Seq<char>>) -> Option<EdgePredV> {
    match pattern_of(w) {
        None => None,
        Some((p, negate)) => if !bare_hop(p) {
            None
        } else {
            match (p.start.var, p.steps[0].end.var) {
                (Some(src), Some(dst)) => if vars.contains(src) && vars.contains(dst) {
                    Some(
                        EdgePredV {
                            src,
                            dst,
                            dir: dir_of(p.steps[0].dir),
                            types: p.steps[0].types,
                            negate,
                        },
                    )
                } else {
                    None
                },
                _ => None,
            }
        },
    }
}

fn is_bare_hop(p: &EdgePattern) -> (b: bool)
    ensures
        b == bare_hop(p.v()),
{
    if p.steps.len() != 1 {
        return false;
    }
    let s = &p.steps[0];
    assert(p.v().steps[0] == s.v());
    p.var.is_none() && !p.shortest && s.var.is_none() && !s.props && s.length.is_none()
        && p.start.labels.len() == 0 && !p.start.props && s.end.labels.len() == 0 && !s.end.props
}

/// The edge test that a condition is, when both of its ends are bound.
pub fn edge_pred_of(w: &Expr, vars: &Vec<String>) -> (r: Option<EdgePred>)
    ensures
        edge_v(r) == edge_pred(w.v(), names::of(vars@)),
{
    assert(w.args@.len() == 1 ==> w.v().args[0] == w.args@[0].v());
    let (p, negate) = match &w.head {
        Head::Pattern(p) => (p, false),
        Head::Op(Op::Not) => {
            if w.args.len() != 1 {
                return None;
            }
            match &w.args[0].head {
                Head::Pattern(p) => (p, true),
                _ => {
                    return None;
                },
            }
        },
        _ => {
            return None;
        },
    };
    if !is_bare_hop(p) {
        return None;
    }
    let s = &p.steps[0];
    assert(p.v().steps[0] == s.v());
    match (&p.start.var, &s.end.var) {
        (Some(src), Some(dst)) => {
            if has_name(vars, src) && has_name(vars, dst) {
                Some(
                    EdgePred {
                        src: src.clone(),
                        dst: dst.clone(),
                        dir: hop_dir(s.dir),
                        types: copy_names(&s.types),
                        negate,
                    },
                )
            } else {
                None
            }
        },
        _ => None,
    }
}

/// The sides of an equality or inequality, and whether they must differ.
pub open spec fn sides_of(w: ExprV) -> Option<(ExprV, ExprV, bool)> {
    if ast::is_op(w, Op::Eq, 2) {
        Some((w.args[0], w.args[1], false))
    } else if ast::is_op(w, Op::Neq, 2) {
        Some((w.args[0], w.args[1], true))
    } else if ast::is_op(w, Op::Not, 1) && ast::is_op(w.args[0], Op::Eq, 2) {
        Some((w.args[0].args[0], w.args[0].args[1], true))
    } else {
        None
    }
}

/// The two different bound variables that a condition compares by identity.
pub open spec fn two_vars(w: ExprV, vars: Seq<Seq<char>>) -> Option<
    (Seq<char>, Seq<char>, bool),
> {
    match sides_of(w) {
        None => None,
        Some((l, r, ne)) => match (ast::as_var(l), ast::as_var(r)) {
            (Some(a), Some(b)) => if a != b && vars.contains(a) && vars.contains(b) {
                Some((a, b, ne))
            } else {
                None
            },
            _ => None,
        },
    }
}

fn var_name(e: &Expr) -> (r: Option<&String>)
    ensures
        match r {
            Some(x) => ast::as_var(e.v()) == Some(x@),
            None => ast::as_var(e.v()) is None,
        },
{
    match &e.head {
        Head::Var(x) => Some(x),
        _ => None,
    }
}

fn id_pair(l: &Expr, r: &Expr, ne: bool, vars: &Vec<String>) -> (o: Option<(String, String, bool)>)
    ensures
        match (ast::as_var(l.v()), ast::as_var(r.v())) {
            (Some(a), Some(b)) => match o {
                Some((x, y, d)) => x@ == a && y@ == b && d == ne && a != b && names::of(
                    vars@,
                ).contains(a) && names::of(vars@).contains(b),
                None => !(a != b && names::of(vars@).contains(a) && names::of(vars@).contains(b)),
            },
            _ => o is None,
        },
{
    match (var_name(l), var_name(r)) {
        (Some(a), Some(b)) => {
            if *a == *b || !has_name(vars, a) || !has_name(vars, b) {
                None
            } else {
                Some((a.clone(), b.clone(), ne))
            }
        },
        _ => None,
    }
}

/// The two different bound variables that a condition compares by identity.
pub fn two_var_id_pred(w: &Expr, vars: &Vec<String>) -> (r: Option<(String, String, bool)>)
    ensures
        match r {
            Some((a, b, ne)) => two_vars(w.v(), names::of(vars@)) == Some((a@, b@, ne)),
            None => two_vars(w.v(), names::of(vars@)) is None,
        },
{
    proof {
        if w.args@.len() > 0 {
            assert(w.v().args[0] == w.args@[0].v());
        }
        if w.args@.len() > 1 {
            assert(w.v().args[1] == w.args@[1].v());
        }
    }
    match &w.head {
        Head::Op(Op::Eq) => {
            if w.args.len() == 2 {
                id_pair(&w.args[0], &w.args[1], false, vars)
            } else {
                None
            }
        },
        Head::Op(Op::Neq) => {
            if w.args.len() == 2 {
                id_pair(&w.args[0], &w.args[1], true, vars)
            } else {
                None
            }
        },
        Head::Op(Op::Not) => {
            if w.args.len() != 1 {
                return None;
            }
            let inner = &w.args[0];
            match &inner.head {
                Head::Op(Op::Eq) => {
                    if inner.args.len() == 2 {
                        assert(inner.v().args[0] == inner.args@[0].v());
                        assert(inner.v().args[1] == inner.args@[1].v());
                        id_pair(&inner.args[0], &inner.args[1], true, vars)
                    } else {
                        None
                    }
                },
                _ => None,
            }
        },
        _ => None,
    }
}

/// A condition as a filter can apply it: an edge test, an identity test, or a
/// test of one variable.
pub open spec fn where_pred(w: ExprV, vars: Seq<Seq<char>>) -> Option<WhereV> {
    match edge_pred(w, vars) {
        Some(e) => Some(WhereV { expr: w, var: e.src, id_other: None, edge: Some(e) }),
        None => if ast::has_opaque(w) || ast::has_aggregate(w) {
            None
        } else {
            match two_vars(w, vars) {
                Some((a, b, ne)) => Some(
                    WhereV { expr: w, var: a, id_other: Some((b, ne)), edge: None },
                ),
                None => match ast::key_class(w, vars) {
                    Some(KeyRef::Var(i)) => Some(
                        WhereV { expr: w, var: vars[i as int], id_other: None, edge: None },
                    ),
                    _ => None,
                },
            }
        },
    }
}

/// A condition as a filter can apply it.
pub fn recognise_single_var_where(w: &Expr, vars: &Vec<String>) -> (r: Option<WherePred>)
    ensures
        match r {
            Some(p) => where_pred(w.v(), names::of(vars@)) == Some(p.v()),
            None => where_pred(w.v(), names::of(vars@)) is None,
        },
{
    match edge_pred_of(w, vars) {
        Some(e) => {
            return Some(
                WherePred { expr: w.copy(), var: e.src.clone(), id_other: None, edge: Some(e) },
            );
        },
        None => {},
    }
    if contains_opaque(w) || expr_has_aggregate(w) {
        return None;
    }
    match two_var_id_pred(w, vars) {
        Some((a, b, ne)) => {
            return Some(WherePred { expr: w.copy(), var: a, id_other: Some((b, ne)), edge: None });
        },
        None => {},
    }
    match classify_key(w, vars) {
        Some(KeyRef::Var(i)) => Some(
            WherePred { expr: w.copy(), var: vars[i].clone(), id_other: None, edge: None },
        ),
        _ => None,
    }
}

/// The conjuncts of a condition, if a filter can apply every one.
pub open spec fn where_preds(w: Option<ExprV>, vars: Seq<Seq<char>>) -> Option<Seq<WhereV>> {
    match w {
        None => Some(Seq::empty()),
        Some(w) => seqs::try_map(ast::conjuncts(w), |c: ExprV| where_pred(c, vars)),
    }
}

/// The conjuncts of a condition, if a filter can apply every one.
pub fn recognise_where_preds(w: Option<&Expr>, vars: &Vec<String>) -> (r: Option<Vec<WherePred>>)
    ensures
        match r {
            Some(ps) => where_preds(ast::ref_v(w), names::of(vars@)) == Some(wheres_v(ps@)),
            None => where_preds(ast::ref_v(w), names::of(vars@)) is None,
        },
{
    match w {
        None => {
            let r: Vec<WherePred> = Vec::new();
            assert(wheres_v(r@) =~= Seq::empty());
            Some(r)
        },
        Some(e) => {
            let mut cs: Vec<&Expr> = Vec::new();
            conjuncts_of(e, &mut cs);
            let ghost f = |x: &Expr| x.v();
            let ghost g = |c: ExprV| where_pred(c, names::of(vars@));
            let ghost all = ast::conjuncts(e.v());
            assert(cs@.map_values(f) =~= all);
            let mut r: Vec<WherePred> = Vec::new();
            let mut i: usize = 0;
            while i < cs.len()
                invariant
                    i <= cs@.len(),
                    all == ast::conjuncts(e.v()),
                    all.len() == cs@.len(),
                    g == (|c: ExprV| where_pred(c, names::of(vars@))),
                    forall|j: int| 0 <= j < all.len() ==> #[trigger] all[j] == cs@[j].v(),
                    forall|j: int| 0 <= j < i ==> g(#[trigger] all[j]) == Some(r@[j].v()),
                    r@.len() == i,
                    ast::ref_v(w) == Some(e.v()),
                decreases cs.len() - i,
            {
                assert(all[i as int] == cs@[i as int].v());
                match recognise_single_var_where(cs[i], vars) {
                    None => {
                        assert(g(all[i as int]) is None);
                        return None;
                    },
                    Some(p) => {
                        r.push(p);
                    },
                }
                i = i + 1;
            }
            assert(wheres_v(r@) =~= all.map_values(|c: ExprV| g(c)->0));
            Some(r)
        },
    }
}

/// A condition with further conjuncts.
pub open spec fn and_all(w: Option<ExprV>, more: Seq<ExprV>) -> Option<ExprV>
    decreases more.len(),
{
    if more.len() == 0 {
        w
    } else {
        match and_all(w, more.drop_last()) {
            Some(e) => Some(ast::bin_v(Op::And, e, more.last())),
            None => Some(more.last()),
        }
    }
}

/// A condition with further conjuncts.
pub fn and_node_anchors(w: Option<Expr>, more: &Vec<Expr>) -> (r: Option<Expr>)
    ensures
        ast::opt_v(r) == and_all(ast::opt_v(w), ast::exprs_v(more@)),
{
    let ghost ms = ast::exprs_v(more@);
    let mut acc = w;
    let mut i: usize = 0;
    assert(ms.take(0) =~= Seq::empty());
    while i < more.len()
        invariant
            i <= more@.len(),
            ms == ast::exprs_v(more@),
            ast::opt_v(acc) == and_all(ast::opt_v(w), ms.take(i as int)),
        decreases more.len() - i,
    {
        proof {
            seqs::lemma_take_last(ms, i as int);
            assert(ms[i as int] == more@[i as int].v());
        }
        let x = more[i].copy();
        acc = match acc {
            Some(e) => Some(Expr::bin(Op::And, e, x)),
            None => Some(x),
        };
        i = i + 1;
    }
    assert(ms.take(i as int) =~= ms);
    acc
}

/// A chain: the scanned start, the steps from it, and the conditions.
#[derive(Debug)]
pub struct Chain {
    pub a_labels: Vec<String>,
    pub a_var: String,
    pub hops: Vec<Hop>,
    pub vars: Vec<String>,
    pub kinds: Vec<VarKind>,
    pub wheres: Vec<WherePred>,
    /// A property equality by which the start can be looked up.
    pub start_anchor: Option<(String, Expr)>,
}

/// A [`Chain`].
pub struct ChainV {
    pub a_labels: Seq<Seq<char>>,
    pub a_var: Seq<char>,
    pub hops: Seq<StepHop>,
    pub vars: Seq<Seq<char>>,
    pub kinds: Seq<VarKind>,
    pub wheres: Seq<WhereV>,
    pub start_anchor: Option<(Seq<char>, ExprV)>,
}

impl Chain {
    pub open spec fn v(self) -> ChainV {
        ChainV {
            a_labels: names::of(self.a_labels@),
            a_var: self.a_var@,
            hops: hop::steps_v(self.hops@),
            vars: names::of(self.vars@),
            kinds: self.kinds@,
            wheres: wheres_v(self.wheres@),
            start_anchor: chain::anchor_v(self.start_anchor),
        }
    }
}

/// A chain that may be missing.
pub open spec fn chain_opt(c: Option<Chain>) -> Option<ChainV> {
    match c {
        Some(c) => Some(c.v()),
        None => None,
    }
}

/// The condition of a scanned pattern: the equality on its start, what is
/// written, and the equalities on other nodes.
pub open spec fn full_where(h: HopsV, w: Option<ExprV>) -> Option<ExprV> {
    let first = match (h.start_anchor, w) {
        (Some(a), Some(w)) => Some(ast::bin_v(Op::And, chain::anchor_eq(h.a_var, a), w)),
        (Some(a), None) => Some(chain::anchor_eq(h.a_var, a)),
        (None, w) => w,
    };
    and_all(first, h.node_anchors)
}

/// What a chain may use of a pattern.
pub open spec fn chain_allow() -> Allow {
    Allow { hopless: false, start: true, node: true }
}

/// The chain of a pattern and its condition.
pub open spec fn chain_of(pattern: PatternV, w: Option<ExprV>) -> Option<ChainV> {
    match chain::scan_hops(pattern, chain_allow()) {
        None => None,
        Some(h) => match where_preds(full_where(h, w), h.vars) {
            None => None,
            Some(wheres) => Some(
                ChainV {
                    a_labels: h.a_labels,
                    a_var: h.a_var,
                    hops: h.hops,
                    vars: h.vars,
                    kinds: h.kinds,
                    wheres,
                    start_anchor: h.start_anchor,
                },
            ),
        },
    }
}

/// The condition of a scanned pattern.
pub fn combine_where(h: &chain::Hops, w: Option<&Expr>) -> (r: Option<Expr>)
    ensures
        ast::opt_v(r) == full_where(h.v(), ast::ref_v(w)),
{
    let first: Option<Expr> = match (&h.start_anchor, w) {
        (Some((key, val)), Some(e)) => Some(
            Expr::bin(Op::And, anchor_expr(&h.a_var, key, val), e.copy()),
        ),
        (Some((key, val)), None) => Some(anchor_expr(&h.a_var, key, val)),
        (None, Some(e)) => Some(e.copy()),
        (None, None) => None,
    };
    and_node_anchors(first, &h.node_anchors)
}

/// The chain of a pattern and its condition.
pub fn recognise_chain(pattern: &Pattern, w: Option<&Expr>) -> (r: Option<Chain>)
    ensures
        chain_opt(r) == chain_of(pattern.v(), ast::ref_v(w)),
{
    let h = match collect_hops(pattern, None, Allow { hopless: false, start: true, node: true }) {
        Some(h) => h,
        None => {
            return None;
        },
    };
    let all = combine_where(&h, w);
    match recognise_where_preds(ast::as_opt(&all), &h.vars) {
        None => None,
        Some(wheres) => Some(
            Chain {
                a_labels: h.a_labels,
                a_var: h.a_var,
                hops: h.hops,
                vars: h.vars,
                kinds: h.kinds,
                wheres,
                start_anchor: h.start_anchor,
            },
        ),
    }
}

} // verus!
