//! A list collected over a hierarchy, found from the value that anchors it.

use vstd::prelude::*;

use crate::ast;
use crate::ast::{Expr, ExprV, Head, HeadV, Op};
use crate::names;
use crate::names::copy_names;
use crate::query;
use crate::query::{ItemV, NodePattern, NodeV, Pattern, PatternV, ProjItem, RelDir};

verus! {

/// The variable and the property that an expression reads, if that is all.
pub open spec fn var_prop(e: ExprV) -> Option<(Seq<char>, Seq<char>)> {
    match e.head {
        HeadV::Prop(k) => if e.args.len() == 1 {
            match e.args[0].head {
                HeadV::Var(x) => Some((x, k)),
                _ => None,
            }
        } else {
            None
        },
        _ => None,
    }
}

/// The variable and the property that an expression reads, if that is all.
pub fn prop_of_var(e: &Expr) -> (r: Option<(&String, &String)>)
    ensures
        match r {
            Some((x, k)) => var_prop(e.v()) == Some((x@, k@)),
            None => var_prop(e.v()) is None,
        },
{
    match &e.head {
        Head::Prop(k) => {
            if e.args.len() != 1 {
                return None;
            }
            assert(e.v().args[0] == e.args@[0].v());
            match &e.args[0].head {
                Head::Var(x) => Some((x, k)),
                _ => None,
            }
        },
        _ => None,
    }
}

/// An equality of a property of a variable, on either side, and the other side.
pub open spec fn prop_eq(e: ExprV) -> Option<(Seq<char>, Seq<char>, ExprV)> {
    if !ast::is_op(e, Op::Eq, 2) {
        None
    } else {
        match var_prop(e.args[0]) {
            Some((x, k)) => Some((x, k, e.args[1])),
            None => match var_prop(e.args[1]) {
                Some((x, k)) => Some((x, k, e.args[0])),
                None => None,
            },
        }
    }
}

/// An equality of a property of a variable, on either side, and the other side.
pub fn prop_eq_of(e: &Expr) -> (r: Option<(&String, &String, &Expr)>)
    ensures
        match r {
            Some((x, k, v)) => prop_eq(e.v()) == Some((x@, k@, v.v())),
            None => prop_eq(e.v()) is None,
        },
{
    if !matches!(e.head, Head::Op(Op::Eq)) || e.args.len() != 2 {
        return None;
    }
    assert(e.v().args[0] == e.args@[0].v());
    assert(e.v().args[1] == e.args@[1].v());
    match prop_of_var(&e.args[0]) {
        Some((x, k)) => Some((x, k, &e.args[1])),
        None => match prop_of_var(&e.args[1]) {
            Some((x, k)) => Some((x, k, &e.args[0])),
            None => None,
        },
    }
}

/// A node with a variable and one label, and nothing else.
pub open spec fn one_label(n: NodeV) -> Option<(Seq<char>, Seq<char>)> {
    match n.var {
        Some(x) => if n.labels.len() == 1 && n.props is None {
            Some((x, n.labels[0]))
        } else {
            None
        },
        None => None,
    }
}

fn own_label(n: &NodePattern) -> (r: Option<(&String, &String)>)
    ensures
        match r {
            Some((x, l)) => one_label(n.v()) == Some((x@, l@)),
            None => one_label(n.v()) is None,
        },
{
    match &n.var {
        Some(x) => {
            if n.labels.len() != 1 || n.props.is_some() {
                return None;
            }
            assert(n.v().labels[0] == n.labels@[0]@);
            Some((x, &n.labels[0]))
        },
        None => None,
    }
}

/// What a collected hierarchy looks at.
pub struct HierarchyV {
    pub a_label: Seq<char>,
    pub b_label: Seq<char>,
    pub types: Seq<Seq<char>>,
    /// The property that anchors, and what it equals at either end.
    pub prop: Seq<char>,
    pub a_val: ExprV,
    pub b_val: ExprV,
    /// The property that is collected, and the column it goes to.
    pub collected: Seq<char>,
    pub column: Seq<char>,
}

/// The property of a variable that an item collects.
pub open spec fn collects_prop(e: ExprV, x: Seq<char>) -> Option<Seq<char>> {
    match e.head {
        HeadV::Call(f) => if f.name == "collect"@ && !f.star && e.args.len() == 1 {
            match var_prop(e.args[0]) {
                Some((y, k)) => if y == x {
                    Some(k)
                } else {
                    None
                },
                None => None,
            }
        } else {
            None
        },
        _ => None,
    }
}

/// What a collected hierarchy looks at: nodes of a label that lead over any
/// number of relationships to a node of another, where one property is the same
/// at one end or the other, and a property of the first that is collected.
pub open spec fn hierarchy_of(p: PatternV, w: Option<ExprV>, items: Seq<ItemV>) -> Option<
    HierarchyV,
> {
    if p.paths.len() != 1 || p.paths[0].shortest || p.paths[0].hops.len() != 1 || items.len() != 1 {
        None
    } else {
        let path = p.paths[0];
        let rel = path.hops[0].0;
        if rel.dir != RelDir::Out || rel.var is Some || rel.props is Some || rel.types.len() == 0
            || !(rel.length matches Some(l) && l.min == Some(0u64)) {
            None
        } else {
            match (one_label(path.start), one_label(path.hops[0].1), w) {
                (Some((a, a_label)), Some((b, b_label)), Some(w)) => if !ast::is_op(w, Op::Or, 2) {
                    None
                } else {
                    match (
                        prop_eq(w.args[0]),
                        prop_eq(w.args[1]),
                        collects_prop(items[0].expr, a),
                    ) {
                        (Some((x, k, v)), Some((y, m, u)), Some(collected)) => if k != m {
                            None
                        } else if x == a && y == b {
                            Some(
                                HierarchyV {
                                    a_label,
                                    b_label,
                                    types: rel.types,
                                    prop: k,
                                    a_val: v,
                                    b_val: u,
                                    collected,
                                    column: query::column_of(items[0]),
                                },
                            )
                        } else if x == b && y == a {
                            Some(
                                HierarchyV {
                                    a_label,
                                    b_label,
                                    types: rel.types,
                                    prop: k,
                                    a_val: u,
                                    b_val: v,
                                    collected,
                                    column: query::column_of(items[0]),
                                },
                            )
                        } else {
                            None
                        },
                        _ => None,
                    }
                },
                _ => None,
            }
        }
    }
}

/// What a collected hierarchy looks at.
#[derive(Debug)]
pub struct Hierarchy {
    pub a_label: String,
    pub b_label: String,
    pub types: Vec<String>,
    pub prop: String,
    pub a_val: Expr,
    pub b_val: Expr,
    pub collected: String,
    pub column: String,
}

impl Hierarchy {
    pub open spec fn v(self) -> HierarchyV {
        HierarchyV {
            a_label: self.a_label@,
            b_label: self.b_label@,
            types: names::of(self.types@),
            prop: self.prop@,
            a_val: self.a_val.v(),
            b_val: self.b_val.v(),
            collected: self.collected@,
            column: self.column@,
        }
    }
}

/// What a hierarchy looks at, if there is one.
pub open spec fn hierarchy_opt(r: Option<Hierarchy>) -> Option<HierarchyV> {
    match r {
        Some(r) => Some(r.v()),
        None => None,
    }
}

fn collected_prop<'a>(e: &'a Expr, x: &String) -> (r: Option<&'a String>)
    ensures
        match r {
            Some(k) => collects_prop(e.v(), x@) == Some(k@),
            None => collects_prop(e.v(), x@) is None,
        },
{
    match &e.head {
        Head::Call(f) => {
            if f.name != "collect".to_owned() || f.star || e.args.len() != 1 {
                return None;
            }
            assert(e.v().args[0] == e.args@[0].v());
            match prop_of_var(&e.args[0]) {
                Some((y, k)) => if *y == *x {
                    Some(k)
                } else {
                    None
                },
                None => None,
            }
        },
        _ => None,
    }
}

/// What a collected hierarchy looks at.
pub fn try_anchored_hierarchy_prelude(p: &Pattern, w: &Option<Expr>, items: &Vec<ProjItem>) -> (r: Option<
    Hierarchy,
>)
    ensures
        hierarchy_opt(r) == hierarchy_of(p.v(), ast::opt_v(*w), query::items_v(items@)),
{
    if p.paths.len() != 1 || items.len() != 1 {
        return None;
    }
    let path = &p.paths[0];
    assert(p.v().paths[0] == path.v());
    assert(query::items_v(items@)[0] == items@[0].v());
    if path.shortest || path.hops.len() != 1 {
        return None;
    }
    let rel = &path.hops[0].0;
    assert(path.v().hops[0] == (path.hops@[0].0.v(), path.hops@[0].1.v()));
    if rel.dir != RelDir::Out || rel.var.is_some() || rel.props.is_some() || rel.types.len() == 0 {
        return None;
    }
    let from_none = match rel.length {
        Some(l) => match l.min {
            Some(n) => n == 0,
            None => false,
        },
        None => false,
    };
    if !from_none {
        return None;
    }
    match (own_label(&path.start), own_label(&path.hops[0].1), w) {
        (Some((a, a_label)), Some((b, b_label)), Some(w)) => {
            if !matches!(w.head, Head::Op(Op::Or)) || w.args.len() != 2 {
                return None;
            }
            assert(w.v().args[0] == w.args@[0].v());
            assert(w.v().args[1] == w.args@[1].v());
            match (
                prop_eq_of(&w.args[0]),
                prop_eq_of(&w.args[1]),
                collected_prop(&items[0].expr, a),
            ) {
                (Some((x, k, v)), Some((y, m, u)), Some(c)) => {
                    if *k != *m {
                        return None;
                    }
                    let (av, bv) = if *x == *a && *y == *b {
                        (v, u)
                    } else if *x == *b && *y == *a {
                        (u, v)
                    } else {
                        return None;
                    };
                    Some(
                        Hierarchy {
                            a_label: a_label.clone(),
                            b_label: b_label.clone(),
                            types: copy_names(&rel.types),
                            prop: k.clone(),
                            a_val: av.copy(),
                            b_val: bv.copy(),
                            collected: c.clone(),
                            column: items[0].column(),
                        },
                    )
                },
                _ => None,
            }
        },
        _ => None,
    }
}

} // verus!
