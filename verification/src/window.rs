//! A stage whose entries lie within a window of time.

use std::collections::BTreeMap;

use vstd::prelude::*;

use crate::ast;
use crate::ast::{conjuncts_of, Expr, ExprV, Head, HeadV, Op};
use crate::carry::{own_prop, prop_of};
use crate::chunk::{copy_kinds, DataChunk, RowV};
use crate::graph::{Dir, VarKind};
use crate::hop::{Hop, StepHop};
use crate::names;
use crate::names::{copy_names, has_name};
use crate::ordered::{is_lone, list_of, Msg};
use crate::preds;
use crate::preds::{WherePred, WhereV};
use crate::seqs;
use crate::table;
use crate::table::{chunk_of, push_row};

verus! {

broadcast use {vstd::std_specs::btree::group_btree_axioms, vstd::laws_cmp::group_laws_cmp};

/// How a time is bounded.
#[derive(Clone, Copy, Debug, PartialEq, Eq, Structural)]
pub enum DateOp {
    Ge,
    Gt,
    Le,
    Lt,
}

/// Whether a time keeps a bound.
pub open spec fn keeps(op: DateOp, d: i64, bound: i64) -> bool {
    match op {
        DateOp::Ge => d >= bound,
        DateOp::Gt => d > bound,
        DateOp::Le => d <= bound,
        DateOp::Lt => d < bound,
    }
}

/// The bound that a comparison sets on its left side.
pub open spec fn left_bound(op: Op) -> Option<DateOp> {
    match op {
        Op::Ge => Some(DateOp::Ge),
        Op::Gt => Some(DateOp::Gt),
        Op::Le => Some(DateOp::Le),
        Op::Lt => Some(DateOp::Lt),
        _ => None,
    }
}

/// The bound that a comparison sets on its right side.
pub open spec fn right_bound(op: Op) -> Option<DateOp> {
    match op {
        Op::Ge => Some(DateOp::Le),
        Op::Gt => Some(DateOp::Lt),
        Op::Le => Some(DateOp::Ge),
        Op::Lt => Some(DateOp::Gt),
        _ => None,
    }
}

/// The property of a variable that a condition bounds, how, and by what.
pub open spec fn bound_of(e: ExprV, x: Seq<char>) -> Option<(Seq<char>, DateOp, ExprV)> {
    match e.head {
        HeadV::Op(op) => if e.args.len() != 2 {
            None
        } else {
            match prop_of(e.args[0], x) {
                Some(k) => match left_bound(op) {
                    Some(b) => Some((k, b, e.args[1])),
                    None => None,
                },
                None => match prop_of(e.args[1], x) {
                    Some(k) => match right_bound(op) {
                        Some(b) => Some((k, b, e.args[0])),
                        None => None,
                    },
                    None => None,
                },
            }
        },
        _ => None,
    }
}

/// A bound on a property.
#[derive(Debug)]
pub struct DateBound {
    pub prop: String,
    pub op: DateOp,
    pub by: Expr,
}

/// Bounds on properties.
pub open spec fn bounds_v(s: Seq<DateBound>) -> Seq<(Seq<char>, DateOp, ExprV)> {
    s.map_values(|b: DateBound| (b.prop@, b.op, b.by.v()))
}

fn left_op(op: Op) -> (r: Option<DateOp>)
    ensures
        r == left_bound(op),
{
    match op {
        Op::Ge => Some(DateOp::Ge),
        Op::Gt => Some(DateOp::Gt),
        Op::Le => Some(DateOp::Le),
        Op::Lt => Some(DateOp::Lt),
        _ => None,
    }
}

fn right_op(op: Op) -> (r: Option<DateOp>)
    ensures
        r == right_bound(op),
{
    match op {
        Op::Ge => Some(DateOp::Le),
        Op::Gt => Some(DateOp::Lt),
        Op::Le => Some(DateOp::Ge),
        Op::Lt => Some(DateOp::Gt),
        _ => None,
    }
}

/// The property of a variable that a condition bounds, how, and by what.
pub fn date_bound(e: &Expr, x: &String) -> (r: Option<DateBound>)
    ensures
        match r {
            Some(b) => bound_of(e.v(), x@) == Some((b.prop@, b.op, b.by.v())),
            None => bound_of(e.v(), x@) is None,
        },
{
    match &e.head {
        Head::Op(op) => {
            if e.args.len() != 2 {
                return None;
            }
            assert(e.v().args[0] == e.args@[0].v());
            assert(e.v().args[1] == e.args@[1].v());
            match own_prop(&e.args[0], x) {
                Some(k) => match left_op(*op) {
                    Some(b) => Some(DateBound { prop: k.clone(), op: b, by: e.args[1].copy() }),
                    None => None,
                },
                None => match own_prop(&e.args[1], x) {
                    Some(k) => match right_op(*op) {
                        Some(b) => Some(
                            DateBound { prop: k.clone(), op: b, by: e.args[0].copy() },
                        ),
                        None => None,
                    },
                    None => None,
                },
            }
        },
        _ => None,
    }
}

/// The conjuncts of the conditions on a variable, in order.
pub open spec fn own_conjuncts(ws: Seq<WhereV>, x: Seq<char>, n: nat) -> Seq<ExprV>
    decreases n,
{
    if n == 0 {
        Seq::empty()
    } else {
        let s = own_conjuncts(ws, x, (n - 1) as nat);
        if ws[n - 1].var == x {
            s + ast::conjuncts(ws[n - 1].expr)
        } else {
            s
        }
    }
}

/// What a stage within a window looks at: the bounds, and the other conditions.
pub struct WindowV {
    pub bounds: Seq<(Seq<char>, DateOp, ExprV)>,
    pub others: Seq<WhereV>,
}

/// Whether a hop has a fixed length, binds no relationship and closes onto
/// nothing.
pub open spec fn bare_hop(h: StepHop) -> bool {
    h.varlen is None && h.rel_var is None && h.tgt is None
}

/// Whether a hop takes no relationship of a type that the hop before it may have
/// taken: it starts a path of its own, or names other types.
pub open spec fn leaves_alone(h: StepHop, typ: Seq<char>) -> bool {
    h.reset || !h.track || (h.types.len() > 0 && !h.types.contains(typ))
}

/// What a stage looks at that reads the entries of bound owners within a window
/// and then takes one more hop. Every condition on an entry is a bound on one
/// property.
pub open spec fn window_of(hops: Seq<StepHop>, ws: Seq<WhereV>, width: int) -> Option<WindowV> {
    if hops.len() != 2 || hops[0].types != seq!["HAS_CREATOR"@] || hops[0].dir != Dir::In
        || !bare_hop(hops[0]) || !bare_hop(hops[1]) || hops[0].src >= width || hops[1].src != width
        || !leaves_alone(hops[1], "HAS_CREATOR"@) {
        None
    } else {
        let x = hops[0].var;
        let cs = own_conjuncts(ws, x, ws.len());
        match seqs::try_map(cs, |c: ExprV| bound_of(c, x)) {
            Some(bounds) => if bounds.len() > 0 && forall|i: int|
                0 <= i < bounds.len() ==> (#[trigger] bounds[i]).0 == bounds[0].0 {
                Some(WindowV { bounds, others: ws.filter(|w: WhereV| w.var != x) })
            } else {
                None
            },
            None => None,
        }
    }
}

/// What a stage within a window looks at.
#[derive(Debug)]
pub struct Window {
    pub bounds: Vec<DateBound>,
    pub others: Vec<WherePred>,
}

/// What a stage looks at, if it is within a window.
pub open spec fn window_opt(r: Option<Window>) -> Option<WindowV> {
    match r {
        Some(w) => Some(
            WindowV { bounds: bounds_v(w.bounds@), others: preds::wheres_v(w.others@) },
        ),
        None => None,
    }
}

fn is_bare(h: &Hop) -> (b: bool)
    ensures
        b == bare_hop(h.v()),
{
    h.varlen.is_none() && h.rel_var.is_none() && h.tgt.is_none()
}

fn gather_conjuncts<'a>(ws: &'a Vec<WherePred>, x: &String) -> (r: Vec<&'a Expr>)
    ensures
        r@.map_values(|e: &Expr| e.v()) == own_conjuncts(preds::wheres_v(ws@), x@, ws@.len()),
{
    let ghost wv = preds::wheres_v(ws@);
    let ghost f = |e: &Expr| e.v();
    let mut r: Vec<&'a Expr> = Vec::new();
    let mut i: usize = 0;
    assert(r@.map_values(f) =~= Seq::empty());
    while i < ws.len()
        invariant
            i <= ws@.len(),
            wv == preds::wheres_v(ws@),
            f == (|e: &Expr| e.v()),
            r@.map_values(f) == own_conjuncts(wv, x@, i as nat),
        decreases ws.len() - i,
    {
        assert(wv[i as int] == ws@[i as int].v());
        if ws[i].var == *x {
            conjuncts_of(&ws[i].expr, &mut r);
        }
        i = i + 1;
    }
    r
}

fn other_wheres(ws: &Vec<WherePred>, x: &String) -> (r: Vec<WherePred>)
    ensures
        preds::wheres_v(r@) == preds::wheres_v(ws@).filter(|w: WhereV| w.var != x@),
{
    let ghost wv = preds::wheres_v(ws@);
    let ghost f = |w: WhereV| w.var != x@;
    let mut r: Vec<WherePred> = Vec::new();
    let mut i: usize = 0;
    proof {
        assert(wv.take(0) =~= Seq::empty());
        seqs::lemma_filter_empty(f);
        assert(preds::wheres_v(r@) =~= Seq::empty());
    }
    while i < ws.len()
        invariant
            i <= ws@.len(),
            wv == preds::wheres_v(ws@),
            f == (|w: WhereV| w.var != x@),
            preds::wheres_v(r@) == wv.take(i as int).filter(f),
        decreases ws.len() - i,
    {
        let ghost r0 = r@;
        proof {
            assert(wv[i as int] == ws@[i as int].v());
            seqs::lemma_take_last(wv, i as int);
            seqs::lemma_filter_last(wv.take(i + 1), f);
        }
        if ws[i].var != *x {
            assert(f(wv[i as int]));
            let w = ws[i].copy();
            r.push(w);
            assert(preds::wheres_v(r@) =~= preds::wheres_v(r0).push(w.v()));
        } else {
            assert(!f(wv[i as int]));
        }
        i = i + 1;
    }
    assert(wv.take(i as int) =~= wv);
    r
}

fn gather_bounds(cs: &Vec<&Expr>, x: &String) -> (r: Option<Vec<DateBound>>)
    ensures
        match seqs::try_map(
            cs@.map_values(|e: &Expr| e.v()),
            |c: ExprV| bound_of(c, x@),
        ) {
            Some(bs) => r matches Some(v) && bounds_v(v@) == bs,
            None => r is None,
        },
{
    let ghost cv = cs@.map_values(|e: &Expr| e.v());
    let ghost f = |c: ExprV| bound_of(c, x@);
    let mut r: Vec<DateBound> = Vec::new();
    let mut i: usize = 0;
    while i < cs.len()
        invariant
            i <= cs@.len(),
            cv == cs@.map_values(|e: &Expr| e.v()),
            f == (|c: ExprV| bound_of(c, x@)),
            forall|j: int| 0 <= j < i ==> f(#[trigger] cv[j]) is Some,
            r@.len() == i,
            forall|j: int|
                0 <= j < i ==> f(cv[j]) == Some(
                    ((#[trigger] r@[j]).prop@, r@[j].op, r@[j].by.v()),
                ),
        decreases cs.len() - i,
    {
        assert(cv[i as int] == cs@[i as int].v());
        match date_bound(cs[i], x) {
            Some(b) => {
                r.push(b);
            },
            None => {
                assert(f(cv[i as int]) is None);
                return None;
            },
        }
        i = i + 1;
    }
    proof {
        assert(seqs::try_map(cv, f) == Some(cv.map_values(|a: ExprV| f(a)->0)));
        assert forall|j: int| 0 <= j < cv.len() implies #[trigger] bounds_v(r@)[j] == f(cv[j])->0 by {
            assert(f(cv[j]) == Some((r@[j].prop@, r@[j].op, r@[j].by.v())));
        }
        assert(bounds_v(r@) =~= cv.map_values(|a: ExprV| f(a)->0));
    }
    Some(r)
}

/// What a stage looks at that reads the entries of bound owners within a window
/// and then takes one more hop.
pub fn try_ic3_datewindow(hops: &Vec<Hop>, ws: &Vec<WherePred>, width: usize) -> (r: Option<Window>)
    ensures
        window_opt(r) == window_of(
            crate::hop::steps_v(hops@),
            preds::wheres_v(ws@),
            width as int,
        ),
{
    if hops.len() != 2 {
        return None;
    }
    let a = &hops[0];
    let b = &hops[1];
    assert(crate::hop::steps_v(hops@)[0] == a.v());
    assert(crate::hop::steps_v(hops@)[1] == b.v());
    if !is_lone(&a.types, &"HAS_CREATOR".to_owned()) || a.dir != Dir::In || !is_bare(a) || !is_bare(b)
        || a.src >= width || b.src != width {
        return None;
    }
    if !b.reset && b.track && (b.types.len() == 0 || has_name(&b.types, &"HAS_CREATOR".to_owned())) {
        return None;
    }
    let cs = gather_conjuncts(ws, &a.var);
    let bounds = match gather_bounds(&cs, &a.var) {
        Some(b) => b,
        None => {
            return None;
        },
    };
    let ghost bv = bounds_v(bounds@);
    if bounds.len() == 0 {
        assert(bv.len() == 0);
        return None;
    }
    let mut i: usize = 0;
    while i < bounds.len()
        invariant
            i <= bounds@.len(),
            bounds@.len() > 0,
            bv == bounds_v(bounds@),
            crate::hop::steps_v(hops@).len() == 2,
            seqs::try_map(
                own_conjuncts(
                    preds::wheres_v(ws@),
                    crate::hop::steps_v(hops@)[0].var,
                    ws@.len(),
                ),
                |c: ExprV| bound_of(c, crate::hop::steps_v(hops@)[0].var),
            ) == Some(bv),
            forall|j: int| 0 <= j < i ==> (#[trigger] bv[j]).0 == bv[0].0,
        decreases bounds.len() - i,
    {
        assert(bv[i as int].0 == bounds@[i as int].prop@);
        assert(bv[0].0 == bounds@[0].prop@);
        if bounds[i].prop != bounds[0].prop {
            assert(bv[i as int].0 != bv[0].0);
            return None;
        }
        i = i + 1;
    }
    let others = other_wheres(ws, &a.var);
    Some(Window { bounds, others })
}

/// A window: its lower and its upper end, each of which may belong to it.
#[derive(Clone, Copy, Debug, PartialEq, Eq, Structural)]
pub struct Span {
    pub lo: i64,
    pub lo_in: bool,
    pub hi: i64,
    pub hi_in: bool,
}

/// Whether a time lies within a window.
pub open spec fn within(s: Span, d: i64) -> bool {
    (if s.lo_in {
        d >= s.lo
    } else {
        d > s.lo
    }) && (if s.hi_in {
        d <= s.hi
    } else {
        d < s.hi
    })
}

/// Whether a bound is a lower one.
pub open spec fn is_lower(op: DateOp) -> bool {
    op is Ge || op is Gt
}

/// Whether a time keeps the first `n` bounds.
pub open spec fn keeps_all(ops: Seq<DateOp>, vals: Seq<Option<i64>>, d: i64, n: int) -> bool {
    forall|i: int| 0 <= i < n ==> keeps(#[trigger] ops[i], d, vals[i]->0)
}

/// Whether bounds make a window: all are numbers, and there are some on either
/// side.
pub open spec fn bounded(ops: Seq<DateOp>, vals: Seq<Option<i64>>) -> bool {
    &&& forall|i: int| 0 <= i < vals.len() ==> (#[trigger] vals[i]) is Some
    &&& exists|i: int| 0 <= i < ops.len() && is_lower(#[trigger] ops[i])
    &&& exists|i: int| 0 <= i < ops.len() && !is_lower(#[trigger] ops[i])
}

/// Whether an end of a window says what the first `n` bounds on that side say.
spec fn low_end(lo: Option<(i64, bool)>, ops: Seq<DateOp>, vals: Seq<Option<i64>>, n: int) -> bool {
    forall|d: i64|
        #![trigger above(lo, d)]
        above(lo, d) <==> forall|i: int|
            0 <= i < n && is_lower(ops[i]) ==> keeps(#[trigger] ops[i], d, vals[i]->0)
}

spec fn above(lo: Option<(i64, bool)>, d: i64) -> bool {
    match lo {
        Some((x, own)) => if own {
            d >= x
        } else {
            d > x
        },
        None => true,
    }
}

spec fn high_end(hi: Option<(i64, bool)>, ops: Seq<DateOp>, vals: Seq<Option<i64>>, n: int) -> bool {
    forall|d: i64|
        #![trigger below(hi, d)]
        below(hi, d) <==> forall|i: int|
            0 <= i < n && !is_lower(ops[i]) ==> keeps(#[trigger] ops[i], d, vals[i]->0)
}

spec fn below(hi: Option<(i64, bool)>, d: i64) -> bool {
    match hi {
        Some((x, own)) => if own {
            d <= x
        } else {
            d < x
        },
        None => true,
    }
}

/// The tighter of two lower ends.
fn tighter_low(lo: Option<(i64, bool)>, x: i64, own: bool) -> (r: (i64, bool))
    ensures
        forall|d: i64|
            #![trigger above(Some(r), d)]
            above(Some(r), d) <==> above(lo, d) && above(Some((x, own)), d),
{
    match lo {
        Some((y, other)) => if y > x {
            (y, other)
        } else if x > y {
            (x, own)
        } else {
            (x, own && other)
        },
        None => (x, own),
    }
}

/// The tighter of two upper ends.
fn tighter_high(hi: Option<(i64, bool)>, x: i64, own: bool) -> (r: (i64, bool))
    ensures
        forall|d: i64|
            #![trigger below(Some(r), d)]
            below(Some(r), d) <==> below(hi, d) && below(Some((x, own)), d),
{
    match hi {
        Some((y, other)) => if y < x {
            (y, other)
        } else if x < y {
            (x, own)
        } else {
            (x, own && other)
        },
        None => (x, own),
    }
}

/// The window that bounds make together; none unless all are numbers and there
/// are some on either side.
pub fn span_of(ops: &Vec<DateOp>, vals: &Vec<Option<i64>>) -> (r: Option<Span>)
    requires
        ops@.len() == vals@.len(),
    ensures
        match r {
            Some(s) => bounded(ops@, vals@) && forall|d: i64| #[trigger]
                within(s, d) <==> keeps_all(ops@, vals@, d, ops@.len() as int),
            None => !bounded(ops@, vals@),
        },
{
    let mut lo: Option<(i64, bool)> = None;
    let mut hi: Option<(i64, bool)> = None;
    let mut i: usize = 0;
    while i < ops.len()
        invariant
            i <= ops@.len() == vals@.len(),
            forall|j: int| 0 <= j < i ==> (#[trigger] vals@[j]) is Some,
            lo is Some <==> exists|j: int| 0 <= j < i && is_lower(#[trigger] ops@[j]),
            hi is Some <==> exists|j: int| 0 <= j < i && !is_lower(#[trigger] ops@[j]),
            low_end(lo, ops@, vals@, i as int),
            high_end(hi, ops@, vals@, i as int),
        decreases ops.len() - i,
    {
        let ghost lo0 = lo;
        let ghost hi0 = hi;
        let op = ops[i];
        match vals[i] {
            Some(x) => {
                match op {
                    DateOp::Ge => {
                        lo = Some(tighter_low(lo, x, true));
                    },
                    DateOp::Gt => {
                        lo = Some(tighter_low(lo, x, false));
                    },
                    DateOp::Le => {
                        hi = Some(tighter_high(hi, x, true));
                    },
                    DateOp::Lt => {
                        hi = Some(tighter_high(hi, x, false));
                    },
                }
                proof {
                    assert(is_lower(ops@[i as int]) || !is_lower(ops@[i as int]));
                    assert forall|d: i64|
                        #![trigger above(lo, d)]
                        above(lo, d) <==> forall|j: int|
                            0 <= j < i + 1 && is_lower(ops@[j]) ==> keeps(
                                #[trigger] ops@[j],
                                d,
                                vals@[j]->0,
                            ) by {
                        assert(above(lo0, d) <==> forall|j: int|
                            0 <= j < i && is_lower(ops@[j]) ==> keeps(
                                #[trigger] ops@[j],
                                d,
                                vals@[j]->0,
                            ));
                        assert(above(Some((x, op is Ge)), d) <==> keeps(
                            if op is Ge {
                                DateOp::Ge
                            } else {
                                DateOp::Gt
                            },
                            d,
                            x,
                        ));
                    }
                    assert forall|d: i64|
                        #![trigger below(hi, d)]
                        below(hi, d) <==> forall|j: int|
                            0 <= j < i + 1 && !is_lower(ops@[j]) ==> keeps(
                                #[trigger] ops@[j],
                                d,
                                vals@[j]->0,
                            ) by {
                        assert(below(hi0, d) <==> forall|j: int|
                            0 <= j < i && !is_lower(ops@[j]) ==> keeps(
                                #[trigger] ops@[j],
                                d,
                                vals@[j]->0,
                            ));
                        assert(below(Some((x, op is Le)), d) <==> keeps(
                            if op is Le {
                                DateOp::Le
                            } else {
                                DateOp::Lt
                            },
                            d,
                            x,
                        ));
                    }
                }
            },
            None => {
                return None;
            },
        }
        i = i + 1;
    }
    match (lo, hi) {
        (Some((l, li)), Some((h, hi_in))) => {
            let s = Span { lo: l, lo_in: li, hi: h, hi_in };
            proof {
                assert forall|d: i64| #[trigger] within(s, d) <==> keeps_all(
                    ops@,
                    vals@,
                    d,
                    ops@.len() as int,
                ) by {
                    assert(within(s, d) <==> above(lo, d) && below(hi, d));
                    if above(lo, d) && below(hi, d) {
                        assert forall|j: int| 0 <= j < ops@.len() implies keeps(
                            #[trigger] ops@[j],
                            d,
                            vals@[j]->0,
                        ) by {
                            assert(is_lower(ops@[j]) || !is_lower(ops@[j]));
                        }
                    }
                }
            }
            Some(s)
        },
        _ => None,
    }
}

/// The rows of an owner's entries within a window.
pub open spec fn window_row(index: Map<u64, Vec<Msg>>, vi: int, s: Span, row: RowV) -> Seq<Seq<u64>> {
    seqs::keep_map(
        list_of(index, row.ids[vi]),
        |m: Msg| within(s, m.date),
        |m: Msg| row.ids.push(m.node),
    )
}

/// The rows of owners' entries within a window, row by row.
pub open spec fn window_rows(
    index: Map<u64, Vec<Msg>>,
    vi: int,
    s: Span,
    rows: Seq<RowV>,
) -> Seq<Seq<u64>>
    decreases rows.len(),
{
    if rows.len() == 0 {
        Seq::empty()
    } else {
        window_rows(index, vi, s, rows.drop_last()) + window_row(index, vi, s, rows.last())
    }
}

fn lies_within(s: &Span, d: i64) -> (b: bool)
    ensures
        b == within(*s, d),
{
    let low = if s.lo_in {
        d >= s.lo
    } else {
        d > s.lo
    };
    let high = if s.hi_in {
        d <= s.hi
    } else {
        d < s.hi
    };
    low && high
}

/// Binds each owner's entries within a window.
pub fn window_chunk(
    index: &BTreeMap<u64, Vec<Msg>>,
    driving: &DataChunk,
    vi: usize,
    s: &Span,
    var: &String,
) -> (r: DataChunk)
    requires
        driving.wf(),
        vi < driving.ids@.len(),
    ensures
        r.wf(),
        r.live_view() == table::plain_rows(
            window_rows(index@, vi as int, *s, driving.live_view()),
        ),
        names::of(r.vars@) == names::of(driving.vars@).push(var@),
        r.var_kinds@ == driving.var_kinds@.push(VarKind::Node),
{
    let ghost live = driving.live_view();
    let width = driving.ids.len();
    let mut cols: Vec<Vec<u64>> = Vec::new();
    let mut w: usize = 0;
    while w < width
        invariant
            w <= width,
            cols@.len() == w,
            forall|k: int| 0 <= k < w ==> (#[trigger] cols@[k])@.len() == 0,
        decreases width - w,
    {
        cols.push(Vec::new());
        w = w + 1;
    }
    cols.push(Vec::new());
    let mut k: usize = 0;
    proof {
        assert(live.take(0) =~= Seq::empty());
        assert(table::rows_of(cols@) =~= Seq::empty());
    }
    while k < driving.selection.len()
        invariant
            k <= driving.selection@.len(),
            driving.wf(),
            vi < driving.ids@.len(),
            live == driving.live_view(),
            cols@.len() == driving.ids@.len() + 1,
            table::aligned(cols@),
            table::rows_of(cols@) == window_rows(index@, vi as int, *s, live.take(k as int)),
        decreases driving.selection.len() - k,
    {
        let r = driving.selection[k];
        assert(driving.selection@[k as int] < driving.rows());
        let ids = driving.row_ids(r);
        let ghost row = driving.row(r as int);
        proof {
            seqs::lemma_take_last(live, k as int);
            assert(live[k as int] == row);
        }
        let ghost before = table::rows_of(cols@);
        let ghost list = list_of(index@, row.ids[vi as int]);
        let ghost keep = |m: Msg| within(*s, m.date);
        let ghost make = |m: Msg| row.ids.push(m.node);
        proof {
            seqs::lemma_keep_map_empty(list, keep, make);
            assert(before + seqs::keep_map(list.take(0), keep, make) =~= before);
        }
        match index.get(&ids[vi]) {
            Some(ms) => {
                let mut j: usize = 0;
                while j < ms.len()
                    invariant
                        j <= ms@.len(),
                        list == ms@,
                        ids@ == row.ids,
                        ids@.len() == driving.ids@.len(),
                        keep == (|m: Msg| within(*s, m.date)),
                        make == (|m: Msg| row.ids.push(m.node)),
                        cols@.len() == driving.ids@.len() + 1,
                        table::aligned(cols@),
                        table::rows_of(cols@) == before + seqs::keep_map(
                            list.take(j as int),
                            keep,
                            make,
                        ),
                    decreases ms.len() - j,
                {
                    proof {
                        seqs::lemma_keep_map_take(list, j as int, keep, make);
                    }
                    if lies_within(s, ms[j].date) {
                        assert(keep(list[j as int]));
                        let mut next = names::copy_ids(&ids);
                        next.push(ms[j].node);
                        push_row(&mut cols, &next);
                        assert(table::rows_of(cols@) =~= before + seqs::keep_map(
                            list.take(j as int),
                            keep,
                            make,
                        ).push(make(list[j as int])));
                    } else {
                        assert(!keep(list[j as int]));
                    }
                    j = j + 1;
                }
                assert(list.take(j as int) =~= list);
            },
            None => {
                assert(list.take(0) =~= list);
            },
        }
        k = k + 1;
    }
    assert(live.take(k as int) =~= live);
    let mut vars = copy_names(&driving.vars);
    vars.push(var.clone());
    let mut kinds = copy_kinds(&driving.var_kinds);
    kinds.push(VarKind::Node);
    assert(names::of(vars@) =~= names::of(driving.vars@).push(var@));
    chunk_of(vars, kinds, cols)
}

} // verus!
