//! Projections that are folded into the one that follows them.

use vstd::prelude::*;

use crate::ast;
use crate::ast::{Expr, ExprV, Head, HeadV};
use crate::carry::{breaker_tail, build_breaker_tail, build_return_tail, carry_of, pipeline_carry, recognise_scan, return_tail, scan_of, stage_tail_opt, StageTail, StageTailV};
use crate::chain::{Allow, Prebound};
use crate::graph::VarKind;
use crate::hop;
use crate::hop::Hop;
use crate::join_plan::anchor_allow;
use crate::multistage::{as_match, as_return, as_with, get_match, get_return, get_with, multi_opt, MultiStagePlan, MultiV};
use crate::names;
use crate::names::copy_names;
use crate::plan::{aggregate_over_chain, aggregate_plan, varlen_distinct_consumed, varlen_ok};
use crate::preds;
use crate::preds::{Chain, ChainV, WherePred};
use crate::query;
use crate::query::{items_aggregate, Clause, ClauseV, ItemV, ProjItem, ProjV, Projection, SingleQuery};
use crate::seqs;

verus! {

/// What names stand for.
#[derive(Debug)]
pub struct ExprMap {
    /// What was learnt, in order; a later entry replaces an earlier one.
    pub entries: Vec<(String, Expr)>,
}

/// What a series of entries leaves known.
pub open spec fn defined_by(s: Seq<(String, Expr)>) -> Map<Seq<char>, ExprV>
    decreases s.len(),
{
    if s.len() == 0 {
        Map::empty()
    } else {
        defined_by(s.drop_last()).insert(s.last().0@, s.last().1.v())
    }
}

proof fn lemma_last_definition(s: Seq<(String, Expr)>, x: Seq<char>, n: int)
    requires
        0 <= n <= s.len(),
        forall|j: int| n <= j < s.len() ==> (#[trigger] s[j]).0@ != x,
    ensures
        defined_by(s).contains_key(x) <==> defined_by(s.take(n)).contains_key(x),
        defined_by(s).contains_key(x) ==> defined_by(s)[x] == defined_by(s.take(n))[x],
    decreases s.len() - n,
{
    if n == s.len() {
        assert(s.take(n) =~= s);
    } else {
        lemma_last_definition(s, x, n + 1);
        seqs::lemma_take_last(s, n);
    }
}

impl ExprMap {
    pub open spec fn v(self) -> Map<Seq<char>, ExprV> {
        defined_by(self.entries@)
    }

    /// Nothing known.
    pub fn new() -> (r: ExprMap)
        ensures
            r.v() == Map::<Seq<char>, ExprV>::empty(),
    {
        ExprMap { entries: Vec::new() }
    }

    /// Learns what a name stands for.
    pub fn learn(&mut self, x: String, e: Expr)
        ensures
            final(self).v() == old(self).v().insert(x@, e.v()),
    {
        let ghost before = self.entries@;
        self.entries.push((x, e));
        assert(self.entries@.drop_last() =~= before);
    }

    /// What a name stands for.
    pub fn get(&self, x: &String) -> (r: Option<&Expr>)
        ensures
            match r {
                Some(e) => self.v().contains_key(x@) && self.v()[x@] == e.v(),
                None => !self.v().contains_key(x@),
            },
    {
        let mut i: usize = self.entries.len();
        while i > 0
            invariant
                i <= self.entries@.len(),
                forall|j: int| i <= j < self.entries@.len() ==> (#[trigger] self.entries@[j]).0@ != x@,
            decreases i,
        {
            if self.entries[i - 1].0 == *x {
                proof {
                    lemma_last_definition(self.entries@, x@, i as int);
                    seqs::lemma_take_last(self.entries@, i - 1);
                }
                return Some(&self.entries[i - 1].1);
            }
            i = i - 1;
        }
        proof {
            lemma_last_definition(self.entries@, x@, 0);
            assert(self.entries@.take(0) =~= Seq::empty());
        }
        None
    }
}

/// An expression with each name replaced by what it stands for. A form that
/// binds names of its own stays as it is.
pub open spec fn subst(e: ExprV, m: Map<Seq<char>, ExprV>) -> ExprV
    decreases e,
{
    match e.head {
        HeadV::Var(x) => if m.contains_key(x) {
            m[x]
        } else {
            e
        },
        HeadV::Pattern(_) => e,
        HeadV::Opaque(_) => e,
        _ => ExprV {
            head: e.head,
            args: Seq::new(
                e.args.len(),
                |i: int|
                    if 0 <= i < e.args.len() {
                        subst(e.args[i], m)
                    } else {
                        arbitrary()
                    },
            ),
        },
    }
}

/// An expression with each name replaced by what it stands for.
pub fn substitute_aliases(e: &Expr, m: &ExprMap) -> (r: Expr)
    ensures
        r.v() == subst(e.v(), m.v()),
    decreases e,
{
    match &e.head {
        Head::Var(x) => match m.get(x) {
            Some(d) => d.copy(),
            None => e.copy(),
        },
        Head::Pattern(_) => e.copy(),
        Head::Opaque(_) => e.copy(),
        _ => {
            let mut args: Vec<Expr> = Vec::new();
            let mut i: usize = 0;
            while i < e.args.len()
                invariant
                    i <= e.args@.len(),
                    args@.len() == i,
                    forall|j: int|
                        0 <= j < i ==> (#[trigger] args@[j]).v() == subst(e.args@[j].v(), m.v()),
                decreases e.args.len() - i,
            {
                let a = substitute_aliases(&e.args[i], m);
                args.push(a);
                i = i + 1;
            }
            let r = Expr { head: e.head.copy(), args };
            assert(r.v().args =~= subst(e.v(), m.v()).args);
            r
        },
    }
}

proof fn lemma_subst_args(e: ExprV, m: Map<Seq<char>, ExprV>)
    requires
        forall|i: int| 0 <= i < e.args.len() ==> subst(#[trigger] e.args[i], m) == e.args[i],
        !(e.head is Var),
    ensures
        subst(e, m) == e,
{
    assert(subst(e, m).args =~= e.args);
}

/// Replacing names that an expression does not read changes nothing.
pub proof fn law_subst_unread(e: ExprV, m: Map<Seq<char>, ExprV>)
    requires
        forall|x: Seq<char>| #[trigger] m.contains_key(x) ==> !ast::reads(e, x),
    ensures
        subst(e, m) == e,
    decreases e,
{
    match e.head {
        HeadV::Var(x) => {
            assert(ast::reads(e, x));
        },
        _ => {
            assert forall|i: int| 0 <= i < e.args.len() implies subst(#[trigger] e.args[i], m)
                == e.args[i] by {
                assert forall|x: Seq<char>| #[trigger] m.contains_key(x) implies !ast::reads(
                    e.args[i],
                    x,
                ) by {
                    assert(!ast::reads(e, x));
                }
                law_subst_unread(e.args[i], m);
            }
            lemma_subst_args(e, m);
        },
    }
}

/// What names stand for after the first `n` items. Every item reads what names
/// stood for before the clause.
pub open spec fn define_items(m: Map<Seq<char>, ExprV>, items: Seq<ItemV>, n: nat) -> Map<
    Seq<char>,
    ExprV,
>
    decreases n,
{
    if n == 0 {
        m
    } else {
        define_items(m, items, (n - 1) as nat).insert(
            query::column_of(items[n - 1]),
            subst(items[n - 1].expr, m),
        )
    }
}

/// Whether a projection turns each row into one row.
pub open spec fn row_wise(p: ProjV) -> bool {
    !p.distinct && !p.star && p.order.len() == 0 && p.skip is None && p.limit is None && p.items.len()
        > 0 && !query::any_aggregate(p.items)
}

/// What names stand for after a clause, if it is a projection that turns each
/// row into one row.
pub open spec fn define_clause(m: Map<Seq<char>, ExprV>, c: ClauseV) -> Option<
    Map<Seq<char>, ExprV>,
> {
    match as_with(c) {
        Some((p, None)) => if row_wise(p) {
            Some(define_items(m, p.items, p.items.len()))
        } else {
            None
        },
        _ => None,
    }
}

/// What names stand for after clauses.
pub open spec fn define_all(cs: Seq<ClauseV>) -> Option<Map<Seq<char>, ExprV>>
    decreases cs.len(),
{
    if cs.len() == 0 {
        Some(Map::empty())
    } else {
        match define_all(cs.drop_last()) {
            Some(m) => define_clause(m, cs.last()),
            None => None,
        }
    }
}

/// A projection with each name replaced by what it stands for.
pub open spec fn fused(p: ProjV, m: Map<Seq<char>, ExprV>) -> ProjV {
    ProjV { items: p.items.map_values(|it: ItemV| ItemV { expr: subst(it.expr, m), ..it }), ..p }
}

fn is_row_wise(p: &Projection) -> (b: bool)
    ensures
        b == row_wise(p.v()),
{
    !p.distinct && !p.star && p.order.len() == 0 && p.skip.is_none() && p.limit.is_none()
        && p.items.len() > 0 && !items_aggregate(p)
}

/// What each item of a projection stands for.
fn item_defs(m: &ExprMap, p: &Projection) -> (r: Vec<Expr>)
    ensures
        r@.len() == p.items@.len(),
        forall|j: int| 0 <= j < r@.len() ==> (#[trigger] r@[j]).v() == subst(p.v().items[j].expr, m.v()),
{
    let mut r: Vec<Expr> = Vec::new();
    let mut i: usize = 0;
    while i < p.items.len()
        invariant
            i <= p.items@.len(),
            r@.len() == i,
            forall|j: int|
                0 <= j < i ==> (#[trigger] r@[j]).v() == subst(p.v().items[j].expr, m.v()),
        decreases p.items.len() - i,
    {
        assert(p.v().items[i as int] == p.items@[i as int].v());
        let d = substitute_aliases(&p.items[i].expr, m);
        r.push(d);
        i = i + 1;
    }
    r
}

fn learn_items(m: &mut ExprMap, p: &Projection)
    ensures
        final(m).v() == define_items(old(m).v(), p.v().items, p.v().items.len()),
{
    let ghost m0 = m.v();
    let defs = item_defs(m, p);
    let mut i: usize = 0;
    while i < p.items.len()
        invariant
            i <= p.items@.len(),
            defs@.len() == p.items@.len(),
            forall|j: int|
                0 <= j < defs@.len() ==> (#[trigger] defs@[j]).v() == subst(p.v().items[j].expr, m0),
            m.v() == define_items(m0, p.v().items, i as nat),
        decreases p.items.len() - i,
    {
        assert(p.v().items[i as int] == p.items@[i as int].v());
        let x = p.items[i].column();
        m.learn(x, defs[i].copy());
        i = i + 1;
    }
}

proof fn lemma_define_none(cs: Seq<ClauseV>, n: int)
    requires
        0 <= n <= cs.len(),
        define_all(cs.take(n)) is None,
    ensures
        define_all(cs) is None,
    decreases cs.len() - n,
{
    if n == cs.len() {
        assert(cs.take(n) =~= cs);
    } else {
        seqs::lemma_take_last(cs, n);
        lemma_define_none(cs, n + 1);
    }
}

fn learn_clauses(cs: &Vec<Clause>, from: usize, to: usize) -> (r: Option<ExprMap>)
    requires
        from <= to <= cs@.len(),
    ensures
        match r {
            Some(m) => define_all(query::clauses_v(cs@).subrange(from as int, to as int)) == Some(
                m.v(),
            ),
            None => define_all(query::clauses_v(cs@).subrange(from as int, to as int)) is None,
        },
{
    let ghost all = query::clauses_v(cs@).subrange(from as int, to as int);
    let mut m = ExprMap::new();
    let mut i: usize = from;
    assert(all.take(0) =~= Seq::empty());
    while i < to
        invariant
            from <= i <= to <= cs@.len(),
            all == query::clauses_v(cs@).subrange(from as int, to as int),
            define_all(all.take(i - from)) == Some(m.v()),
        decreases to - i,
    {
        proof {
            seqs::lemma_take_last(all, i - from);
            assert(all[i - from] == cs@[i as int].v());
        }
        let ok = match get_with(&cs[i]) {
            Some((p, None)) => {
                if is_row_wise(p) {
                    learn_items(&mut m, p);
                    true
                } else {
                    false
                }
            },
            _ => false,
        };
        if !ok {
            proof {
                lemma_define_none(all, i - from + 1);
            }
            return None;
        }
        i = i + 1;
    }
    assert(all.take(to - from) =~= all);
    Some(m)
}

/// A projection with each name replaced by what it stands for.
pub fn fuse_projection(p: &Projection, m: &ExprMap) -> (r: Projection)
    ensures
        r.v() == fused(p.v(), m.v()),
{
    let mut r = p.copy();
    let mut items: Vec<ProjItem> = Vec::new();
    let mut i: usize = 0;
    while i < p.items.len()
        invariant
            i <= p.items@.len(),
            items@.len() == i,
            forall|j: int|
                0 <= j < i ==> (#[trigger] items@[j]).v() == (ItemV {
                    expr: subst(p.items@[j].v().expr, m.v()),
                    ..p.items@[j].v()
                }),
        decreases p.items.len() - i,
    {
        let mut it = p.items[i].copy();
        it.expr = substitute_aliases(&p.items[i].expr, m);
        items.push(it);
        i = i + 1;
    }
    r.items = items;
    assert(r.v().items =~= fused(p.v(), m.v()).items);
    r
}

/// The tail of the clauses after the last match: a return, or projections that
/// are folded into the last of them, and a return over that.
pub open spec fn pipeline_tail(chain: ChainV, cs: Seq<ClauseV>) -> Option<StageTailV> {
    if cs.len() == 0 {
        None
    } else {
        match as_return(cs.last()) {
            None => None,
            Some(rp) => {
                let withs = cs.drop_last();
                if withs.len() == 0 {
                    return_tail(chain, rp)
                } else {
                    match (as_with(withs.last()), define_all(withs.drop_last())) {
                        (Some((proj, having)), Some(m)) => breaker_tail(
                            chain,
                            fused(proj, m),
                            having,
                            rp,
                        ),
                        _ => None,
                    }
                }
            },
        }
    }
}

/// The tail of the clauses from `from` on.
pub fn build_pipeline_tail(chain: Chain, cs: &Vec<Clause>, from: usize) -> (r: Option<StageTail>)
    requires
        from <= cs@.len(),
    ensures
        stage_tail_opt(r) == pipeline_tail(chain.v(), query::clauses_v(cs@).skip(from as int)),
{
    let ghost all = query::clauses_v(cs@).skip(from as int);
    let n: usize = cs.len();
    if from == n {
        return None;
    }
    assert(all.last() == cs@[n - 1].v());
    let rp = match get_return(&cs[n - 1]) {
        Some(p) => p,
        None => {
            return None;
        },
    };
    if from == n - 1 {
        return build_return_tail(chain, rp);
    }
    proof {
        assert(all.drop_last().last() == cs@[n - 2].v());
        assert(all.drop_last().drop_last() =~= query::clauses_v(cs@).subrange(from as int, n - 2));
    }
    match (get_with(&cs[n - 2]), learn_clauses(cs, from, n - 2)) {
        (Some((proj, having)), Some(m)) => {
            let f = fuse_projection(proj, &m);
            build_breaker_tail(chain, &f, ast::as_opt(having), rp)
        },
        _ => None,
    }
}

/// The chain over columns that need no steps.
pub open spec fn bare_chain(vars: Seq<Seq<char>>, kinds: Seq<VarKind>) -> ChainV {
    ChainV {
        a_labels: Seq::empty(),
        a_var: vars[0],
        hops: Seq::empty(),
        vars,
        kinds,
        wheres: Seq::empty(),
        start_anchor: None,
    }
}

/// The chain over columns that need no steps.
pub fn chain_of_columns(b: &Prebound) -> (c: Chain)
    requires
        b.vars@.len() > 0,
    ensures
        c.v() == bare_chain(names::of(b.vars@), b.kinds@),
{
    let a_labels: Vec<String> = Vec::new();
    let hops: Vec<Hop> = Vec::new();
    let wheres: Vec<WherePred> = Vec::new();
    let c = Chain {
        a_labels,
        a_var: b.vars[0].clone(),
        hops,
        vars: copy_names(&b.vars),
        kinds: crate::chunk::copy_kinds(&b.kinds),
        wheres,
        start_anchor: None,
    };
    assert(c.v().a_labels =~= Seq::empty());
    assert(c.v().hops =~= Seq::empty());
    assert(c.v().wheres =~= Seq::empty());
    c
}

/// The match, the distinct columns it hands on, and the groups of those that a
/// query is, with the projections in between folded into the grouping one.
pub open spec fn projected_of(q: Seq<ClauseV>) -> Option<MultiV> {
    if q.len() < 4 {
        None
    } else {
        let n = q.len() as int;
        match (
            as_match(q[0]),
            as_with(q[1]),
            define_all(q.subrange(2, n - 2)),
            as_with(q[n - 2]),
            as_return(q[n - 1]),
        ) {
            (
                Some((p1, w1)),
                Some((carry, None)),
                Some(m),
                Some((agg, having)),
                Some(rp),
            ) => match scan_of(p1, w1, anchor_allow()) {
                None => None,
                Some(s1) => match carry_of(carry, s1.vars, s1.kinds, s1.labels) {
                    None => None,
                    Some(c) => if !varlen_ok(s1.hops, carry) {
                        None
                    } else {
                        match aggregate_plan(
                            bare_chain(c.vars, c.kinds),
                            fused(agg, m),
                            Some((having, rp)),
                        ) {
                            Some(a) => Some(
                                MultiV {
                                    s1,
                                    carried: c.carried,
                                    distinct: c.distinct,
                                    s2_hops: Seq::empty(),
                                    s2_wheres: Seq::empty(),
                                    tail: StageTailV::Agg(a),
                                },
                            ),
                            None => None,
                        }
                    },
                },
            },
            _ => None,
        }
    }
}

/// The match, the distinct columns it hands on, and the groups of those that a
/// query is.
pub fn recognise_projected_aggregate(q: &SingleQuery) -> (r: Option<MultiStagePlan>)
    ensures
        multi_opt(r) == projected_of(q.v()),
{
    let n: usize = q.clauses.len();
    if n < 4 {
        return None;
    }
    assert(q.v()[0] == q.clauses@[0].v());
    assert(q.v()[1] == q.clauses@[1].v());
    assert(q.v()[n - 2] == q.clauses@[n - 2].v());
    assert(q.v()[n - 1] == q.clauses@[n - 1].v());
    match (
        get_match(&q.clauses[0]),
        get_with(&q.clauses[1]),
        learn_clauses(&q.clauses, 2, n - 2),
        get_with(&q.clauses[n - 2]),
        get_return(&q.clauses[n - 1]),
    ) {
        (Some((p1, w1)), Some((carry, None)), Some(m), Some((agg, having)), Some(rp)) => {
            let s1 = match recognise_scan(
                p1,
                w1,
                Allow { hopless: false, start: true, node: false },
            ) {
                Some(s) => s,
                None => {
                    return None;
                },
            };
            let c = match pipeline_carry(carry, &s1.vars, &s1.kinds, &s1.labels) {
                Some(c) => c,
                None => {
                    return None;
                },
            };
            if !varlen_distinct_consumed(&s1.hops, carry) {
                return None;
            }
            let f = fuse_projection(agg, &m);
            let chain = chain_of_columns(&c.bound);
            match aggregate_over_chain(chain, &f, Some((ast::as_opt(having), rp))) {
                Some(a) => {
                    let s2_hops: Vec<Hop> = Vec::new();
                    let s2_wheres: Vec<WherePred> = Vec::new();
                    assert(hop::steps_v(s2_hops@) =~= Seq::empty());
                    assert(preds::wheres_v(s2_wheres@) =~= Seq::empty());
                    Some(
                        MultiStagePlan {
                            s1,
                            carried: c.carried,
                            distinct: c.distinct,
                            s2_hops,
                            s2_wheres,
                            tail: StageTail::Agg(a),
                        },
                    )
                },
                None => None,
            }
        },
        _ => None,
    }
}

} // verus!
