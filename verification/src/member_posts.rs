//! Queries that collect the members of a group and count what they made there.

use std::collections::BTreeSet;
use vstd::prelude::*;

use crate::aggregate;
use crate::ast;
use crate::ast::{Expr, ExprV, Head, HeadV, Op};
use crate::carry::{carry_of, pipeline_carry, recognise_scan, scan_of, Carry, CarryV, Scan, ScanV};
use crate::chain::{bound_hops, collect_hops, Allow, Hops, HopsV};
use crate::chunk::{DataChunk, RowV};
use crate::distinct::has_varlen;
use crate::graph::{VarKind, NULL_ID};
use crate::hop;
use crate::hop::Hop;
use crate::join_plan::{anchor_allow, join_tail_order_safe, order_safe};
use crate::legs::{one_where, plain_allow, single_where, steps_have_varlen, where_v};
use crate::multistage::{as_match, as_return, as_with, get_match, get_return, get_with};
use crate::names;
use crate::names::{has_name, name_index};
use crate::plan::{aggregate_over_chain, aggregate_plan, varlen_distinct_consumed, varlen_ok, AggPlan, AggV};
use crate::preds::{Chain, ChainV, WherePred, WhereV};
use crate::query::{Clause, ClauseV, ItemV, PatternV, ProjItem, ProjV, Projection, SingleQuery};
use crate::table;

verus! {

broadcast use {vstd::std_specs::btree::group_btree_axioms, vstd::laws_cmp::group_laws_cmp};

/// Whether a column is a node other than `x`.
pub open spec fn other_node(h: HopsV, x: Seq<char>, i: int) -> bool {
    h.kinds[i] == VarKind::Node && h.vars[i] != x
}

/// Whether a column alone is a node other than `x`.
pub open spec fn sole_node(h: HopsV, x: Seq<char>, i: int) -> bool {
    &&& 0 <= i < h.vars.len()
    &&& other_node(h, x, i)
    &&& forall|j: int| 0 <= j < h.vars.len() && #[trigger] other_node(h, x, j) ==> j == i
}

/// The one column that is a node other than `x`.
pub open spec fn group_col(h: HopsV, x: Seq<char>) -> Option<int> {
    if exists|i: int| sole_node(h, x, i) {
        Some(choose|i: int| sole_node(h, x, i))
    } else {
        None
    }
}

/// Whether a column is neither `x` nor `y`.
pub open spec fn third(h: HopsV, x: Seq<char>, y: Seq<char>, i: int) -> bool {
    h.vars[i] != x && h.vars[i] != y
}

/// Whether a column alone is neither `x` nor `y`.
pub open spec fn sole_third(h: HopsV, x: Seq<char>, y: Seq<char>, i: int) -> bool {
    &&& 0 <= i < h.vars.len()
    &&& third(h, x, y, i)
    &&& forall|j: int| 0 <= j < h.vars.len() && #[trigger] third(h, x, y, j) ==> j == i
}

/// The one column that is neither `x` nor `y`.
pub open spec fn third_col(h: HopsV, x: Seq<char>, y: Seq<char>) -> Option<int> {
    if exists|i: int| sole_third(h, x, y, i) {
        Some(choose|i: int| sole_third(h, x, y, i))
    } else {
        None
    }
}

fn find_group_col(h: &Hops, x: &String) -> (r: Option<usize>)
    requires
        h.kinds@.len() == h.vars@.len(),
    ensures
        hop::opt_index(r) == group_col(h.v(), x@),
        r matches Some(i) ==> i < h.vars@.len(),
{
    let ghost hv = h.v();
    let mut found: Option<usize> = None;
    let mut i: usize = 0;
    while i < h.vars.len()
        invariant
            i <= h.vars@.len(),
            hv == h.v(),
            h.kinds@.len() == h.vars@.len(),
            match found {
                Some(k) => k < i && other_node(hv, x@, k as int) && forall|j: int|
                    0 <= j < i && #[trigger] other_node(hv, x@, j) ==> j == k,
                None => forall|j: int| 0 <= j < i ==> !(#[trigger] other_node(hv, x@, j)),
            },
        decreases h.vars.len() - i,
    {
        assert(hv.vars[i as int] == h.vars@[i as int]@);
        if crate::fold_plan::is_node(h.kinds[i]) && h.vars[i] != *x {
            assert(other_node(hv, x@, i as int));
            match found {
                Some(k) => {
                    proof {
                        assert forall|m: int| !sole_node(hv, x@, m) by {
                            if sole_node(hv, x@, m) {
                                assert(other_node(hv, x@, k as int));
                            }
                        }
                    }
                    return None;
                },
                None => {
                    found = Some(i);
                },
            }
        }
        i = i + 1;
    }
    proof {
        match found {
            Some(k) => {
                assert(sole_node(hv, x@, k as int));
                let c = choose|c: int| sole_node(hv, x@, c);
                assert(other_node(hv, x@, k as int));
                assert(c == k);
            },
            None => {
                assert forall|m: int| !sole_node(hv, x@, m) by {}
            },
        }
    }
    found
}

fn find_third_col(h: &Hops, x: &String, y: &String) -> (r: Option<usize>)
    ensures
        hop::opt_index(r) == third_col(h.v(), x@, y@),
        r matches Some(i) ==> i < h.vars@.len(),
{
    let ghost hv = h.v();
    let mut found: Option<usize> = None;
    let mut i: usize = 0;
    while i < h.vars.len()
        invariant
            i <= h.vars@.len(),
            hv == h.v(),
            match found {
                Some(k) => k < i && third(hv, x@, y@, k as int) && forall|j: int|
                    0 <= j < i && #[trigger] third(hv, x@, y@, j) ==> j == k,
                None => forall|j: int| 0 <= j < i ==> !(#[trigger] third(hv, x@, y@, j)),
            },
        decreases h.vars.len() - i,
    {
        assert(hv.vars[i as int] == h.vars@[i as int]@);
        if h.vars[i] != *x && h.vars[i] != *y {
            assert(third(hv, x@, y@, i as int));
            match found {
                Some(k) => {
                    proof {
                        assert forall|m: int| !sole_third(hv, x@, y@, m) by {
                            if sole_third(hv, x@, y@, m) {
                                assert(third(hv, x@, y@, k as int));
                            }
                        }
                    }
                    return None;
                },
                None => {
                    found = Some(i);
                },
            }
        }
        i = i + 1;
    }
    proof {
        match found {
            Some(k) => {
                assert(sole_third(hv, x@, y@, k as int));
                let c = choose|c: int| sole_third(hv, x@, y@, c);
                assert(third(hv, x@, y@, k as int));
                assert(c == k);
            },
            None => {
                assert forall|m: int| !sole_third(hv, x@, y@, m) by {}
            },
        }
    }
    found
}

/// Whether an item is a variable under its own name.
pub open spec fn keeps(it: ItemV, x: Seq<char>) -> bool {
    ast::as_var(it.expr) == Some(x) && (it.alias is None || it.alias == Some(x))
}

/// The name of the list into which an item collects a variable.
pub open spec fn collects(it: ItemV, x: Seq<char>) -> Option<Seq<char>> {
    match it.expr.head {
        HeadV::Call(f) => if f.name == "collect"@ && it.expr.args.len() == 1 && ast::as_var(
            it.expr.args[0],
        ) == Some(x) {
            it.alias
        } else {
            None
        },
        _ => None,
    }
}

/// The name of the list into which a projection collects `x` per `y`.
pub open spec fn collected_per(p: ProjV, x: Seq<char>, y: Seq<char>) -> Option<Seq<char>> {
    if p.star || p.distinct || p.order.len() > 0 || p.skip is Some || p.limit is Some
        || p.items.len() != 2 {
        None
    } else if keeps(p.items[0], y) {
        collects(p.items[1], x)
    } else if keeps(p.items[1], y) {
        collects(p.items[0], x)
    } else {
        None
    }
}

fn is_kept(it: &ProjItem, x: &String) -> (b: bool)
    ensures
        b == keeps(it.v(), x@),
{
    match &it.expr.head {
        Head::Var(y) => {
            *y == *x && match &it.alias {
                Some(a) => *a == *x,
                None => true,
            }
        },
        _ => false,
    }
}

fn list_name(it: &ProjItem, x: &String) -> (r: Option<String>)
    ensures
        ast::opt_str(r) == collects(it.v(), x@),
{
    match &it.expr.head {
        Head::Call(f) => {
            if f.name != "collect".to_owned() || it.expr.args.len() != 1 {
                return None;
            }
            assert(it.expr.v().args[0] == it.expr.args@[0].v());
            match &it.expr.args[0].head {
                Head::Var(y) => {
                    if *y == *x {
                        ast::copy_opt_name(&it.alias)
                    } else {
                        None
                    }
                },
                _ => None,
            }
        },
        _ => None,
    }
}

fn find_list(p: &Projection, x: &String, y: &String) -> (r: Option<String>)
    ensures
        ast::opt_str(r) == collected_per(p.v(), x@, y@),
{
    if p.star || p.distinct || p.order.len() > 0 || p.skip.is_some() || p.limit.is_some()
        || p.items.len() != 2 {
        return None;
    }
    assert(p.v().items[0] == p.items@[0].v());
    assert(p.v().items[1] == p.items@[1].v());
    if is_kept(&p.items[0], y) {
        list_name(&p.items[1], x)
    } else if is_kept(&p.items[1], y) {
        list_name(&p.items[0], x)
    } else {
        None
    }
}

/// Whether a condition is that a variable is in a list.
pub open spec fn is_member_test(w: Option<ExprV>, x: Seq<char>, list: Seq<char>) -> bool {
    match w {
        Some(e) => ast::is_op(e, Op::In, 2) && ast::as_var(e.args[0]) == Some(x) && ast::as_var(
            e.args[1],
        ) == Some(list),
        None => false,
    }
}

fn tests_member(w: &Option<Expr>, x: &String, list: &String) -> (b: bool)
    ensures
        b == is_member_test(ast::opt_v(*w), x@, list@),
{
    match w {
        Some(e) => {
            if !matches!(e.head, Head::Op(Op::In)) || e.args.len() != 2 {
                return false;
            }
            assert(e.v().args[0] == e.args@[0].v());
            assert(e.v().args[1] == e.args@[1].v());
            match (&e.args[0].head, &e.args[1].head) {
                (Head::Var(a), Head::Var(b)) => *a == *x && *b == *list,
                _ => false,
            }
        },
        None => false,
    }
}

/// The pattern and condition of a clause, if it is an optional match.
pub open spec fn as_optional(c: ClauseV) -> Option<(PatternV, Option<ExprV>)> {
    match c {
        ClauseV::Match { optional: true, pattern, where_ } => Some((pattern, where_)),
        _ => None,
    }
}

/// The members of groups, what they made there, and the groups' counts.
#[derive(Debug)]
pub struct MemberPostsPlan {
    pub s1: Scan,
    pub carry: Carry,
    /// From a member to its groups.
    pub a: Hops,
    pub a_where: Option<WherePred>,
    /// The columns of the member and the group.
    pub pair_cols: (usize, usize),
    /// From a member through what it made to the group.
    pub b: Hops,
    pub tail: AggPlan,
}

/// A [`MemberPostsPlan`].
pub struct MemberPostsV {
    pub s1: ScanV,
    pub carry: CarryV,
    pub a: HopsV,
    pub a_where: Option<WhereV>,
    pub pair_cols: (int, int),
    pub b: HopsV,
    pub tail: AggV,
}

impl MemberPostsPlan {
    pub open spec fn v(self) -> MemberPostsV {
        MemberPostsV {
            s1: self.s1.v(),
            carry: self.carry.v(),
            a: self.a.v(),
            a_where: where_v(self.a_where),
            pair_cols: (self.pair_cols.0 as int, self.pair_cols.1 as int),
            b: self.b.v(),
            tail: self.tail.v(),
        }
    }
}

/// The chain over members, groups and what was made.
pub open spec fn triple_chain(xs: (Seq<char>, Seq<char>, Seq<char>), ks: (VarKind, VarKind, VarKind)) -> ChainV {
    ChainV {
        a_labels: Seq::empty(),
        a_var: Seq::empty(),
        hops: Seq::empty(),
        vars: seq![xs.0, xs.1, xs.2],
        kinds: seq![ks.0, ks.1, ks.2],
        wheres: Seq::empty(),
        start_anchor: None,
    }
}

/// The members and their groups: the scan, what it hands on, and the steps
/// from it.
pub open spec fn members_of(
    p1: PatternV,
    w1: Option<ExprV>,
    carry: ProjV,
    pa: PatternV,
    wa: Option<ExprV>,
) -> Option<(ScanV, CarryV, HopsV, Option<WhereV>)> {
    match scan_of(p1, w1, anchor_allow()) {
        None => None,
        Some(s1) => match carry_of(carry, s1.vars, s1.kinds, s1.labels) {
            None => None,
            Some(c) => if c.vars.len() != 1 || !varlen_ok(s1.hops, carry) {
                None
            } else {
                match bound_hops(pa, c.vars, c.kinds, c.labels, plain_allow()) {
                    None => None,
                    Some(a) => match one_where(wa, a.vars) {
                        None => None,
                        Some(w) => if has_varlen(a.hops) {
                            None
                        } else {
                            Some((s1, c, a, w))
                        },
                    },
                }
            },
        },
    }
}

/// What members made, and the tail over it.
pub open spec fn posts_of(
    s1: ScanV,
    c: CarryV,
    a: HopsV,
    a_where: Option<WhereV>,
    list: ProjV,
    pc: PatternV,
    wc: Option<ExprV>,
    agg: ProjV,
    having: Option<ExprV>,
    rp: ProjV,
) -> Option<MemberPostsV> {
    let x = c.vars[0];
    match (group_col(a, x), names::position(a.vars, x)) {
        (Some(gc), Some(xc)) => {
            let y = a.vars[gc];
            match (collected_per(list, x, y), bound_hops(pc, c.vars, c.kinds, c.labels, plain_allow())) {
                (Some(l), Some(b)) => match third_col(b, x, y) {
                    None => None,
                    Some(tc) => if has_varlen(b.hops) || !b.vars.contains(y) || !is_member_test(
                        wc,
                        x,
                        l,
                    ) {
                        None
                    } else {
                        match aggregate_plan(
                            triple_chain(
                                (x, y, b.vars[tc]),
                                (c.kinds[0], a.kinds[gc], b.kinds[tc]),
                            ),
                            agg,
                            Some((having, rp)),
                        ) {
                            Some(tail) => if order_safe(tail) {
                                Some(
                                    MemberPostsV {
                                        s1,
                                        carry: c,
                                        a,
                                        a_where,
                                        pair_cols: (xc, gc),
                                        b,
                                        tail,
                                    },
                                )
                            } else {
                                None
                            },
                            None => None,
                        }
                    },
                },
                _ => None,
            }
        },
        _ => None,
    }
}

/// The members, their groups and what they made there that a query is about.
pub open spec fn member_posts_of(q: Seq<ClauseV>) -> Option<MemberPostsV> {
    if q.len() != 7 {
        None
    } else {
        match (
            (as_match(q[0]), as_with(q[1]), as_match(q[2]), as_with(q[3])),
            (as_optional(q[4]), as_with(q[5]), as_return(q[6])),
        ) {
            (
                (Some((p1, w1)), Some((carry, None)), Some((pa, wa)), Some((list, None))),
                (Some((pc, wc)), Some((agg, having)), Some(rp)),
            ) => match members_of(p1, w1, carry, pa, wa) {
                None => None,
                Some((s1, c, a, a_where)) => posts_of(
                    s1,
                    c,
                    a,
                    a_where,
                    list,
                    pc,
                    wc,
                    agg,
                    having,
                    rp,
                ),
            },
            _ => None,
        }
    }
}

fn get_optional(c: &Clause) -> (r: Option<(&crate::query::Pattern, &Option<Expr>)>)
    ensures
        match r {
            Some((p, w)) => as_optional(c.v()) == Some((p.v(), ast::opt_v(*w))),
            None => as_optional(c.v()) is None,
        },
{
    match c {
        Clause::Match { optional: true, pattern, where_ } => Some((pattern, where_)),
        _ => None,
    }
}

struct Members {
    s1: Scan,
    carry: Carry,
    a: Hops,
    a_where: Option<WherePred>,
}

fn find_members(
    p1: &crate::query::Pattern,
    w1: &Option<Expr>,
    carry: &Projection,
    pa: &crate::query::Pattern,
    wa: &Option<Expr>,
) -> (r: Option<Members>)
    ensures
        ({
            let want = members_of(
                p1.v(),
                ast::opt_v(*w1),
                carry.v(),
                pa.v(),
                ast::opt_v(*wa),
            );
            match r {
                Some(m) => want == Some((m.s1.v(), m.carry.v(), m.a.v(), where_v(m.a_where)))
                    && m.a.kinds@.len() == m.a.vars@.len() && m.carry.bound.vars@.len() == 1
                    && m.carry.bound.kinds@.len() == 1,
                None => want is None,
            }
        }),
{
    let s1 = match recognise_scan(p1, w1, Allow { hopless: false, start: true, node: false }) {
        Some(s) => s,
        None => {
            return None;
        },
    };
    let c = match pipeline_carry(carry, &s1.vars, &s1.kinds, &s1.labels) {
        Some(c) => c,
        None => {
            return None;
        },
    };
    if c.bound.vars.len() != 1 || !varlen_distinct_consumed(&s1.hops, carry) {
        return None;
    }
    proof {
        aggregate::lemma_pattern_fits(*pa);
        aggregate::law_bound_steps_are_bound(
            pa.v(),
            names::of(c.bound.vars@),
            c.bound.kinds@,
            c.bound.labels.v(),
            plain_allow(),
        );
    }
    let a = match collect_hops(
        pa,
        Some(&c.bound),
        Allow { hopless: false, start: false, node: false },
    ) {
        Some(h) => h,
        None => {
            return None;
        },
    };
    let a_where = match single_where(wa, &a.vars) {
        Some(w) => w,
        None => {
            return None;
        },
    };
    if steps_have_varlen(&a.hops) {
        return None;
    }
    Some(Members { s1, carry: c, a, a_where })
}

fn chain_of_three(
    x: &String,
    y: &String,
    z: &String,
    kx: VarKind,
    ky: VarKind,
    kz: VarKind,
) -> (c: Chain)
    ensures
        c.v() == triple_chain((x@, y@, z@), (kx, ky, kz)),
        c.vars@.len() == 3,
{
    let mut vars: Vec<String> = Vec::new();
    vars.push(x.clone());
    vars.push(y.clone());
    vars.push(z.clone());
    let mut kinds: Vec<VarKind> = Vec::new();
    kinds.push(kx);
    kinds.push(ky);
    kinds.push(kz);
    let a_labels: Vec<String> = Vec::new();
    let hops: Vec<Hop> = Vec::new();
    let wheres: Vec<WherePred> = Vec::new();
    let c = Chain {
        a_labels,
        a_var: String::new(),
        hops,
        vars,
        kinds,
        wheres,
        start_anchor: None,
    };
    assert(c.v().a_labels =~= Seq::empty());
    assert(c.v().a_var =~= Seq::empty());
    assert(c.v().hops =~= Seq::empty());
    assert(c.v().wheres =~= Seq::empty());
    assert(c.v().vars =~= seq![x@, y@, z@]);
    assert(c.v().kinds =~= seq![kx, ky, kz]);
    c
}

/// A plan that may be missing.
pub open spec fn member_posts_opt(p: Option<MemberPostsPlan>) -> Option<MemberPostsV> {
    match p {
        Some(p) => Some(p.v()),
        None => None,
    }
}

fn find_posts(
    m: Members,
    list: &Projection,
    pc: &crate::query::Pattern,
    wc: &Option<Expr>,
    agg: &Projection,
    having: &Option<Expr>,
    rp: &Projection,
) -> (r: Option<MemberPostsPlan>)
    requires
        m.a.kinds@.len() == m.a.vars@.len(),
        m.carry.bound.vars@.len() == 1,
        m.carry.bound.kinds@.len() == 1,
    ensures
        member_posts_opt(r) == posts_of(
            m.s1.v(),
            m.carry.v(),
            m.a.v(),
            where_v(m.a_where),
            list.v(),
            pc.v(),
            ast::opt_v(*wc),
            agg.v(),
            ast::opt_v(*having),
            rp.v(),
        ),
{
    let x = m.carry.bound.vars[0].clone();
    assert(m.carry.v().vars[0] == x@);
    let (gc, xc) = match (find_group_col(&m.a, &x), name_index(&m.a.vars, &x)) {
        (Some(g), Some(i)) => (g, i),
        _ => {
            return None;
        },
    };
    let y = m.a.vars[gc].clone();
    assert(m.a.v().vars[gc as int] == y@);
    let l = match find_list(list, &x, &y) {
        Some(l) => l,
        None => {
            return None;
        },
    };
    proof {
        aggregate::lemma_pattern_fits(*pc);
        aggregate::law_bound_steps_are_bound(
            pc.v(),
            names::of(m.carry.bound.vars@),
            m.carry.bound.kinds@,
            m.carry.bound.labels.v(),
            plain_allow(),
        );
    }
    let b = match collect_hops(
        pc,
        Some(&m.carry.bound),
        Allow { hopless: false, start: false, node: false },
    ) {
        Some(h) => h,
        None => {
            return None;
        },
    };
    let tc = match find_third_col(&b, &x, &y) {
        Some(t) => t,
        None => {
            return None;
        },
    };
    if steps_have_varlen(&b.hops) || !has_name(&b.vars, &y) || !tests_member(wc, &x, &l) {
        return None;
    }
    assert(b.v().vars[tc as int] == b.vars@[tc as int]@);
    let chain = chain_of_three(
        &x,
        &y,
        &b.vars[tc],
        m.carry.bound.kinds[0],
        m.a.kinds[gc],
        b.kinds[tc],
    );
    proof {
        aggregate::lemma_agg_wf(chain.v(), agg.v(), Some((ast::opt_v(*having), rp.v())));
    }
    match aggregate_over_chain(chain, agg, Some((ast::as_opt(having), rp))) {
        Some(tail) => {
            if join_tail_order_safe(&tail) {
                Some(
                    MemberPostsPlan {
                        s1: m.s1,
                        carry: m.carry,
                        a: m.a,
                        a_where: m.a_where,
                        pair_cols: (xc, gc),
                        b,
                        tail,
                    },
                )
            } else {
                None
            }
        },
        None => None,
    }
}

/// The members, their groups and what they made there that a query is about: a
/// match handed on one variable at a time, its groups with the list of their
/// members, and an optional match from the members to what they made.
pub fn recognise_ic5(q: &SingleQuery) -> (r: Option<MemberPostsPlan>)
    ensures
        member_posts_opt(r) == member_posts_of(q.v()),
{
    if q.clauses.len() != 7 {
        return None;
    }
    assert(q.v()[0] == q.clauses@[0].v());
    assert(q.v()[1] == q.clauses@[1].v());
    assert(q.v()[2] == q.clauses@[2].v());
    assert(q.v()[3] == q.clauses@[3].v());
    assert(q.v()[4] == q.clauses@[4].v());
    assert(q.v()[5] == q.clauses@[5].v());
    assert(q.v()[6] == q.clauses@[6].v());
    match (
        (
            get_match(&q.clauses[0]),
            get_with(&q.clauses[1]),
            get_match(&q.clauses[2]),
            get_with(&q.clauses[3]),
        ),
        (get_optional(&q.clauses[4]), get_with(&q.clauses[5]), get_return(&q.clauses[6])),
    ) {
        (
            (Some((p1, w1)), Some((carry, None)), Some((pa, wa)), Some((list, None))),
            (Some((pc, wc)), Some((agg, having)), Some(rp)),
        ) => {
            match find_members(p1, w1, carry, pa, wa) {
                None => None,
                Some(m) => find_posts(m, list, pc, wc, agg, having, rp),
            }
        },
        _ => None,
    }
}

/// The row of a group in which nothing was made: null but for the group.
pub open spec fn empty_group(width: nat, gv: int, id: u64) -> Seq<u64> {
    Seq::new(
        width,
        |v: int|
            if v == gv {
                id
            } else {
                NULL_ID
            },
    )
}

/// The groups of rows, each once, in the order in which they are first seen.
pub open spec fn groups_seen(rows: Seq<RowV>, gv: int) -> Seq<u64> {
    table::first_seen(rows.map_values(|r: RowV| r.ids[gv]))
}

/// The groups of rows that are none of those that are there.
pub open spec fn groups_missing(rows: Seq<RowV>, gv: int, there: Seq<u64>) -> Seq<u64> {
    groups_seen(rows, gv).filter(|id: u64| !there.contains(id))
}

fn empty_group_row(width: usize, gv: usize, id: u64) -> (r: Vec<u64>)
    ensures
        r@ == empty_group(width as nat, gv as int, id),
{
    let mut r: Vec<u64> = Vec::new();
    while r.len() < width
        invariant
            r@.len() <= width,
            forall|v: int|
                0 <= v < r@.len() ==> #[trigger] r@[v] == if v == gv {
                    id
                } else {
                    NULL_ID
                },
        decreases width - r.len(),
    {
        let x: u64 = if r.len() == gv {
            id
        } else {
            NULL_ID
        };
        r.push(x);
    }
    assert(r@ =~= empty_group(width as nat, gv as int, id));
    r
}

/// Adds one row for each group of the member pairs in which nothing was made.
pub fn zero_fill(joined: DataChunk, pairs: &DataChunk, gv: usize) -> (r: DataChunk)
    requires
        joined.wf(),
        joined.dense(),
        joined.prov@.len() == 0,
        joined.weights@.len() == 0,
        gv < joined.ids@.len(),
        pairs.wf(),
        gv < pairs.ids@.len(),
    ensures
        r.wf(),
        r.dense(),
        r.vars@ == joined.vars@,
        r.var_kinds@ == joined.var_kinds@,
        r.live_view() == table::plain_rows(
            table::rows_of(joined.ids@) + groups_missing(
                pairs.live_view(),
                gv as int,
                joined.ids@[gv as int]@,
            ).map_values(|id: u64| empty_group(joined.ids@.len(), gv as int, id)),
        ),
{
    let ghost base = table::rows_of(joined.ids@);
    let ghost there = joined.ids@[gv as int]@;
    let ghost all = pairs.live_view().map_values(|r: RowV| r.ids[gv as int]);
    let width: usize = joined.ids.len();
    let ghost f = |id: u64| empty_group(width as nat, gv as int, id);
    let ghost out = |id: u64| !there.contains(id);
    let mut seen: BTreeSet<u64> = BTreeSet::new();
    let mut i: usize = 0;
    while i < joined.ids[gv].len()
        invariant
            gv < joined.ids@.len(),
            there == joined.ids@[gv as int]@,
            i <= there.len(),
            forall|x: u64|
                #![trigger seen@.contains(x)]
                seen@.contains(x) <==> there.take(i as int).contains(x),
        decreases there.len() - i,
    {
        let ghost s0 = seen@;
        seen.insert(joined.ids[gv][i]);
        proof {
            crate::seqs::lemma_take_last(there, i as int);
            assert forall|x: u64|
                #![trigger seen@.contains(x)]
                seen@.contains(x) <==> there.take(i + 1).contains(x) by {
                crate::seqs::lemma_push_contains(there.take(i as int), there[i as int], x);
                assert(s0.contains(x) <==> there.take(i as int).contains(x));
            }
        }
        i = i + 1;
    }
    let mut cols = joined.ids;
    let mut k: usize = 0;
    proof {
        assert(there.take(i as int) =~= there);
        assert(all.take(0) =~= Seq::empty());
        crate::seqs::lemma_filter_empty(out);
        assert(base + Seq::<u64>::empty().map_values(f) =~= base);
    }
    while k < pairs.selection.len()
        invariant
            k <= pairs.selection@.len(),
            pairs.wf(),
            gv < pairs.ids@.len(),
            all == pairs.live_view().map_values(|r: RowV| r.ids[gv as int]),
            f == (|id: u64| empty_group(width as nat, gv as int, id)),
            out == (|id: u64| !there.contains(id)),
            width > 0,
            cols@.len() == width,
            table::aligned(cols@),
            table::rows_of(cols@) == base + table::first_seen(all.take(k as int)).filter(
                out,
            ).map_values(f),
            forall|x: u64|
                #![trigger seen@.contains(x)]
                seen@.contains(x) <==> there.contains(x) || table::first_seen(
                    all.take(k as int),
                ).contains(x),
        decreases pairs.selection.len() - k,
    {
        let r: usize = pairs.selection[k];
        assert(pairs.ids@[gv as int]@.len() == pairs.rows());
        let id: u64 = pairs.ids[gv][r];
        let ghost d = table::first_seen(all.take(k as int));
        let ghost s0 = seen@;
        proof {
            crate::seqs::lemma_take_last(all, k as int);
            assert(pairs.live_view()[k as int] == pairs.row(r as int));
            assert(all[k as int] == id);
            assert(seen@.contains(id) <==> there.contains(id) || d.contains(id));
            assert(d.push(id).drop_last() =~= d);
            crate::seqs::lemma_filter_last(d.push(id), out);
            assert forall|x: u64| #[trigger] d.push(id).contains(x) <==> d.contains(x) || x == id by {
                crate::seqs::lemma_push_contains(d, id, x);
            }
        }
        if !seen.contains(&id) {
            let row = empty_group_row(width, gv, id);
            table::push_row(&mut cols, &row);
            seen.insert(id);
            proof {
                let e = d.filter(out);
                assert(e.push(id).map_values(f) =~= e.map_values(f).push(f(id)));
                assert((base + e.map_values(f)).push(f(id)) =~= base + e.map_values(f).push(f(id)));
                assert forall|x: u64|
                    #![trigger seen@.contains(x)]
                    seen@.contains(x) <==> there.contains(x) || d.push(id).contains(x) by {
                    assert(s0.contains(x) <==> there.contains(x) || d.contains(x));
                }
            }
        } else {
            proof {
                assert forall|x: u64|
                    #![trigger seen@.contains(x)]
                    seen@.contains(x) <==> there.contains(x) || table::first_seen(
                        all.take(k + 1),
                    ).contains(x) by {
                    assert(s0.contains(x) <==> there.contains(x) || d.contains(x));
                }
            }
        }
        k = k + 1;
    }
    assert(all.take(k as int) =~= all);
    table::chunk_of(joined.vars, joined.var_kinds, cols)
}

} // verus!
