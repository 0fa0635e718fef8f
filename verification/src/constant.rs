//! A projection of constants: the same row once per match.

use vstd::prelude::*;

use crate::ast::{Expr, ExprV, Function, FunctionV, Head, HeadV};
use crate::graph::Graph;
use crate::multistage::{as_match, as_return, get_match, get_return};
use crate::names;
use crate::query;
use crate::query::{copy_clauses, copy_items, Clause, ClauseV, ItemV, ProjItem, ProjV, Projection, SingleQuery};
use crate::reroot::query_opt;

verus! {

/// Whether an expression is a literal or a parameter.
pub open spec fn constant(e: ExprV) -> bool {
    match e.head {
        HeadV::Null => true,
        HeadV::Bool(_) => true,
        HeadV::Int(_) => true,
        HeadV::Float(_) => true,
        HeadV::Str(_) => true,
        HeadV::Param(_) => true,
        _ => false,
    }
}

/// Whether a projection has items, and all are literals or parameters.
pub open spec fn constant_items(p: ProjV) -> bool {
    p.items.len() > 0 && forall|i: int|
        0 <= i < p.items.len() ==> constant((#[trigger] p.items[i]).expr)
}

/// Whether a projection has items, and all are literals or parameters.
pub fn constant_only_items(p: &Projection) -> (b: bool)
    ensures
        b == constant_items(p.v()),
{
    if p.items.len() == 0 {
        return false;
    }
    let mut i: usize = 0;
    while i < p.items.len()
        invariant
            i <= p.items@.len(),
            forall|j: int| 0 <= j < i ==> constant((#[trigger] p.v().items[j]).expr),
        decreases p.items.len() - i,
    {
        assert(p.v().items[i as int] == p.items@[i as int].v());
        match &p.items[i].expr.head {
            Head::Null => {},
            Head::Bool(_) => {},
            Head::Int(_) => {},
            Head::Float(_) => {},
            Head::Str(_) => {},
            Head::Param(_) => {},
            _ => {
                assert(!constant(p.v().items[i as int].expr));
                return false;
            },
        }
        i = i + 1;
    }
    true
}

/// The expression that counts rows.
pub open spec fn count_rows() -> ExprV {
    ExprV {
        head: HeadV::Call(
            FunctionV {
                name: "count"@,
                distinct: false,
                star: true,
                aggregate: true,
                columnar: false,
            },
        ),
        args: Seq::empty(),
    }
}

/// The projection that counts rows.
pub open spec fn count_proj() -> ProjV {
    ProjV {
        distinct: false,
        star: false,
        items: seq![
            ItemV {
                expr: count_rows(),
                alias: Some("__c"@),
                text: None,
                default_name: "__c"@,
            },
        ],
        order: Seq::empty(),
        skip: None,
        limit: None,
        distinct_vars: Seq::empty(),
    }
}

/// Whether a clause is an optional match.
pub open spec fn optional_match(c: ClauseV) -> bool {
    c matches ClauseV::Match { optional, .. } && optional
}

/// The projection of constants of a query: a match, optional ones, and the
/// projection.
pub open spec fn constant_proj(q: Seq<ClauseV>) -> Option<ProjV> {
    if q.len() < 2 {
        None
    } else {
        match (as_return(q.last()), as_match(q[0])) {
            (Some(p), Some(_)) => if (forall|i: int|
                1 <= i < q.len() - 1 ==> optional_match(#[trigger] q[i])) && !p.star && !p.distinct
                && p.order.len() == 0 && constant_items(p) {
                Some(p)
            } else {
                None
            },
            _ => None,
        }
    }
}

/// The query that counts the rows of a query that projects constants.
pub open spec fn count_query_of(q: Seq<ClauseV>) -> Option<Seq<ClauseV>> {
    if constant_proj(q) is Some {
        Some(q.drop_last().push(ClauseV::Return { proj: count_proj() }))
    } else {
        None
    }
}

fn are_optional(q: &SingleQuery) -> (b: bool)
    requires
        q.clauses@.len() >= 2,
    ensures
        b == forall|i: int| 1 <= i < q.v().len() - 1 ==> optional_match(#[trigger] q.v()[i]),
{
    let n = q.clauses.len();
    let mut i: usize = 1;
    while i < n - 1
        invariant
            2 <= n == q.clauses@.len(),
            1 <= i <= n - 1,
            forall|j: int| 1 <= j < i ==> optional_match(#[trigger] q.v()[j]),
        decreases n - i,
    {
        assert(q.v()[i as int] == q.clauses@[i as int].v());
        match &q.clauses[i] {
            Clause::Match { optional, .. } => {
                if !*optional {
                    assert(!optional_match(q.v()[i as int]));
                    return false;
                }
            },
            _ => {
                assert(!optional_match(q.v()[i as int]));
                return false;
            },
        }
        i = i + 1;
    }
    true
}

/// A projection that may be missing.
pub open spec fn proj_opt(p: Option<&Projection>) -> Option<ProjV> {
    match p {
        Some(p) => Some(p.v()),
        None => None,
    }
}

/// The projection of constants of a query.
pub fn constant_projection(q: &SingleQuery) -> (r: Option<&Projection>)
    ensures
        proj_opt(r) == constant_proj(q.v()),
{
    let n = q.clauses.len();
    if n < 2 {
        return None;
    }
    assert(q.v().last() == q.clauses@[n - 1].v());
    assert(q.v()[0] == q.clauses@[0].v());
    match (get_return(&q.clauses[n - 1]), get_match(&q.clauses[0])) {
        (Some(p), Some(_)) => {
            if are_optional(q) && !p.star && !p.distinct && p.order.len() == 0
                && constant_only_items(p) {
                Some(p)
            } else {
                None
            }
        },
        _ => None,
    }
}

fn count_projection() -> (p: Projection)
    ensures
        p.v() == count_proj(),
{
    let f = Function {
        name: "count".to_owned(),
        distinct: false,
        star: true,
        aggregate: true,
        columnar: false,
    };
    let expr = Expr { head: Head::Call(f), args: Vec::new() };
    assert(expr.v().args =~= Seq::empty());
    let mut items: Vec<ProjItem> = Vec::new();
    items.push(
        ProjItem {
            expr,
            alias: Some("__c".to_owned()),
            text: None,
            default_name: "__c".to_owned(),
        },
    );
    let p = Projection {
        distinct: false,
        star: false,
        items,
        order: Vec::new(),
        skip: None,
        limit: None,
        distinct_vars: Vec::new(),
    };
    assert(p.v().items =~= count_proj().items);
    assert(p.v().order =~= Seq::empty());
    assert(p.v().distinct_vars =~= Seq::empty());
    p
}

/// The query that counts the rows of a query that projects constants.
pub fn count_query(q: &SingleQuery) -> (r: Option<SingleQuery>)
    ensures
        query_opt(r) == count_query_of(q.v()),
{
    if constant_projection(q).is_none() {
        return None;
    }
    let mut clauses = copy_clauses(&q.clauses, 0, q.clauses.len() - 1);
    let proj = count_projection();
    clauses.push(Clause::Return { proj });
    assert(query::clauses_v(clauses@) =~= q.v().drop_last().push(
        ClauseV::Return { proj: count_proj() },
    ));
    Some(SingleQuery { clauses })
}

/// A query that counts rows projects no constants.
pub proof fn law_count_is_not_constant(q: Seq<ClauseV>)
    requires
        count_query_of(q) is Some,
    ensures
        constant_proj(count_query_of(q)->0) is None,
{
    let r = count_query_of(q)->0;
    assert(r.last() == ClauseV::Return { proj: count_proj() });
    assert(!constant(count_proj().items[0].expr));
}

/// How many matches are enough to know how many rows a page holds.
pub open spec fn cap_of(skip: int, limit: Option<int>) -> Option<int> {
    match limit {
        Some(k) => Some(
            if skip + k <= i64::MAX {
                skip + k
            } else {
                i64::MAX as int
            },
        ),
        None => None,
    }
}

/// A limit as an integer.
pub open spec fn limit_v(k: Option<usize>) -> Option<int> {
    match k {
        Some(k) => Some(k as int),
        None => None,
    }
}

/// How many matches are enough to know how many rows a page holds.
pub fn count_cap(skip: usize, limit: Option<usize>) -> (r: Option<i64>)
    ensures
        match r {
            Some(c) => cap_of(skip as int, limit_v(limit)) == Some(c as int),
            None => limit is None,
        },
{
    match limit {
        Some(k) => {
            let sum: u128 = skip as u128 + k as u128;
            if sum <= i64::MAX as u128 {
                Some(sum as i64)
            } else {
                Some(i64::MAX)
            }
        },
        None => None,
    }
}

/// The cap that a statement carries: a number that is above zero.
pub fn count_cap_from(n: Option<i64>) -> (r: Option<u64>)
    ensures
        match n {
            Some(n) => r == if n > 0 {
                Some(n as u64)
            } else {
                None
            },
            None => r is None,
        },
{
    match n {
        Some(n) => if n > 0 {
            Some(n as u64)
        } else {
            None
        },
        None => None,
    }
}

/// How many rows of so many matches a page holds.
pub open spec fn page_rows(n: int, skip: int, limit: Option<int>) -> int {
    let rest = if n <= skip {
        0
    } else {
        n - skip
    };
    match limit {
        Some(k) => if rest <= k {
            rest
        } else {
            k
        },
        None => rest,
    }
}

/// How many rows of so many matches a page holds. A count that no length can
/// be counts as none.
pub fn rows_of_page(n: i64, skip: usize, limit: Option<usize>) -> (r: usize)
    ensures
        0 <= n <= usize::MAX ==> r == page_rows(n as int, skip as int, limit_v(limit)),
        !(0 <= n <= usize::MAX) ==> r == 0,
        r <= i64::MAX,
{
    if n < 0 {
        return 0;
    }
    if n as u128 > usize::MAX as u128 {
        return 0;
    }
    let n: usize = n as usize;
    let rest: usize = if n <= skip {
        0
    } else {
        n - skip
    };
    match limit {
        Some(k) => if rest <= k {
            rest
        } else {
            k
        },
        None => rest,
    }
}

/// A count that stopped once it had enough gives the same page.
pub proof fn law_capped_count_is_enough(n: int, m: int, skip: int, k: int)
    requires
        0 <= skip,
        0 <= k,
        skip + k <= i64::MAX,
        n == m || (cap_of(skip, Some(k)) matches Some(c) && n >= c && m >= c),
    ensures
        page_rows(n, skip, Some(k)) == page_rows(m, skip, Some(k)),
{
}

/// The query that repeats a row of constants.
pub open spec fn replay_of(p: ProjV, r: int) -> Seq<ClauseV> {
    seq![
        ClauseV::Unwind {
            expr: ExprV {
                head: HeadV::Call(
                    FunctionV {
                        name: "range"@,
                        distinct: false,
                        star: false,
                        aggregate: false,
                        columnar: false,
                    },
                ),
                args: seq![
                    ExprV { head: HeadV::Int(1), args: Seq::empty() },
                    ExprV { head: HeadV::Int(r as i64), args: Seq::empty() },
                ],
            },
            alias: "__i"@,
        },
        ClauseV::Return {
            proj: ProjV {
                distinct: false,
                star: false,
                items: p.items,
                order: Seq::empty(),
                skip: None,
                limit: None,
                distinct_vars: p.distinct_vars,
            },
        },
    ]
}

fn int_expr(n: i64) -> (e: Expr)
    ensures
        e.v() == (ExprV { head: HeadV::Int(n), args: Seq::empty() }),
{
    let e = Expr { head: Head::Int(n), args: Vec::new() };
    assert(e.v().args =~= Seq::empty());
    e
}

fn replay(p: &Projection, r: i64) -> (q: SingleQuery)
    ensures
        q.v() == replay_of(p.v(), r as int),
{
    let f = Function {
        name: "range".to_owned(),
        distinct: false,
        star: false,
        aggregate: false,
        columnar: false,
    };
    let mut args: Vec<Expr> = Vec::new();
    args.push(int_expr(1));
    args.push(int_expr(r));
    let expr = Expr { head: Head::Call(f), args };
    let proj = Projection {
        distinct: false,
        star: false,
        items: copy_items(&p.items),
        order: Vec::new(),
        skip: None,
        limit: None,
        distinct_vars: names::copy_names(&p.distinct_vars),
    };
    proof {
        assert(expr.v().args =~= seq![
            ExprV { head: HeadV::Int(1), args: Seq::empty() },
            ExprV { head: HeadV::Int(r), args: Seq::empty() },
        ]);
        assert(proj.v().order =~= Seq::empty());
    }
    let mut clauses: Vec<Clause> = Vec::new();
    clauses.push(Clause::Unwind { expr, alias: "__i".to_owned() });
    clauses.push(Clause::Return { proj });
    let q = SingleQuery { clauses };
    assert(q.v() =~= replay_of(p.v(), r as int));
    q
}

/// The query that answers a projection of constants, given how many matches
/// there are: the row once for each that the page holds. Declines where that
/// is more than the budget allows.
pub fn constant_projection_over_count(
    g: &Graph,
    q: &SingleQuery,
    n: i64,
    skip: usize,
    limit: Option<usize>,
) -> (r: Option<SingleQuery>)
    ensures
        ({
            let rows = if 0 <= n <= usize::MAX {
                page_rows(n as int, skip as int, limit_v(limit))
            } else {
                0
            };
            query_opt(r) == match constant_proj(q.v()) {
                Some(p) => if g.over_budget(rows) {
                    None
                } else {
                    Some(replay_of(p, rows))
                },
                None => None,
            }
        }),
{
    match constant_projection(q) {
        Some(p) => {
            let rows = rows_of_page(n, skip, limit);
            match g.budget_check(rows) {
                Ok(_) => Some(replay(p, rows as i64)),
                Err(_) => None,
            }
        },
        None => None,
    }
}

} // verus!
