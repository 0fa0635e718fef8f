//! A row passes the filters planned for a condition exactly when the condition holds of
//! what the row binds.

use vstd::prelude::*;

use crate::ast;
use crate::ast::{EdgePatternV, ExprV, HeadV, Op};
use crate::graph;
use crate::graph::{Adj, Graph};
use crate::link_law;
use crate::names;
use crate::plan_law;
use crate::preds;
use crate::preds::{where_pred, where_preds, WhereV};
use crate::query;
use crate::query::RelDir;
use crate::select::{column, Filter, Verdict};

verus! {

/// Whether a list holds a relationship to a node whose type is one of those that are
/// named; where none is named, of any type.
pub open spec fn names_link(g: Graph, row: Seq<Adj>, to: u64, types: Seq<Seq<char>>) -> bool {
    exists|i: int|
        0 <= i < row.len() && (#[trigger] row[i]).peer == to && (types.len() == 0 || types.contains(
            g.types@[row[i].typ as int]@,
        ))
}

/// Whether the graph has a relationship from one node to another as it is written: to
/// the right it leaves the first, to the left it enters it, and without an arrow it
/// does either.
pub open spec fn has_link(g: Graph, a: u64, b: u64, d: RelDir, types: Seq<Seq<char>>) -> bool {
    match d {
        RelDir::Out => a < g.out@.len() && names_link(g, g.out@[a as int]@, b, types),
        RelDir::In => a < g.into@.len() && names_link(g, g.into@[a as int]@, b, types),
        RelDir::Undirected => (a < g.out@.len() && names_link(g, g.out@[a as int]@, b, types)) || (a
            < g.into@.len() && names_link(g, g.into@[a as int]@, b, types)),
    }
}

proof fn lemma_lists_named(g: Graph, s: bool, n: int, to: u64, types: Seq<Seq<char>>)
    requires
        g.wf(),
        0 <= n < g.out@.len(),
    ensures
        ({
            let row = if s {
                g.out@[n]@
            } else {
                g.into@[n]@
            };
            link_law::lists(row, to, g.type_tokens(types)) <==> names_link(g, row, to, types)
        }),
{
    let row = if s {
        g.out@[n]@
    } else {
        g.into@[n]@
    };
    assert forall|i: int| 0 <= i < row.len() implies ((g.type_tokens(types) matches Some(t)
        ==> t.contains((#[trigger] row[i]).typ)) <==> types.len() == 0 || types.contains(
        g.types@[row[i].typ as int]@,
    )) by {
        assert(g.has_entry(s, n, i));
        assert(g.entry(s, n, i) == row[i]);
        link_law::law_types_are_asked_by_name(g, types, row[i].typ);
    }
}

/// A hop goes as its relationship is written: the nodes that it visits are those that
/// the graph has such a relationship to.
pub proof fn law_hops_go_as_written(g: Graph, a: u64, b: u64, d: RelDir, types: Seq<Seq<char>>)
    requires
        g.wf(),
    ensures
        (exists|i: int|
            0 <= i < g.adj(a, query::dir_of(d), g.type_tokens(types)).len() && (#[trigger] g.adj(
                a,
                query::dir_of(d),
                g.type_tokens(types),
            )[i]).peer == b) <==> has_link(g, a, b, d, types),
{
    link_law::law_visits_follow_links(g, a, b, query::dir_of(d), g.type_tokens(types));
    if a < g.out@.len() {
        lemma_lists_named(g, true, a as int, b, types);
        lemma_lists_named(g, false, a as int, b, types);
    }
}

/// What a name is bound to in a row.
pub open spec fn bound_to(vars: Seq<Seq<char>>, ids: Seq<u64>, x: Seq<char>) -> u64 {
    ids[vars.index_of(x)]
}

proof fn lemma_column(vars: Seq<Seq<char>>, x: Seq<char>)
    requires
        vars.no_duplicates(),
        vars.contains(x),
    ensures
        column(vars, x) == vars.index_of(x),
        0 <= vars.index_of(x) < vars.len(),
{
    names::lemma_position(vars, x);
    let i = names::position(vars, x)->0;
    let k = vars.index_of(x);
    assert(0 <= k < vars.len() && vars[k] == x);
}

/// Whether a pattern asks no more than that there is a relationship between two named
/// nodes.
pub open spec fn plain_edge(p: EdgePatternV) -> bool {
    &&& p.var is None
    &&& !p.shortest
    &&& p.steps.len() == 1
    &&& p.start.var is Some && p.start.labels.len() == 0 && !p.start.props
    &&& p.steps[0].var is None && !p.steps[0].props && p.steps[0].length is None
    &&& p.steps[0].end.var is Some && p.steps[0].end.labels.len() == 0 && !p.steps[0].end.props
}

/// Whether a row binds two nodes that a pattern says are related.
pub open spec fn has_edge(g: Graph, p: EdgePatternV, vars: Seq<Seq<char>>, ids: Seq<u64>) -> bool {
    has_link(
        g,
        bound_to(vars, ids, p.start.var->0),
        bound_to(vars, ids, p.steps[0].end.var->0),
        p.steps[0].dir,
        p.steps[0].types,
    )
}

/// Whether an expression is a comparison of two different names.
pub open spec fn compares(w: ExprV, op: Op) -> bool {
    w.head == HeadV::Op(op) && w.args.len() == 2 && w.args[0].head is Var && w.args[1].head is Var
        && w.args[0].head != w.args[1].head
}

/// Whether the two names of a comparison are bound to the same.
pub open spec fn same_bound(w: ExprV, vars: Seq<Seq<char>>, ids: Seq<u64>) -> bool {
    bound_to(vars, ids, w.args[0].head->Var_0) == bound_to(vars, ids, w.args[1].head->Var_0)
}

/// Whether a condition holds of a row: a conjunction where both sides do, a pattern that
/// asks for a relationship where the graph has it, a comparison of two names by what
/// they are bound to, and anything else as its value is judged.
pub open spec fn condition(
    g: Graph,
    w: ExprV,
    vars: Seq<Seq<char>>,
    ids: Seq<u64>,
    judge: spec_fn(ExprV, Seq<u64>) -> bool,
) -> bool
    decreases w,
{
    if w.head == HeadV::Op(Op::And) && w.args.len() == 2 {
        condition(g, w.args[0], vars, ids, judge) && condition(g, w.args[1], vars, ids, judge)
    } else if w.head is Pattern && plain_edge(w.head->Pattern_0) {
        has_edge(g, w.head->Pattern_0, vars, ids)
    } else if w.head == HeadV::Op(Op::Not) && w.args.len() == 1 && w.args[0].head is Pattern
        && plain_edge(w.args[0].head->Pattern_0) {
        !has_edge(g, w.args[0].head->Pattern_0, vars, ids)
    } else if compares(w, Op::Eq) {
        same_bound(w, vars, ids)
    } else if compares(w, Op::Neq) {
        !same_bound(w, vars, ids)
    } else if w.head == HeadV::Op(Op::Not) && w.args.len() == 1 && compares(w.args[0], Op::Eq) {
        !same_bound(w.args[0], vars, ids)
    } else {
        judge(w, ids)
    }
}

/// Whether a filter applies what is planned for a condition. One that looks at a
/// variable passes what the value of the condition is judged to pass.
pub open spec fn applies(
    f: Filter,
    p: WhereV,
    vars: Seq<Seq<char>>,
    judge: spec_fn(ExprV, Seq<u64>) -> bool,
) -> bool {
    match (p.edge, p.id_other) {
        (Some(e), _) => f matches Filter::Edge { src, dst, dir, types, negate } && src@ == e.src
            && dst@ == e.dst && dir == e.dir && names::of(types@) == e.types && negate == e.negate,
        (None, Some((y, differ))) => f matches Filter::Identity { var, other, ne } && var@ == p.var
            && other@ == y && ne == differ,
        (None, None) => f matches Filter::Property { var, verdicts } && var@ == p.var && forall|
            ids: Seq<u64>,
        |
            ids.len() == vars.len() ==> (#[trigger] judge(p.expr, ids) <==> verdicts@.contains_key(
                bound_to(vars, ids, p.var),
            ) && verdicts@[bound_to(vars, ids, p.var)] == Verdict::Pass),
    }
}

proof fn lemma_closing(es: Seq<Adj>, want: u64)
    ensures
        graph::closing(es, want, Seq::empty()) > 0 <==> exists|i: int|
            0 <= i < es.len() && (#[trigger] es[i]).peer == want,
    decreases es.len(),
{
    if es.len() > 0 {
        let p = es.drop_last();
        lemma_closing(p, want);
        if exists|i: int| 0 <= i < p.len() && (#[trigger] p[i]).peer == want {
            let i = choose|i: int| 0 <= i < p.len() && (#[trigger] p[i]).peer == want;
            assert(es[i].peer == want);
        }
        if exists|i: int| 0 <= i < es.len() && (#[trigger] es[i]).peer == want {
            let i = choose|i: int| 0 <= i < es.len() && (#[trigger] es[i]).peer == want;
            if i < p.len() {
                assert(p[i].peer == want);
            }
        }
    }
}

/// An edge test passes a row exactly when the graph has, or for a negated one lacks, the
/// relationship that the pattern asks for between what the row binds.
proof fn lemma_edge_test(
    g: Graph,
    w: ExprV,
    p: EdgePatternV,
    negate: bool,
    vars: Seq<Seq<char>>,
    ids: Seq<u64>,
    f: Filter,
    e: preds::EdgePredV,
)
    requires
        g.wf(),
        vars.no_duplicates(),
        preds::edge_pred(w, vars) == Some(e),
        f matches Filter::Edge { src, dst, dir, types, negate } && src@ == e.src && dst@ == e.dst
            && dir == e.dir && names::of(types@) == e.types && negate == e.negate,
        negate ==> w.head == HeadV::Op(Op::Not) && w.args.len() == 1 && w.args[0].head
            == HeadV::Pattern(p),
        !negate ==> w.head == HeadV::Pattern(p),
    ensures
        plain_edge(p),
        f.holds(g, vars, ids) <==> (has_edge(g, p, vars, ids) != negate),
{
    let a = p.start.var->0;
    let b = p.steps[0].end.var->0;
    lemma_column(vars, a);
    lemma_column(vars, b);
    let d = p.steps[0].dir;
    let types = p.steps[0].types;
    let x = bound_to(vars, ids, a);
    let y = bound_to(vars, ids, b);
    law_hops_go_as_written(g, x, y, d, types);
    lemma_closing(g.adj(x, query::dir_of(d), g.type_tokens(types)), y);
}

/// One planned condition passes a row exactly when it holds of it.
pub proof fn law_filter_is_condition(
    g: Graph,
    w: ExprV,
    vars: Seq<Seq<char>>,
    ids: Seq<u64>,
    p: WhereV,
    f: Filter,
    judge: spec_fn(ExprV, Seq<u64>) -> bool,
)
    requires
        g.wf(),
        vars.no_duplicates(),
        vars.len() <= usize::MAX,
        ids.len() == vars.len(),
        !(w.head == HeadV::Op(Op::And) && w.args.len() == 2),
        where_pred(w, vars) == Some(p),
        applies(f, p, vars, judge),
    ensures
        f.holds(g, vars, ids) <==> condition(g, w, vars, ids, judge),
{
    if preds::edge_pred(w, vars) is Some {
        let e = preds::edge_pred(w, vars)->0;
        if w.head is Pattern {
            lemma_edge_test(g, w, w.head->Pattern_0, false, vars, ids, f, e);
        } else {
            lemma_edge_test(g, w, w.args[0].head->Pattern_0, true, vars, ids, f, e);
        }
    } else {
        assert(!(w.head is Pattern));
        if w.head == HeadV::Op(Op::Not) && w.args.len() == 1 {
            assert(!ast::has_opaque(w.args[0]));
            assert(!(w.args[0].head is Pattern));
        }
        if preds::two_vars(w, vars) is Some {
            let (a, b, ne) = preds::two_vars(w, vars)->0;
            lemma_column(vars, a);
            lemma_column(vars, b);
        } else {
            lemma_no_pair(w, vars);
            plan_law::law_expression_is_read_as_it_reads(w, vars);
            lemma_column(vars, p.var);
            assert(judge(p.expr, ids) <==> judge(w, ids));
        }
    }
}

/// A condition on one variable is no comparison of two names.
proof fn lemma_no_pair(w: ExprV, vars: Seq<Seq<char>>)
    requires
        vars.len() <= usize::MAX,
        preds::two_vars(w, vars) is None,
        ast::key_class(w, vars) is Some,
    ensures
        !compares(w, Op::Eq),
        !compares(w, Op::Neq),
        !(w.head == HeadV::Op(Op::Not) && w.args.len() == 1 && compares(w.args[0], Op::Eq)),
{
    plan_law::lemma_sole(w, vars);
    if compares(w, Op::Eq) || compares(w, Op::Neq) {
        lemma_pair_reads(w);
    }
    if w.head == HeadV::Op(Op::Not) && w.args.len() == 1 && compares(w.args[0], Op::Eq) {
        lemma_pair_reads(w.args[0]);
        assert(ast::reads(w.args[0], w.args[0].args[0].head->Var_0));
        assert(ast::reads(w.args[0], w.args[0].args[1].head->Var_0));
        assert(ast::reads_any(w.args[0]));
        assert(ast::reads(w, w.args[0].args[0].head->Var_0));
        assert(ast::reads(w, w.args[0].args[1].head->Var_0));
        assert(ast::reads_any(w));
    }
}

proof fn lemma_pair_reads(w: ExprV)
    requires
        w.args.len() == 2,
        w.args[0].head is Var,
        w.args[1].head is Var,
    ensures
        ast::reads(w, w.args[0].head->Var_0),
        ast::reads(w, w.args[1].head->Var_0),
        ast::reads_any(w),
{
    assert(ast::reads(w.args[0], w.args[0].head->Var_0));
    assert(ast::reads(w.args[1], w.args[1].head->Var_0));
    assert(ast::reads_any(w.args[0]));
}

/// A condition holds where each of its conjuncts does.
proof fn lemma_conjuncts(
    g: Graph,
    w: ExprV,
    vars: Seq<Seq<char>>,
    ids: Seq<u64>,
    judge: spec_fn(ExprV, Seq<u64>) -> bool,
)
    ensures
        condition(g, w, vars, ids, judge) <==> forall|i: int|
            0 <= i < ast::conjuncts(w).len() ==> condition(
                g,
                #[trigger] ast::conjuncts(w)[i],
                vars,
                ids,
                judge,
            ),
        forall|i: int|
            0 <= i < ast::conjuncts(w).len() ==> {
                let c = #[trigger] ast::conjuncts(w)[i];
                !(c.head == HeadV::Op(Op::And) && c.args.len() == 2)
            },
    decreases w,
{
    let s = ast::conjuncts(w);
    if ast::is_op(w, Op::And, 2) {
        let x = ast::conjuncts(w.args[0]);
        let y = ast::conjuncts(w.args[1]);
        lemma_conjuncts(g, w.args[0], vars, ids, judge);
        lemma_conjuncts(g, w.args[1], vars, ids, judge);
        assert forall|i: int| 0 <= i < s.len() implies {
            let c = #[trigger] s[i];
            !(c.head == HeadV::Op(Op::And) && c.args.len() == 2)
        } by {
            if i < x.len() {
                assert(s[i] == x[i]);
            } else {
                assert(s[i] == y[i - x.len()]);
            }
        }
        if condition(g, w, vars, ids, judge) {
            assert forall|i: int| 0 <= i < s.len() implies condition(
                g,
                #[trigger] s[i],
                vars,
                ids,
                judge,
            ) by {
                if i < x.len() {
                    assert(s[i] == x[i]);
                } else {
                    assert(s[i] == y[i - x.len()]);
                }
            }
        }
        if forall|i: int|
            0 <= i < s.len() ==> condition(g, #[trigger] s[i], vars, ids, judge) {
            assert forall|i: int| 0 <= i < x.len() implies condition(
                g,
                #[trigger] x[i],
                vars,
                ids,
                judge,
            ) by {
                assert(s[i] == x[i]);
            }
            assert forall|i: int| 0 <= i < y.len() implies condition(
                g,
                #[trigger] y[i],
                vars,
                ids,
                judge,
            ) by {
                assert(s[x.len() + i] == y[i]);
            }
        }
    } else {
        assert(s[0] == w);
    }
}

/// A row passes the filters planned for a condition exactly when the condition holds of
/// it, and every row passes where there is none.
pub proof fn law_filters_are_condition(
    g: Graph,
    w: Option<ExprV>,
    vars: Seq<Seq<char>>,
    ids: Seq<u64>,
    ps: Seq<WhereV>,
    fs: Seq<Filter>,
    judge: spec_fn(ExprV, Seq<u64>) -> bool,
)
    requires
        g.wf(),
        vars.no_duplicates(),
        vars.len() <= usize::MAX,
        ids.len() == vars.len(),
        where_preds(w, vars) == Some(ps),
        fs.len() == ps.len(),
        forall|i: int| 0 <= i < ps.len() ==> applies(#[trigger] fs[i], ps[i], vars, judge),
    ensures
        (forall|i: int| 0 <= i < fs.len() ==> (#[trigger] fs[i]).holds(g, vars, ids)) <==> (
        w matches Some(e) ==> condition(g, e, vars, ids, judge)),
{
    if let Some(e) = w {
        lemma_conjuncts(g, e, vars, ids, judge);
        let cs = ast::conjuncts(e);
        let plan = |c: ExprV| where_pred(c, vars);
        assert(ps == cs.map_values(|c: ExprV| plan(c)->0));
        assert forall|i: int| 0 <= i < fs.len() implies ((#[trigger] fs[i]).holds(g, vars, ids)
            <==> condition(g, cs[i], vars, ids, judge)) by {
            assert(plan(cs[i]) is Some);
            law_filter_is_condition(g, cs[i], vars, ids, ps[i], fs[i], judge);
        }
        if forall|i: int| 0 <= i < fs.len() ==> (#[trigger] fs[i]).holds(g, vars, ids) {
            assert forall|i: int| 0 <= i < cs.len() implies condition(
                g,
                #[trigger] cs[i],
                vars,
                ids,
                judge,
            ) by {
                assert(fs[i].holds(g, vars, ids));
            }
        }
    }
}

} // verus!
