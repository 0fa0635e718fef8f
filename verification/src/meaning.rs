//! Replacing names by what they stand for changes no value, whatever the values
//! and the operators are.

use vstd::prelude::*;

use crate::ast;
use crate::ast::{ExprV, HeadV};
use crate::fuse::{define_items, subst};
use crate::prelude::{replaceable, subst_clause, subst_path, subst_proj};
use crate::query;
use crate::query::{ClauseV, ItemV, PathV, ProjV};
use crate::rewrite::{clause_names, node_names, path_names, proj_reads, rel_names};

verus! {

/// How expressions are evaluated: what an operator makes of the values of its
/// operands, and what a form that binds names of its own comes to where names
/// stand for values.
#[verifier::reject_recursive_types(V)]
pub struct EvalV<V> {
    pub op: spec_fn(HeadV, Seq<V>) -> V,
    pub form: spec_fn(ExprV, spec_fn(Seq<char>) -> V) -> V,
}

/// Whether a form comes to the same where the names that it reads stand for the
/// same values.
pub open spec fn looks_only<V>(ev: EvalV<V>) -> bool {
    forall|e: ExprV, a: spec_fn(Seq<char>) -> V, b: spec_fn(Seq<char>) -> V|
        #![trigger (ev.form)(e, a), (ev.form)(e, b)]
        (forall|x: Seq<char>| ast::reads(e, x) ==> #[trigger] a(x) == b(x)) ==> (ev.form)(e, a) == (
        ev.form)(e, b)
}

/// What an expression comes to where names stand for values.
pub open spec fn value_of<V>(e: ExprV, ev: EvalV<V>, env: spec_fn(Seq<char>) -> V) -> V
    decreases e, e.args.len() + 1,
{
    match e.head {
        HeadV::Var(x) => env(x),
        HeadV::Pattern(_) => (ev.form)(e, env),
        HeadV::Opaque(_) => (ev.form)(e, env),
        _ => (ev.op)(e.head, values_of(e, e.args.len(), ev, env)),
    }
}

/// What the first `n` operands of an expression come to.
pub open spec fn values_of<V>(
    e: ExprV,
    n: nat,
    ev: EvalV<V>,
    env: spec_fn(Seq<char>) -> V,
) -> Seq<V>
    decreases e, n,
{
    if n == 0 || n > e.args.len() {
        Seq::empty()
    } else {
        values_of(e, (n - 1) as nat, ev, env).push(value_of(e.args[n - 1], ev, env))
    }
}

/// What names stand for once some stand for expressions.
pub open spec fn bound<V>(
    m: Map<Seq<char>, ExprV>,
    ev: EvalV<V>,
    env: spec_fn(Seq<char>) -> V,
) -> spec_fn(Seq<char>) -> V {
    |x: Seq<char>|
        if m.contains_key(x) {
            value_of(m[x], ev, env)
        } else {
            env(x)
        }
}

/// Whether a form that binds names of its own reads a name.
pub open spec fn hides(e: ExprV, x: Seq<char>) -> bool
    decreases e,
{
    if e.head is Pattern || e.head is Opaque {
        ast::reads(e, x)
    } else {
        !(e.head is Var) && exists|i: int| 0 <= i < e.args.len() && hides(#[trigger] e.args[i], x)
    }
}

/// Replacing names is binding them: an expression with names replaced by what they
/// stand for comes to what the expression comes to where they stand for it, as
/// long as no form that binds names of its own reads one of them.
pub proof fn law_replacing_is_binding<V>(
    e: ExprV,
    m: Map<Seq<char>, ExprV>,
    ev: EvalV<V>,
    env: spec_fn(Seq<char>) -> V,
)
    requires
        looks_only(ev),
        forall|x: Seq<char>| #[trigger] m.contains_key(x) ==> !hides(e, x),
    ensures
        value_of(subst(e, m), ev, env) == value_of(e, ev, bound(m, ev, env)),
    decreases e, e.args.len() + 1,
{
    match e.head {
        HeadV::Var(x) => {},
        HeadV::Pattern(_) => {
            lemma_form(e, m, ev, env);
        },
        HeadV::Opaque(_) => {
            lemma_form(e, m, ev, env);
        },
        _ => {
            lemma_operands(e, m, e.args.len(), ev, env);
            assert(subst(e, m).args.len() == e.args.len());
        },
    }
}

/// [`law_replacing_is_binding`] for the first `n` operands.
proof fn lemma_operands<V>(
    e: ExprV,
    m: Map<Seq<char>, ExprV>,
    n: nat,
    ev: EvalV<V>,
    env: spec_fn(Seq<char>) -> V,
)
    requires
        looks_only(ev),
        n <= e.args.len(),
        !(e.head is Var) && !(e.head is Pattern) && !(e.head is Opaque),
        forall|x: Seq<char>| #[trigger] m.contains_key(x) ==> !hides(e, x),
    ensures
        values_of(subst(e, m), n, ev, env) == values_of(e, n, ev, bound(m, ev, env)),
    decreases e, n,
{
    if n > 0 {
        lemma_operands(e, m, (n - 1) as nat, ev, env);
        let a = e.args[n - 1];
        assert forall|x: Seq<char>| #[trigger] m.contains_key(x) implies !hides(a, x) by {
            assert(!hides(e, x));
        }
        law_replacing_is_binding(a, m, ev, env);
        assert(subst(e, m).args[n - 1] == subst(a, m));
    }
}

proof fn lemma_form<V>(
    e: ExprV,
    m: Map<Seq<char>, ExprV>,
    ev: EvalV<V>,
    env: spec_fn(Seq<char>) -> V,
)
    requires
        looks_only(ev),
        e.head is Pattern || e.head is Opaque,
        forall|x: Seq<char>| #[trigger] m.contains_key(x) ==> !hides(e, x),
    ensures
        (ev.form)(e, env) == (ev.form)(e, bound(m, ev, env)),
{
    let to = bound(m, ev, env);
    assert forall|x: Seq<char>| ast::reads(e, x) implies #[trigger] env(x) == to(x) by {
        if m.contains_key(x) {
            assert(!hides(e, x));
        }
    }
}

/// What a form reads it still reads once names are replaced.
proof fn lemma_hides_stays(e: ExprV, m: Map<Seq<char>, ExprV>, x: Seq<char>)
    requires
        hides(e, x),
    ensures
        ast::reads(subst(e, m), x),
    decreases e,
{
    if !(e.head is Pattern) && !(e.head is Opaque) {
        let i = choose|i: int| 0 <= i < e.args.len() && hides(#[trigger] e.args[i], x);
        lemma_hides_stays(e.args[i], m, x);
        assert(subst(e, m).args[i] == subst(e.args[i], m));
    }
}

/// Where an expression names none of some names any more once they are replaced,
/// it comes to the same as with the names bound: a query that starts with
/// constants may hand them to its clauses in their places.
pub proof fn law_replaced_names_keep_values<V>(
    e: ExprV,
    m: Map<Seq<char>, ExprV>,
    ev: EvalV<V>,
    env: spec_fn(Seq<char>) -> V,
)
    requires
        looks_only(ev),
        forall|x: Seq<char>| #[trigger] m.contains_key(x) ==> !ast::reads(subst(e, m), x),
    ensures
        value_of(subst(e, m), ev, env) == value_of(e, ev, bound(m, ev, env)),
{
    assert forall|x: Seq<char>| #[trigger] m.contains_key(x) implies !hides(e, x) by {
        if hides(e, x) {
            lemma_hides_stays(e, m, x);
        }
    }
    law_replacing_is_binding(e, m, ev, env);
}

/// What names stand for after the first `n` items of a projection that turns each
/// row into one row. Every item reads what names stood for before.
pub open spec fn projected<V>(
    items: Seq<ItemV>,
    n: nat,
    ev: EvalV<V>,
    env: spec_fn(Seq<char>) -> V,
) -> spec_fn(Seq<char>) -> V
    decreases n,
{
    if n == 0 {
        env
    } else {
        let before = projected(items, (n - 1) as nat, ev, env);
        |x: Seq<char>|
            if x == query::column_of(items[n - 1]) {
                value_of(items[n - 1].expr, ev, env)
            } else {
                before(x)
            }
    }
}

/// Projections fuse: what names stand for in a row after a projection is what they
/// are defined as after it, evaluated on the row before any projection.
pub proof fn law_projections_fuse<V>(
    m: Map<Seq<char>, ExprV>,
    items: Seq<ItemV>,
    n: nat,
    ev: EvalV<V>,
    env: spec_fn(Seq<char>) -> V,
    x: Seq<char>,
)
    requires
        looks_only(ev),
        n <= items.len(),
        forall|i: int, y: Seq<char>|
            #![trigger items[i], m.contains_key(y)]
            0 <= i < items.len() && m.contains_key(y) ==> !hides(items[i].expr, y),
    ensures
        bound(define_items(m, items, n), ev, env)(x) == projected(
            items,
            n,
            ev,
            bound(m, ev, env),
        )(x),
    decreases n,
{
    if n > 0 {
        law_projections_fuse(m, items, (n - 1) as nat, ev, env, x);
        let it = items[n - 1];
        assert forall|y: Seq<char>| #[trigger] m.contains_key(y) implies !hides(it.expr, y) by {}
        law_replacing_is_binding(it.expr, m, ev, env);
    }
}

/// Whether an expression stands in a projection.
pub open spec fn in_proj(p: ProjV, e: ExprV) -> bool {
    ||| exists|i: int| 0 <= i < p.items.len() && (#[trigger] p.items[i]).expr == e
    ||| exists|i: int| 0 <= i < p.order.len() && (#[trigger] p.order[i]).expr == e
    ||| p.skip == Some(e)
    ||| p.limit == Some(e)
}

/// Whether an expression is a property map of a path.
pub open spec fn in_path(p: PathV, e: ExprV) -> bool {
    p.start.props == Some(e) || exists|i: int|
        0 <= i < p.hops.len() && ((#[trigger] p.hops[i]).0.props == Some(e) || p.hops[i].1.props
            == Some(e))
}

/// Whether an expression stands in a clause.
pub open spec fn stands_in(c: ClauseV, e: ExprV) -> bool {
    match c {
        ClauseV::Match { pattern, where_, .. } => where_ == Some(e) || exists|i: int|
            0 <= i < pattern.paths.len() && in_path(#[trigger] pattern.paths[i], e),
        ClauseV::With { proj, where_ } => where_ == Some(e) || in_proj(proj, e),
        ClauseV::Return { proj } => in_proj(proj, e),
        ClauseV::Unwind { expr, .. } => expr == e,
        ClauseV::Other(_) => false,
    }
}

proof fn lemma_proj_unnamed(p: ProjV, m: Map<Seq<char>, ExprV>, e: ExprV, x: Seq<char>)
    requires
        in_proj(p, e),
        !proj_reads(subst_proj(p, m), x),
    ensures
        !ast::reads(subst(e, m), x),
{
    let r = subst_proj(p, m);
    if exists|i: int| 0 <= i < p.items.len() && (#[trigger] p.items[i]).expr == e {
        let i = choose|i: int| 0 <= i < p.items.len() && (#[trigger] p.items[i]).expr == e;
        assert(r.items[i].expr == subst(e, m));
    } else if exists|i: int| 0 <= i < p.order.len() && (#[trigger] p.order[i]).expr == e {
        let i = choose|i: int| 0 <= i < p.order.len() && (#[trigger] p.order[i]).expr == e;
        assert(r.order[i].expr == subst(e, m));
    }
}

/// A clause that does not name a name holds no expression that reads it.
pub proof fn lemma_unnamed(c: ClauseV, m: Map<Seq<char>, ExprV>, e: ExprV, x: Seq<char>)
    requires
        stands_in(c, e),
        !clause_names(subst_clause(c, m), x),
    ensures
        !ast::reads(subst(e, m), x),
{
    match c {
        ClauseV::Match { pattern, where_, .. } => {
            if where_ != Some(e) {
                let i = choose|i: int|
                    0 <= i < pattern.paths.len() && in_path(#[trigger] pattern.paths[i], e);
                let p = pattern.paths[i];
                let r = subst_clause(c, m)->Match_pattern;
                assert(r.paths[i] == subst_path(p, m));
                assert(!path_names(r.paths[i], x));
                if p.start.props != Some(e) {
                    let k = choose|k: int|
                        0 <= k < p.hops.len() && ((#[trigger] p.hops[k]).0.props == Some(e)
                            || p.hops[k].1.props == Some(e));
                    let h = r.paths[i].hops[k];
                    assert(!rel_names(h.0, x) && !node_names(h.1, x));
                }
            }
        },
        ClauseV::With { proj, where_ } => {
            if where_ != Some(e) {
                lemma_proj_unnamed(proj, m, e, x);
            }
        },
        ClauseV::Return { proj } => {
            lemma_proj_unnamed(proj, m, e, x);
        },
        _ => {},
    }
}

/// Constants may be handed to clauses in their places: where each of some names
/// can be replaced throughout clauses, every expression of theirs comes to the same
/// with the names replaced as with the names bound.
pub proof fn law_clauses_keep_values<V>(
    cs: Seq<ClauseV>,
    m: Map<Seq<char>, ExprV>,
    i: int,
    e: ExprV,
    ev: EvalV<V>,
    env: spec_fn(Seq<char>) -> V,
)
    requires
        looks_only(ev),
        forall|x: Seq<char>| #[trigger] m.contains_key(x) ==> replaceable(cs, m, x),
        0 <= i < cs.len(),
        stands_in(cs[i], e),
    ensures
        value_of(subst(e, m), ev, env) == value_of(e, ev, bound(m, ev, env)),
{
    assert forall|x: Seq<char>| #[trigger] m.contains_key(x) implies !ast::reads(subst(e, m), x) by {
        assert(replaceable(cs, m, x));
        assert(!clause_names(subst_clause(cs[i], m), x));
        lemma_unnamed(cs[i], m, e, x);
    }
    law_replaced_names_keep_values(e, m, ev, env);
}

} // verus!
