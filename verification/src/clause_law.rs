//! What clauses make of rows, whatever the values, the operators and the matches of a
//! pattern are, and that constants may stand in the places of their names.

use vstd::prelude::*;

use crate::ast;
use crate::ast::{ExprV, HeadV};
use crate::fuse::subst;
use crate::meaning;
use crate::meaning::{bound, in_path, in_proj, looks_only, stands_in, value_of, values_of, EvalV};
use crate::prelude::{items_renew, renews, replaceable, subst_clause, subst_item, subst_path, subst_proj};
use crate::query;
use crate::query::{ClauseV, ItemV, NodeV, OrderV, PathV, PatternV, ProjV, RelV};
use crate::rewrite::{clause_names, node_names, opt_reads, opt_subst, path_names, pattern_names, rel_names};
use crate::seqs;
use crate::split_law::flat;

verus! {

/// How clauses are run: how expressions are evaluated, what an aggregate makes of the
/// operands of its rows, what names stand for that nothing binds, which values hold,
/// what a list lists, what a value counts as where rows are grouped or told apart, what
/// a pattern without properties binds where names stand for values, what it binds where
/// it is optional and nothing fits, which of its bindings fit the values of its
/// properties, and which of some values are kept by an order and a page, in which order.
#[verifier::reject_recursive_types(V)]
pub struct RunV<V> {
    pub ev: EvalV<V>,
    pub agg: spec_fn(HeadV, Seq<Seq<V>>) -> V,
    pub blank: spec_fn(Seq<char>) -> V,
    pub holds: spec_fn(V) -> bool,
    pub listed: spec_fn(V) -> Seq<V>,
    pub found: spec_fn(PatternV, spec_fn(Seq<char>) -> V) -> Seq<Map<Seq<char>, V>>,
    pub missing: spec_fn(PatternV, spec_fn(Seq<char>) -> V) -> Map<Seq<char>, V>,
    pub counts_as: spec_fn(V) -> V,
    pub arranged: spec_fn(PageV<V>, Seq<Seq<V>>) -> Seq<int>,
    pub fits: spec_fn(PatternV, Map<Seq<char>, V>, spec_fn(int, int, bool) -> Option<V>) -> bool,
}

/// What an expression of a projection comes to for a group of rows. An aggregate looks
/// at every row, and the rest at the first.
pub open spec fn grouped_value<V>(
    e: ExprV,
    run: RunV<V>,
    rows: Seq<spec_fn(Seq<char>) -> V>,
    first: spec_fn(Seq<char>) -> V,
) -> V
    decreases e, e.args.len() + 1,
{
    match e.head {
        HeadV::Var(x) => first(x),
        HeadV::Pattern(_) => (run.ev.form)(e, first),
        HeadV::Opaque(_) => (run.ev.form)(e, first),
        _ => if aggregates(e) {
            (run.agg)(
                e.head,
                rows.map_values(
                    |r: spec_fn(Seq<char>) -> V| values_of(e, e.args.len(), run.ev, r),
                ),
            )
        } else {
            (run.ev.op)(e.head, grouped_values(e, e.args.len(), run, rows, first))
        },
    }
}

/// What the first `n` operands of an expression come to for a group of rows.
pub open spec fn grouped_values<V>(
    e: ExprV,
    n: nat,
    run: RunV<V>,
    rows: Seq<spec_fn(Seq<char>) -> V>,
    first: spec_fn(Seq<char>) -> V,
) -> Seq<V>
    decreases e, n,
{
    if n == 0 || n > e.args.len() {
        Seq::empty()
    } else {
        grouped_values(e, (n - 1) as nat, run, rows, first).push(
            grouped_value(e.args[n - 1], run, rows, first),
        )
    }
}

/// Whether an expression is an aggregate.
pub open spec fn aggregates(e: ExprV) -> bool {
    e.head matches HeadV::Call(f) && f.aggregate
}

/// Whether an expression holds an aggregate.
pub open spec fn folds(e: ExprV) -> bool
    decreases e,
{
    !(e.head is Var) && !(e.head is Pattern) && !(e.head is Opaque) && (aggregates(e) || exists|
        i: int,
    |
        0 <= i < e.args.len() && folds(#[trigger] e.args[i]))
}

/// Whether an expression reads a name other than under an aggregate.
pub open spec fn reads_outside(e: ExprV, x: Seq<char>) -> bool
    decreases e,
{
    !aggregates(e) && (e.head == HeadV::Var(x) || exists|i: int|
        0 <= i < e.args.len() && reads_outside(#[trigger] e.args[i], x))
}

/// Whether each of some names stands for a constant.
pub open spec fn constants(m: Map<Seq<char>, ExprV>) -> bool {
    forall|x: Seq<char>| #[trigger]
        m.contains_key(x) ==> {
            &&& m[x].args.len() == 0
            &&& !(m[x].head is Var) && !(m[x].head is Pattern) && !(m[x].head is Opaque)
            &&& !aggregates(m[x])
        }
}

/// What a constant comes to.
pub open spec fn constant<V>(ev: EvalV<V>, e: ExprV) -> V {
    (ev.op)(e.head, Seq::empty())
}

/// Whether names stand for the same, but for those of some constants, which stand for
/// them on one side where they are live.
pub open spec fn alike<V>(
    m: Map<Seq<char>, ExprV>,
    ev: EvalV<V>,
    live: spec_fn(Seq<char>) -> bool,
    a: spec_fn(Seq<char>) -> V,
    b: spec_fn(Seq<char>) -> V,
) -> bool {
    &&& forall|x: Seq<char>| !m.contains_key(x) ==> #[trigger] a(x) == b(x)
    &&& forall|x: Seq<char>| #[trigger] m.contains_key(x) && live(x) ==> a(x) == constant(ev, m[x])
}

/// Whether rows are alike, one by one.
pub open spec fn all_alike<V>(
    m: Map<Seq<char>, ExprV>,
    ev: EvalV<V>,
    live: spec_fn(Seq<char>) -> bool,
    a: Seq<spec_fn(Seq<char>) -> V>,
    b: Seq<spec_fn(Seq<char>) -> V>,
) -> bool {
    &&& a.len() == b.len()
    &&& forall|i: int| 0 <= i < a.len() ==> alike(m, ev, live, #[trigger] a[i], b[i])
}

/// An expression looks at the names that it reads.
pub proof fn lemma_looks<V>(
    e: ExprV,
    ev: EvalV<V>,
    a: spec_fn(Seq<char>) -> V,
    b: spec_fn(Seq<char>) -> V,
)
    requires
        looks_only(ev),
        forall|x: Seq<char>| ast::reads(e, x) ==> #[trigger] a(x) == b(x),
    ensures
        value_of(e, ev, a) == value_of(e, ev, b),
    decreases e, e.args.len() + 1,
{
    match e.head {
        HeadV::Var(x) => {
            assert(ast::reads(e, x));
            assert(a(x) == b(x));
        },
        HeadV::Pattern(_) => {},
        HeadV::Opaque(_) => {},
        _ => {
            lemma_looks_args(e, e.args.len(), ev, a, b);
        },
    }
}

proof fn lemma_looks_args<V>(
    e: ExprV,
    n: nat,
    ev: EvalV<V>,
    a: spec_fn(Seq<char>) -> V,
    b: spec_fn(Seq<char>) -> V,
)
    requires
        looks_only(ev),
        n <= e.args.len(),
        forall|x: Seq<char>| ast::reads(e, x) ==> #[trigger] a(x) == b(x),
    ensures
        values_of(e, n, ev, a) == values_of(e, n, ev, b),
    decreases e, n,
{
    if n > 0 {
        lemma_looks_args(e, (n - 1) as nat, ev, a, b);
        let g = e.args[n - 1];
        assert forall|x: Seq<char>| ast::reads(g, x) implies #[trigger] a(x) == b(x) by {
            assert(ast::reads(e.args[n - 1], x));
            assert(ast::reads(e, x));
        }
        lemma_looks(g, ev, a, b);
    }
}

/// Whether an expression can have constants in the places of their names: it does not
/// read one any more then, and reads only live ones.
pub open spec fn open_to(
    e: ExprV,
    m: Map<Seq<char>, ExprV>,
    live: spec_fn(Seq<char>) -> bool,
) -> bool {
    forall|x: Seq<char>| #[trigger]
        m.contains_key(x) ==> !ast::reads(subst(e, m), x) && (ast::reads(e, x) ==> live(x))
}

/// An expression comes to the same with constants in the places of their names.
proof fn lemma_value<V>(
    e: ExprV,
    m: Map<Seq<char>, ExprV>,
    ev: EvalV<V>,
    live: spec_fn(Seq<char>) -> bool,
    a: spec_fn(Seq<char>) -> V,
    b: spec_fn(Seq<char>) -> V,
)
    requires
        looks_only(ev),
        constants(m),
        open_to(e, m, live),
        alike(m, ev, live, a, b),
    ensures
        value_of(e, ev, a) == value_of(subst(e, m), ev, b),
{
    meaning::law_replaced_names_keep_values(e, m, ev, b);
    let c = bound(m, ev, b);
    assert forall|x: Seq<char>| ast::reads(e, x) implies #[trigger] a(x) == c(x) by {
        if m.contains_key(x) {
            assert(live(x));
            assert(values_of(m[x], 0, ev, b) == Seq::<V>::empty());
            assert(value_of(m[x], ev, b) == constant(ev, m[x]));
        }
    }
    lemma_looks(e, ev, a, c);
}

/// The operands of an expression can have constants in the places of their names.
proof fn lemma_open_arg(
    e: ExprV,
    m: Map<Seq<char>, ExprV>,
    live: spec_fn(Seq<char>) -> bool,
    i: int,
)
    requires
        open_to(e, m, live),
        0 <= i < e.args.len(),
        !(e.head is Var) && !(e.head is Pattern) && !(e.head is Opaque),
    ensures
        open_to(e.args[i], m, live),
        subst(e, m).args[i] == subst(e.args[i], m),
        subst(e, m).args.len() == e.args.len(),
        subst(e, m).head == e.head,
{
    let g = e.args[i];
    assert(subst(e, m).args[i] == subst(g, m));
    assert forall|x: Seq<char>| #[trigger] m.contains_key(x) implies !ast::reads(subst(g, m), x) && (
    ast::reads(g, x) ==> live(x)) by {
        if ast::reads(subst(g, m), x) {
            assert(ast::reads(subst(e, m).args[i], x));
            assert(ast::reads(subst(e, m), x));
        }
        if ast::reads(g, x) {
            assert(ast::reads(e.args[i], x));
            assert(ast::reads(e, x));
        }
    }
}

proof fn lemma_operands<V>(
    e: ExprV,
    n: nat,
    m: Map<Seq<char>, ExprV>,
    ev: EvalV<V>,
    live: spec_fn(Seq<char>) -> bool,
    a: spec_fn(Seq<char>) -> V,
    b: spec_fn(Seq<char>) -> V,
)
    requires
        looks_only(ev),
        constants(m),
        open_to(e, m, live),
        alike(m, ev, live, a, b),
        n <= e.args.len(),
        !(e.head is Var) && !(e.head is Pattern) && !(e.head is Opaque),
    ensures
        values_of(e, n, ev, a) == values_of(subst(e, m), n, ev, b),
    decreases n,
{
    if n > 0 {
        lemma_operands(e, (n - 1) as nat, m, ev, live, a, b);
        lemma_open_arg(e, m, live, n - 1);
        lemma_value(e.args[n - 1], m, ev, live, a, b);
    }
}

/// An expression of a projection comes to the same with constants in the places of
/// their names.
pub proof fn lemma_grouped<V>(
    e: ExprV,
    m: Map<Seq<char>, ExprV>,
    run: RunV<V>,
    live: spec_fn(Seq<char>) -> bool,
    ra: Seq<spec_fn(Seq<char>) -> V>,
    rb: Seq<spec_fn(Seq<char>) -> V>,
    a: spec_fn(Seq<char>) -> V,
    b: spec_fn(Seq<char>) -> V,
)
    requires
        looks_only(run.ev),
        constants(m),
        open_to(e, m, live),
        all_alike(m, run.ev, live, ra, rb),
        forall|x: Seq<char>| !m.contains_key(x) ==> #[trigger] a(x) == b(x),
        forall|x: Seq<char>| #[trigger]
            m.contains_key(x) && reads_outside(e, x) ==> a(x) == constant(run.ev, m[x]),
    ensures
        grouped_value(e, run, ra, a) == grouped_value(subst(e, m), run, rb, b),
    decreases e, e.args.len() + 1,
{
    match e.head {
        HeadV::Var(x) => {
            if m.contains_key(x) {
                assert(reads_outside(e, x));
                assert(grouped_values(m[x], 0, run, rb, b) == Seq::<V>::empty());
            }
        },
        HeadV::Pattern(_) => {
            lemma_grouped_form(e, m, run, live, a, b);
        },
        HeadV::Opaque(_) => {
            lemma_grouped_form(e, m, run, live, a, b);
        },
        _ => {
            let s = subst(e, m);
            assert(s.args.len() == e.args.len() && s.head == e.head);
            if aggregates(e) {
                let fa = |r: spec_fn(Seq<char>) -> V| values_of(e, e.args.len(), run.ev, r);
                let fb = |r: spec_fn(Seq<char>) -> V| values_of(s, s.args.len(), run.ev, r);
                assert(ra.map_values(fa) =~= rb.map_values(fb)) by {
                    assert forall|i: int| 0 <= i < ra.len() implies ra.map_values(fa)[i]
                        == rb.map_values(fb)[i] by {
                        assert(alike(m, run.ev, live, ra[i], rb[i]));
                        lemma_operands(e, e.args.len(), m, run.ev, live, ra[i], rb[i]);
                    }
                }
            } else {
                lemma_grouped_args(e, e.args.len(), m, run, live, ra, rb, a, b);
            }
        },
    }
}

proof fn lemma_grouped_form<V>(
    e: ExprV,
    m: Map<Seq<char>, ExprV>,
    run: RunV<V>,
    live: spec_fn(Seq<char>) -> bool,
    a: spec_fn(Seq<char>) -> V,
    b: spec_fn(Seq<char>) -> V,
)
    requires
        looks_only(run.ev),
        e.head is Pattern || e.head is Opaque,
        open_to(e, m, live),
        forall|x: Seq<char>| !m.contains_key(x) ==> #[trigger] a(x) == b(x),
    ensures
        (run.ev.form)(e, a) == (run.ev.form)(subst(e, m), b),
{
    assert forall|x: Seq<char>| ast::reads(e, x) implies #[trigger] a(x) == b(x) by {
        if m.contains_key(x) {
            assert(!ast::reads(subst(e, m), x));
        }
    }
}

proof fn lemma_grouped_args<V>(
    e: ExprV,
    n: nat,
    m: Map<Seq<char>, ExprV>,
    run: RunV<V>,
    live: spec_fn(Seq<char>) -> bool,
    ra: Seq<spec_fn(Seq<char>) -> V>,
    rb: Seq<spec_fn(Seq<char>) -> V>,
    a: spec_fn(Seq<char>) -> V,
    b: spec_fn(Seq<char>) -> V,
)
    requires
        looks_only(run.ev),
        constants(m),
        open_to(e, m, live),
        all_alike(m, run.ev, live, ra, rb),
        n <= e.args.len(),
        !(e.head is Var) && !(e.head is Pattern) && !(e.head is Opaque),
        !aggregates(e),
        forall|x: Seq<char>| !m.contains_key(x) ==> #[trigger] a(x) == b(x),
        forall|x: Seq<char>| #[trigger]
            m.contains_key(x) && reads_outside(e, x) ==> a(x) == constant(run.ev, m[x]),
    ensures
        grouped_values(e, n, run, ra, a) == grouped_values(subst(e, m), n, run, rb, b),
    decreases e, n,
{
    if n > 0 {
        lemma_grouped_args(e, (n - 1) as nat, m, run, live, ra, rb, a, b);
        lemma_open_arg(e, m, live, n - 1);
        let g = e.args[n - 1];
        assert forall|x: Seq<char>| #[trigger]
            m.contains_key(x) && reads_outside(g, x) implies a(x) == constant(run.ev, m[x]) by {
            assert(reads_outside(e.args[n - 1], x));
            assert(reads_outside(e, x));
        }
        lemma_grouped(g, m, run, live, ra, rb, a, b);
    }
}

/// Names that stand for values laid over others.
pub open spec fn lay<V>(r: spec_fn(Seq<char>) -> V, b: Map<Seq<char>, V>) -> spec_fn(
    Seq<char>,
) -> V {
    |x: Seq<char>|
        if b.contains_key(x) {
            b[x]
        } else {
            r(x)
        }
}

/// The properties of a node of a path (the start is the first), or of the relationship
/// that leads to it.
pub open spec fn props_at(p: PatternV, j: int, k: int, rel: bool) -> Option<ExprV> {
    if !(0 <= j < p.paths.len()) {
        None
    } else if k == 0 {
        p.paths[j].start.props
    } else if !(0 < k <= p.paths[j].hops.len()) {
        None
    } else if rel {
        p.paths[j].hops[k - 1].0.props
    } else {
        p.paths[j].hops[k - 1].1.props
    }
}

/// What the properties of a pattern come to.
pub open spec fn prop_values<V>(
    p: PatternV,
    ev: EvalV<V>,
    env: spec_fn(Seq<char>) -> V,
) -> spec_fn(int, int, bool) -> Option<V> {
    |j: int, k: int, rel: bool|
        match props_at(p, j, k, rel) {
            Some(e) => Some(value_of(e, ev, env)),
            None => None,
        }
}

/// A node without its properties.
pub open spec fn bare_node(n: NodeV) -> NodeV {
    NodeV { props: None, ..n }
}

/// A pattern without its properties.
pub open spec fn bare(p: PatternV) -> PatternV {
    PatternV {
        paths: p.paths.map_values(
            |q: PathV|
                PathV {
                    start: bare_node(q.start),
                    hops: q.hops.map_values(
                        |h: (RelV, NodeV)| (RelV { props: None, ..h.0 }, bare_node(h.1)),
                    ),
                    ..q
                },
        ),
    }
}

/// Whether an optional condition holds.
pub open spec fn passes<V>(w: Option<ExprV>, run: RunV<V>, env: spec_fn(Seq<char>) -> V) -> bool {
    w matches Some(e) ==> (run.holds)(value_of(e, run.ev, env))
}

/// The bindings of a pattern that fit a row.
pub open spec fn fitting<V>(
    pattern: PatternV,
    where_: Option<ExprV>,
    run: RunV<V>,
    r: spec_fn(Seq<char>) -> V,
) -> Seq<Map<Seq<char>, V>> {
    (run.found)(bare(pattern), r).filter(
        |b: Map<Seq<char>, V>|
            (run.fits)(bare(pattern), b, prop_values(pattern, run.ev, lay(r, b))) && passes(
                where_,
                run,
                lay(r, b),
            ),
    )
}

/// The rows that a match makes of a row.
pub open spec fn matched<V>(
    optional: bool,
    pattern: PatternV,
    where_: Option<ExprV>,
    run: RunV<V>,
    r: spec_fn(Seq<char>) -> V,
) -> Seq<spec_fn(Seq<char>) -> V> {
    let bs = fitting(pattern, where_, run, r);
    if optional && bs.len() == 0 {
        seq![lay(r, (run.missing)(bare(pattern), r))]
    } else {
        bs.map_values(|b: Map<Seq<char>, V>| lay(r, b))
    }
}

/// The rows that an unwind makes of a row.
pub open spec fn unwound<V>(
    expr: ExprV,
    alias: Seq<char>,
    run: RunV<V>,
    r: spec_fn(Seq<char>) -> V,
) -> Seq<spec_fn(Seq<char>) -> V> {
    (run.listed)(value_of(expr, run.ev, r)).map_values(
        |v: V| lay(r, Map::empty().insert(alias, v)),
    )
}

/// Whether a pattern binds its own names, and looks at what they stand for alone.
pub open spec fn matches_own<V>(run: RunV<V>) -> bool {
    &&& forall|p: PatternV, a: spec_fn(Seq<char>) -> V, b: spec_fn(Seq<char>) -> V|
        #![trigger (run.found)(p, a), (run.found)(p, b)]
        #![trigger (run.missing)(p, a), (run.missing)(p, b)]
        (forall|x: Seq<char>| pattern_names(p, x) ==> #[trigger] a(x) == b(x)) ==> (run.found)(p, a)
            == (run.found)(p, b) && (run.missing)(p, a) == (run.missing)(p, b)
    &&& forall|p: PatternV, a: spec_fn(Seq<char>) -> V, i: int, x: Seq<char>|
        0 <= i < (run.found)(p, a).len() && #[trigger] (run.found)(p, a)[i].contains_key(x)
            ==> pattern_names(p, x)
    &&& forall|p: PatternV, a: spec_fn(Seq<char>) -> V, x: Seq<char>|
        #[trigger] (run.missing)(p, a).contains_key(x) ==> pattern_names(p, x)
}

/// A pattern without its properties names only what the pattern names.
pub proof fn lemma_bare_names(p: PatternV, m: Map<Seq<char>, ExprV>, x: Seq<char>)
    requires
        pattern_names(bare(p), x),
    ensures
        pattern_names(subst_pattern(p, m), x),
{
    let s = subst_pattern(p, m);
    let i = choose|i: int| 0 <= i < bare(p).paths.len() && path_names(#[trigger] bare(p).paths[i], x);
    let q = bare(p).paths[i];
    let t = s.paths[i];
    assert(t == subst_path(p.paths[i], m));
    if q.var != Some(x) && !node_names(q.start, x) {
        let k = choose|k: int|
            0 <= k < q.hops.len() && (rel_names((#[trigger] q.hops[k]).0, x) || node_names(
                q.hops[k].1,
                x,
            ));
        assert(t.hops[k].0.var == q.hops[k].0.var);
        assert(rel_names(t.hops[k].0, x) || node_names(t.hops[k].1, x));
    }
    assert(path_names(t, x));
}

/// A pattern with names in its properties replaced.
pub open spec fn subst_pattern(p: PatternV, m: Map<Seq<char>, ExprV>) -> PatternV {
    PatternV { paths: p.paths.map_values(|q: PathV| subst_path(q, m)) }
}

proof fn lemma_bare_subst(p: PatternV, m: Map<Seq<char>, ExprV>)
    ensures
        bare(subst_pattern(p, m)) == bare(p),
        forall|j: int, k: int, rel: bool| #[trigger]
            props_at(subst_pattern(p, m), j, k, rel) == opt_subst(props_at(p, j, k, rel), m),
{
    let s = subst_pattern(p, m);
    assert forall|j: int| 0 <= j < p.paths.len() implies bare(s).paths[j] == bare(p).paths[j] by {
        assert(s.paths[j] == subst_path(p.paths[j], m));
        assert(bare(s).paths[j].hops =~= bare(p).paths[j].hops);
    }
    assert(bare(s).paths =~= bare(p).paths);
}

/// Laying the same names over rows that are alike keeps them alike.
proof fn lemma_lay<V>(
    m: Map<Seq<char>, ExprV>,
    ev: EvalV<V>,
    live: spec_fn(Seq<char>) -> bool,
    a: spec_fn(Seq<char>) -> V,
    b: spec_fn(Seq<char>) -> V,
    over: Map<Seq<char>, V>,
)
    requires
        alike(m, ev, live, a, b),
        forall|x: Seq<char>| #[trigger] over.contains_key(x) ==> !m.contains_key(x),
    ensures
        alike(m, ev, live, lay(a, over), lay(b, over)),
{
    let c = lay(a, over);
    let d = lay(b, over);
    assert forall|x: Seq<char>| !m.contains_key(x) implies #[trigger] c(x) == d(x) by {
        assert(a(x) == b(x));
    }
}

/// Whether every expression of a pattern, and a condition, can have constants in the
/// places of their names, and neither names one any more then.
pub open spec fn match_open(
    pattern: PatternV,
    where_: Option<ExprV>,
    m: Map<Seq<char>, ExprV>,
    live: spec_fn(Seq<char>) -> bool,
) -> bool {
    &&& where_ matches Some(e) ==> open_to(e, m, live)
    &&& forall|j: int, k: int, rel: bool|
        (#[trigger] props_at(pattern, j, k, rel)) matches Some(e) ==> open_to(e, m, live)
    &&& forall|x: Seq<char>| #[trigger] m.contains_key(x) ==> !pattern_names(bare(pattern), x)
}

/// A match makes alike rows of alike rows.
pub proof fn lemma_matched<V>(
    optional: bool,
    pattern: PatternV,
    where_: Option<ExprV>,
    m: Map<Seq<char>, ExprV>,
    run: RunV<V>,
    live: spec_fn(Seq<char>) -> bool,
    a: spec_fn(Seq<char>) -> V,
    b: spec_fn(Seq<char>) -> V,
)
    requires
        looks_only(run.ev),
        matches_own(run),
        constants(m),
        match_open(pattern, where_, m, live),
        alike(m, run.ev, live, a, b),
    ensures
        all_alike(
            m,
            run.ev,
            live,
            matched(optional, pattern, where_, run, a),
            matched(optional, subst_pattern(pattern, m), opt_subst(where_, m), run, b),
        ),
{
    let s = subst_pattern(pattern, m);
    let w = opt_subst(where_, m);
    let p = bare(pattern);
    lemma_bare_subst(pattern, m);
    assert forall|x: Seq<char>| pattern_names(p, x) implies #[trigger] a(x) == b(x) by {
        assert(!m.contains_key(x));
    }
    let found = (run.found)(p, a);
    assert(found == (run.found)(p, b));
    assert((run.missing)(p, a) == (run.missing)(p, b));
    let fa = |o: Map<Seq<char>, V>|
        (run.fits)(p, o, prop_values(pattern, run.ev, lay(a, o))) && passes(
            where_,
            run,
            lay(a, o),
        );
    let fb = |o: Map<Seq<char>, V>|
        (run.fits)(p, o, prop_values(s, run.ev, lay(b, o))) && passes(w, run, lay(b, o));
    assert forall|i: int| 0 <= i < found.len() implies alike(
        m,
        run.ev,
        live,
        lay(a, #[trigger] found[i]),
        lay(b, found[i]),
    ) by {
        assert forall|x: Seq<char>| #[trigger] found[i].contains_key(x) implies !m.contains_key(
            x,
        ) by {
            assert((run.found)(p, a)[i].contains_key(x));
            assert(pattern_names(p, x));
        }
        lemma_lay(m, run.ev, live, a, b, found[i]);
    }
    assert forall|i: int| 0 <= i < found.len() implies #[trigger] fa(found[i]) == fb(found[i]) by {
        let o = found[i];
        let la = lay(a, o);
        let lb = lay(b, o);
        assert(alike(m, run.ev, live, lay(a, found[i]), lay(b, found[i])));
        let va = prop_values(pattern, run.ev, la);
        let vb = prop_values(s, run.ev, lb);
        assert forall|j: int, k: int, rel: bool| #[trigger] va(j, k, rel) == vb(j, k, rel) by {
            assert(props_at(s, j, k, rel) == opt_subst(props_at(pattern, j, k, rel), m));
            if let Some(e) = props_at(pattern, j, k, rel) {
                lemma_value(e, m, run.ev, live, la, lb);
            }
        }
        assert(va =~= vb);
        if let Some(e) = where_ {
            lemma_value(e, m, run.ev, live, la, lb);
        }
    }
    seqs::lemma_filter_same(found, fa, fb);
    let bs = fitting(pattern, where_, run, a);
    assert(bs == found.filter(fa));
    assert(fitting(s, w, run, b) == found.filter(fb));
    let ra = matched(optional, pattern, where_, run, a);
    let rb = matched(optional, s, w, run, b);
    if optional && bs.len() == 0 {
        let o = (run.missing)(p, a);
        assert forall|x: Seq<char>| #[trigger] o.contains_key(x) implies !m.contains_key(x) by {
            assert(pattern_names(p, x));
        }
        lemma_lay(m, run.ev, live, a, b, o);
    } else {
        assert forall|i: int| 0 <= i < ra.len() implies alike(
            m,
            run.ev,
            live,
            #[trigger] ra[i],
            rb[i],
        ) by {
            assert(bs.contains(bs[i]));
            seqs::lemma_filter_contains(found, fa, bs[i]);
            let k = choose|k: int| 0 <= k < found.len() && found[k] == bs[i];
            assert(alike(m, run.ev, live, lay(a, found[k]), lay(b, found[k])));
        }
    }
}

/// An unwind makes alike rows of alike rows.
pub proof fn lemma_unwound<V>(
    expr: ExprV,
    alias: Seq<char>,
    m: Map<Seq<char>, ExprV>,
    run: RunV<V>,
    live: spec_fn(Seq<char>) -> bool,
    a: spec_fn(Seq<char>) -> V,
    b: spec_fn(Seq<char>) -> V,
)
    requires
        looks_only(run.ev),
        constants(m),
        open_to(expr, m, live),
        !m.contains_key(alias),
        alike(m, run.ev, live, a, b),
    ensures
        all_alike(
            m,
            run.ev,
            live,
            unwound(expr, alias, run, a),
            unwound(subst(expr, m), alias, run, b),
        ),
{
    lemma_value(expr, m, run.ev, live, a, b);
    let ra = unwound(expr, alias, run, a);
    let rb = unwound(subst(expr, m), alias, run, b);
    assert forall|i: int| 0 <= i < ra.len() implies alike(
        m,
        run.ev,
        live,
        #[trigger] ra[i],
        rb[i],
    ) by {
        let v = (run.listed)(value_of(expr, run.ev, a))[i];
        lemma_lay(m, run.ev, live, a, b, Map::empty().insert(alias, v));
    }
}

/// The values of an entry of a projection, and those that it is ordered by.
#[verifier::reject_recursive_types(V)]
pub struct EntryV<V> {
    pub vals: Seq<V>,
    pub ords: Seq<V>,
}

/// An order and a page, apart from what is ordered.
#[verifier::reject_recursive_types(V)]
pub struct PageV<V> {
    pub down: Seq<bool>,
    pub skip: Option<V>,
    pub limit: Option<V>,
}

/// Whether a projection aggregates.
pub open spec fn aggregating(p: ProjV) -> bool {
    exists|i: int| 0 <= i < p.items.len() && folds((#[trigger] p.items[i]).expr)
}

/// Which items of a projection are keys.
pub open spec fn keyed(p: ProjV) -> Seq<bool> {
    p.items.map_values(|it: ItemV| !folds(it.expr))
}

/// The keys of rows.
pub open spec fn keys_of<V>(
    p: ProjV,
    run: RunV<V>,
    t: Seq<spec_fn(Seq<char>) -> V>,
) -> Seq<Seq<Option<V>>> {
    t.map_values(
        |r: spec_fn(Seq<char>) -> V|
            p.items.map_values(
                |it: ItemV|
                    if folds(it.expr) {
                        None
                    } else {
                        Some((run.counts_as)(value_of(it.expr, run.ev, r)))
                    },
            ),
    )
}

/// The first `n` places.
pub open spec fn places(n: nat) -> Seq<int> {
    Seq::new(n, |i: int| i)
}

/// The places at which something stands for the first time.
pub open spec fn first_places<K>(ks: Seq<K>) -> Seq<int> {
    places(ks.len()).filter(|i: int| forall|j: int| 0 <= j < i ==> #[trigger] ks[j] != ks[i])
}

/// The places at which the same stands as at a place.
pub open spec fn same_places<K>(ks: Seq<K>, i: int) -> Seq<int> {
    places(ks.len()).filter(|j: int| ks[j] == ks[i])
}

/// The rows of each entry of a projection, by their places. Where there is no key, all
/// rows are one group, also where there is no row.
pub open spec fn groups_in<V>(
    p: ProjV,
    run: RunV<V>,
    t: Seq<spec_fn(Seq<char>) -> V>,
) -> Seq<Seq<int>> {
    let ks = keys_of(p, run, t);
    if !aggregating(p) {
        Seq::new(t.len(), |i: int| seq![i])
    } else if keyed(p).contains(true) {
        first_places(ks).map_values(|i: int| same_places(ks, i))
    } else {
        seq![places(t.len())]
    }
}

/// The rows at places.
pub open spec fn rows_at<V>(t: Seq<spec_fn(Seq<char>) -> V>, ix: Seq<int>) -> Seq<
    spec_fn(Seq<char>) -> V,
> {
    ix.map_values(|i: int| t[i])
}

/// The first row at places.
pub open spec fn first_at<V>(
    run: RunV<V>,
    t: Seq<spec_fn(Seq<char>) -> V>,
    ix: Seq<int>,
) -> spec_fn(Seq<char>) -> V {
    if ix.len() > 0 {
        t[ix[0]]
    } else {
        run.blank
    }
}

/// What the items of a projection come to for some rows.
pub open spec fn vals_of<V>(
    p: ProjV,
    run: RunV<V>,
    t: Seq<spec_fn(Seq<char>) -> V>,
    ix: Seq<int>,
) -> Seq<V> {
    p.items.map_values(
        |it: ItemV| grouped_value(it.expr, run, rows_at(t, ix), first_at(run, t, ix)),
    )
}

/// Columns that stand for values.
pub open spec fn named<V>(cols: Seq<Seq<char>>, vals: Seq<V>) -> Map<Seq<char>, V> {
    Map::new(|x: Seq<char>| cols.contains(x), |x: Seq<char>| vals[cols.index_of(x)])
}

/// What names stand for where a projection is ordered and its condition is asked.
pub open spec fn seen<V>(
    p: ProjV,
    run: RunV<V>,
    t: Seq<spec_fn(Seq<char>) -> V>,
    ix: Seq<int>,
) -> spec_fn(Seq<char>) -> V {
    lay(first_at(run, t, ix), named(query::columns_of(p.items), vals_of(p, run, t, ix)))
}

/// An entry of a projection.
pub open spec fn entry<V>(
    p: ProjV,
    run: RunV<V>,
    t: Seq<spec_fn(Seq<char>) -> V>,
    ix: Seq<int>,
) -> EntryV<V> {
    EntryV {
        vals: vals_of(p, run, t, ix),
        ords: p.order.map_values(
            |o: OrderV| grouped_value(o.expr, run, rows_at(t, ix), seen(p, run, t, ix)),
        ),
    }
}

/// What an expression that looks at no row comes to.
pub open spec fn page_value<V>(e: Option<ExprV>, run: RunV<V>) -> Option<V> {
    match e {
        Some(e) => Some(value_of(e, run.ev, run.blank)),
        None => None,
    }
}

/// The order and the page of a projection.
pub open spec fn page_of<V>(p: ProjV, run: RunV<V>) -> PageV<V> {
    PageV {
        down: p.order.map_values(|o: OrderV| o.descending),
        skip: page_value(p.skip, run),
        limit: page_value(p.limit, run),
    }
}

/// The row that a projection makes of some rows.
pub open spec fn row_made<V>(
    p: ProjV,
    run: RunV<V>,
    t: Seq<spec_fn(Seq<char>) -> V>,
    ix: Seq<int>,
) -> spec_fn(Seq<char>) -> V {
    lay(
        if p.star {
            first_at(run, t, ix)
        } else {
            run.blank
        },
        named(query::columns_of(p.items), vals_of(p, run, t, ix)),
    )
}

/// The entries that a projection tells apart, by their places.
pub open spec fn told_apart<V>(p: ProjV, run: RunV<V>, es: Seq<EntryV<V>>) -> Seq<int> {
    if p.distinct {
        first_places(es.map_values(|e: EntryV<V>| e.vals.map_values(run.counts_as)))
    } else {
        places(es.len())
    }
}

/// The entries that a projection keeps, in order, by their places.
pub open spec fn entries_kept<V>(p: ProjV, run: RunV<V>, es: Seq<EntryV<V>>) -> Seq<int> {
    let ps = told_apart(p, run, es);
    (run.arranged)(page_of(p, run), ps.map_values(|k: int| es[k].ords)).map_values(|q: int| ps[q])
}

/// The groups of a projection that are kept, in order.
pub open spec fn groups_kept<V>(
    p: ProjV,
    where_: Option<ExprV>,
    run: RunV<V>,
    t: Seq<spec_fn(Seq<char>) -> V>,
) -> Seq<Seq<int>> {
    let gs = groups_in(p, run, t);
    entries_kept(p, run, gs.map_values(|ix: Seq<int>| entry(p, run, t, ix))).map_values(
        |k: int| gs[k],
    ).filter(|ix: Seq<int>| passes(where_, run, seen(p, run, t, ix)))
}

/// The rows that a projection makes of rows.
pub open spec fn rows_made<V>(
    p: ProjV,
    where_: Option<ExprV>,
    run: RunV<V>,
    t: Seq<spec_fn(Seq<char>) -> V>,
) -> Seq<spec_fn(Seq<char>) -> V> {
    groups_kept(p, where_, run, t).map_values(|ix: Seq<int>| row_made(p, run, t, ix))
}

/// Whether an order and a page keep only what is there.
pub open spec fn arranges_own<V>(run: RunV<V>) -> bool {
    forall|pg: PageV<V>, os: Seq<Seq<V>>, k: int|
        0 <= k < (run.arranged)(pg, os).len() ==> 0 <= #[trigger] (run.arranged)(pg, os)[k]
            < os.len()
}

pub proof fn lemma_first_places<K>(ks: Seq<K>)
    ensures
        forall|g: int| 0 <= g < first_places(ks).len() ==> 0 <= #[trigger] first_places(ks)[g] < ks.len(),
{
    let f = |i: int| forall|j: int| 0 <= j < i ==> #[trigger] ks[j] != ks[i];
    let s = first_places(ks);
    assert forall|g: int| 0 <= g < s.len() implies 0 <= #[trigger] s[g] < ks.len() by {
        assert(s.contains(s[g]));
        seqs::lemma_filter_contains(places(ks.len()), f, s[g]);
    }
}

pub proof fn lemma_same_places<K>(ks: Seq<K>, i: int)
    requires
        0 <= i < ks.len(),
    ensures
        same_places(ks, i).len() > 0,
        forall|g: int|
            0 <= g < same_places(ks, i).len() ==> 0 <= #[trigger] same_places(ks, i)[g] < ks.len(),
{
    let f = |j: int| ks[j] == ks[i];
    let s = same_places(ks, i);
    let all = places(ks.len());
    assert(all[i] == i);
    assert(all.contains(i));
    seqs::lemma_filter_contains(all, f, i);
    assert(s.contains(i));
    assert forall|g: int| 0 <= g < s.len() implies 0 <= #[trigger] s[g] < ks.len() by {
        assert(s.contains(s[g]));
        seqs::lemma_filter_contains(all, f, s[g]);
    }
}

pub proof fn lemma_entries_kept<V>(p: ProjV, run: RunV<V>, es: Seq<EntryV<V>>)
    requires
        arranges_own(run),
    ensures
        forall|k: int|
            0 <= k < entries_kept(p, run, es).len() ==> 0 <= #[trigger] entries_kept(p, run, es)[k]
                < es.len(),
{
    let ps = told_apart(p, run, es);
    let os = ps.map_values(|k: int| es[k].ords);
    lemma_first_places(es.map_values(|e: EntryV<V>| e.vals.map_values(run.counts_as)));
    let picks = (run.arranged)(page_of(p, run), os);
    assert forall|k: int| 0 <= k < entries_kept(p, run, es).len() implies 0
        <= #[trigger] entries_kept(p, run, es)[k] < es.len() by {
        assert(0 <= picks[k] < os.len());
        assert(0 <= ps[picks[k]] < es.len());
    }
}

/// Whether a projection, and the condition on it, can have constants in the places of
/// their names: its expressions can, it gives their names to nothing else, its page
/// looks at none of them, it does not tell apart or group what it does not name, and
/// where it aggregates without a key it looks at them under aggregates alone, as it has
/// no row to look at where there is none.
pub open spec fn proj_open(
    p: ProjV,
    where_: Option<ExprV>,
    m: Map<Seq<char>, ExprV>,
    live: spec_fn(Seq<char>) -> bool,
) -> bool {
    &&& forall|i: int| 0 <= i < p.items.len() ==> open_to((#[trigger] p.items[i]).expr, m, live)
    &&& forall|i: int| 0 <= i < p.order.len() ==> open_to((#[trigger] p.order[i]).expr, m, live)
    &&& where_ matches Some(e) ==> open_to(e, m, live)
    &&& p.skip matches Some(e) ==> open_to(e, m, |x: Seq<char>| false)
    &&& p.limit matches Some(e) ==> open_to(e, m, |x: Seq<char>| false)
    &&& forall|x: Seq<char>| #[trigger] m.contains_key(x) && live(x) ==> !items_renew(p.items, x)
    &&& aggregating(p) || p.distinct ==> !p.star
    &&& aggregating(p) && !keyed(p).contains(true) ==> {
        &&& forall|i: int, x: Seq<char>|
            0 <= i < p.items.len() && #[trigger] m.contains_key(x) ==> !reads_outside(
                (#[trigger] p.items[i]).expr,
                x,
            )
        &&& forall|i: int, x: Seq<char>|
            0 <= i < p.order.len() && #[trigger] m.contains_key(x) ==> !reads_outside(
                (#[trigger] p.order[i]).expr,
                x,
            )
        &&& where_ matches Some(e) ==> open_to(e, m, |x: Seq<char>| false)
    }
}

pub proof fn lemma_outside(e: ExprV, x: Seq<char>)
    requires
        reads_outside(e, x),
    ensures
        ast::reads(e, x),
    decreases e,
{
    if e.head != HeadV::Var(x) {
        let i = choose|i: int| 0 <= i < e.args.len() && reads_outside(#[trigger] e.args[i], x);
        lemma_outside(e.args[i], x);
    }
}

/// Constants hold no aggregate.
proof fn lemma_folds_stays(e: ExprV, m: Map<Seq<char>, ExprV>)
    requires
        constants(m),
    ensures
        folds(subst(e, m)) == folds(e),
    decreases e,
{
    let s = subst(e, m);
    match e.head {
        HeadV::Var(_) => {},
        HeadV::Pattern(_) => {},
        HeadV::Opaque(_) => {},
        _ => {
            assert forall|i: int| 0 <= i < e.args.len() implies folds(
                #[trigger] e.args[i],
            ) == folds(s.args[i]) by {
                assert(s.args[i] == subst(e.args[i], m));
                lemma_folds_stays(e.args[i], m);
            }
            if folds(e) && !aggregates(e) {
                let i = choose|i: int|
                    0 <= i < e.args.len() && folds(#[trigger] e.args[i]);
                assert(folds(s.args[i]));
            }
            if folds(s) && !aggregates(e) {
                let i = choose|i: int|
                    0 <= i < s.args.len() && folds(#[trigger] s.args[i]);
                assert(folds(e.args[i]));
            }
        },
    }
}

/// Whether the rows of an entry are there, and there are some unless a projection
/// aggregates without a key.
spec fn ix_ok(p: ProjV, ix: Seq<int>, n: nat) -> bool {
    &&& forall|i: int| 0 <= i < ix.len() ==> 0 <= #[trigger] ix[i] < n
    &&& ix.len() == 0 ==> aggregating(p) && !keyed(p).contains(true)
}

/// The columns of a projection stay with constants in the places of their names.
proof fn lemma_columns_stay(p: ProjV, m: Map<Seq<char>, ExprV>)
    ensures
        query::columns_of(subst_proj(p, m).items) == query::columns_of(p.items),
{
    assert(query::columns_of(subst_proj(p, m).items) =~= query::columns_of(p.items));
}

/// What the items of a projection come to stays.
proof fn lemma_vals<V>(
    p: ProjV,
    where_: Option<ExprV>,
    m: Map<Seq<char>, ExprV>,
    run: RunV<V>,
    live: spec_fn(Seq<char>) -> bool,
    a: Seq<spec_fn(Seq<char>) -> V>,
    b: Seq<spec_fn(Seq<char>) -> V>,
    ix: Seq<int>,
)
    requires
        looks_only(run.ev),
        constants(m),
        proj_open(p, where_, m, live),
        all_alike(m, run.ev, live, a, b),
        ix_ok(p, ix, a.len()),
    ensures
        vals_of(p, run, a, ix) == vals_of(subst_proj(p, m), run, b, ix),
        all_alike(m, run.ev, live, rows_at(a, ix), rows_at(b, ix)),
        ix.len() > 0 ==> alike(m, run.ev, live, first_at(run, a, ix), first_at(run, b, ix)),
{
    let s = subst_proj(p, m);
    let ra = rows_at(a, ix);
    let rb = rows_at(b, ix);
    let fa = first_at(run, a, ix);
    let fb = first_at(run, b, ix);
    assert forall|i: int| 0 <= i < ra.len() implies alike(
        m,
        run.ev,
        live,
        #[trigger] ra[i],
        rb[i],
    ) by {
        assert(alike(m, run.ev, live, a[ix[i]], b[ix[i]]));
    }
    if ix.len() > 0 {
        assert(alike(m, run.ev, live, a[ix[0]], b[ix[0]]));
    }
    let va = vals_of(p, run, a, ix);
    let vb = vals_of(s, run, b, ix);
    assert forall|i: int| 0 <= i < va.len() implies va[i] == vb[i] by {
        let e = p.items[i].expr;
        assert(s.items[i] == subst_item(p.items[i], m));
        assert(open_to(e, m, live));
        assert forall|x: Seq<char>| #[trigger]
            m.contains_key(x) && reads_outside(e, x) implies fa(x) == constant(run.ev, m[x]) by {
            lemma_outside(e, x);
            if ix.len() == 0 {
                assert(!reads_outside(p.items[i].expr, x));
            }
        }
        lemma_grouped(e, m, run, live, ra, rb, fa, fb);
    }
    assert(va =~= vb);
}

/// What names stand for after a projection is alike.
proof fn lemma_named<V>(
    p: ProjV,
    where_: Option<ExprV>,
    m: Map<Seq<char>, ExprV>,
    run: RunV<V>,
    live: spec_fn(Seq<char>) -> bool,
    a: Seq<spec_fn(Seq<char>) -> V>,
    b: Seq<spec_fn(Seq<char>) -> V>,
    ix: Seq<int>,
    x: Seq<char>,
)
    requires
        looks_only(run.ev),
        constants(m),
        proj_open(p, where_, m, live),
        all_alike(m, run.ev, live, a, b),
        ix_ok(p, ix, a.len()),
        m.contains_key(x),
        live(x),
        query::columns_of(p.items).contains(x),
    ensures
        ix.len() > 0,
        named(query::columns_of(p.items), vals_of(p, run, a, ix))[x] == constant(run.ev, m[x]),
{
    let cols = query::columns_of(p.items);
    let k = cols.index_of(x);
    assert(0 <= k < cols.len() && cols[k] == x) by {
        let j = choose|j: int| 0 <= j < cols.len() && cols[j] == x;
        assert(cols.contains(x));
    }
    let it = p.items[k];
    assert(query::column_of(p.items[k]) == x);
    assert(!items_renew(p.items, x));
    assert(ast::as_var(it.expr) == Some(x));
    assert(it.expr.head == HeadV::Var(x));
    assert(ast::reads(it.expr, x));
    assert(open_to(p.items[k].expr, m, live));
    assert(keyed(p)[k]);
    assert(keyed(p).contains(true));
    assert(alike(m, run.ev, live, a[ix[0]], b[ix[0]]));
    assert(vals_of(p, run, a, ix)[k] == first_at(run, a, ix)(x));
}

/// An entry of a projection stays, and what its condition comes to.
proof fn lemma_entry<V>(
    p: ProjV,
    where_: Option<ExprV>,
    m: Map<Seq<char>, ExprV>,
    run: RunV<V>,
    live: spec_fn(Seq<char>) -> bool,
    a: Seq<spec_fn(Seq<char>) -> V>,
    b: Seq<spec_fn(Seq<char>) -> V>,
    ix: Seq<int>,
)
    requires
        looks_only(run.ev),
        constants(m),
        proj_open(p, where_, m, live),
        all_alike(m, run.ev, live, a, b),
        ix_ok(p, ix, a.len()),
    ensures
        entry(p, run, a, ix) == entry(subst_proj(p, m), run, b, ix),
        passes(where_, run, seen(p, run, a, ix)) == passes(
            opt_subst(where_, m),
            run,
            seen(subst_proj(p, m), run, b, ix),
        ),
{
    let s = subst_proj(p, m);
    lemma_vals(p, where_, m, run, live, a, b, ix);
    lemma_columns_stay(p, m);
    let none = |x: Seq<char>| false;
    let o = named(query::columns_of(p.items), vals_of(p, run, a, ix));
    let fa = first_at(run, a, ix);
    let fb = first_at(run, b, ix);
    let sa = seen(p, run, a, ix);
    let sb = seen(s, run, b, ix);
    assert forall|x: Seq<char>| !m.contains_key(x) implies #[trigger] fa(x) == fb(x) by {
        if ix.len() > 0 {
            assert(alike(m, run.ev, live, fa, fb));
        }
    }
    assert forall|x: Seq<char>| !m.contains_key(x) implies #[trigger] sa(x) == sb(x) by {
        assert(fa(x) == fb(x));
    }
    assert(alike(m, run.ev, none, sa, sb));
    if ix.len() > 0 {
        assert forall|x: Seq<char>| #[trigger] m.contains_key(x) && live(x) implies sa(x)
            == constant(run.ev, m[x]) by {
            assert(alike(m, run.ev, live, fa, fb));
            if query::columns_of(p.items).contains(x) {
                lemma_named(p, where_, m, run, live, a, b, ix, x);
            }
        }
        assert(alike(m, run.ev, live, sa, sb));
    }
    let oa = entry(p, run, a, ix).ords;
    let ob = entry(s, run, b, ix).ords;
    assert forall|i: int| 0 <= i < oa.len() implies oa[i] == ob[i] by {
        let e = p.order[i].expr;
        assert(s.order[i].expr == subst(e, m));
        assert(open_to(e, m, live));
        assert forall|x: Seq<char>| #[trigger]
            m.contains_key(x) && reads_outside(e, x) implies sa(x) == constant(run.ev, m[x]) by {
            lemma_outside(e, x);
            if ix.len() == 0 {
                assert(!reads_outside(p.order[i].expr, x));
            }
        }
        lemma_grouped(e, m, run, live, rows_at(a, ix), rows_at(b, ix), sa, sb);
    }
    assert(oa =~= ob);
    if let Some(e) = where_ {
        if ix.len() > 0 {
            lemma_value(e, m, run.ev, live, sa, sb);
        } else {
            lemma_value(e, m, run.ev, none, sa, sb);
        }
    }
}

/// The keys and groups of a projection stay.
proof fn lemma_groups<V>(
    p: ProjV,
    where_: Option<ExprV>,
    m: Map<Seq<char>, ExprV>,
    run: RunV<V>,
    live: spec_fn(Seq<char>) -> bool,
    a: Seq<spec_fn(Seq<char>) -> V>,
    b: Seq<spec_fn(Seq<char>) -> V>,
)
    requires
        looks_only(run.ev),
        arranges_own(run),
        constants(m),
        proj_open(p, where_, m, live),
        all_alike(m, run.ev, live, a, b),
    ensures
        groups_in(p, run, a) == groups_in(subst_proj(p, m), run, b),
        forall|g: int|
            0 <= g < groups_in(p, run, a).len() ==> ix_ok(
                p,
                #[trigger] groups_in(p, run, a)[g],
                a.len(),
            ),
{
    let s = subst_proj(p, m);
    assert forall|i: int| 0 <= i < p.items.len() implies folds((#[trigger] p.items[i]).expr)
        == folds(s.items[i].expr) by {
        assert(s.items[i] == subst_item(p.items[i], m));
        lemma_folds_stays(p.items[i].expr, m);
    }
    if aggregating(p) {
        let i = choose|i: int| 0 <= i < p.items.len() && folds((#[trigger] p.items[i]).expr);
        assert(folds(s.items[i].expr));
    }
    if aggregating(s) {
        let i = choose|i: int| 0 <= i < s.items.len() && folds((#[trigger] s.items[i]).expr);
        assert(folds(p.items[i].expr));
    }
    assert(keyed(p) =~= keyed(s)) by {
        assert forall|i: int| 0 <= i < p.items.len() implies keyed(p)[i] == keyed(s)[i] by {
            assert(folds(p.items[i].expr) == folds(s.items[i].expr));
        }
    }
    let ka = keys_of(p, run, a);
    let kb = keys_of(s, run, b);
    assert forall|r: int| 0 <= r < ka.len() implies ka[r] == kb[r] by {
        assert(alike(m, run.ev, live, a[r], b[r]));
        assert forall|i: int| 0 <= i < p.items.len() implies ka[r][i] == kb[r][i] by {
            assert(folds(p.items[i].expr) == folds(s.items[i].expr));
            assert(s.items[i] == subst_item(p.items[i], m));
            assert(open_to(p.items[i].expr, m, live));
            lemma_value(p.items[i].expr, m, run.ev, live, a[r], b[r]);
        }
        assert(ka[r] =~= kb[r]);
    }
    assert(ka =~= kb);
    assert(groups_in(p, run, a) =~= groups_in(s, run, b));
    assert forall|g: int| 0 <= g < groups_in(p, run, a).len() implies ix_ok(
        p,
        #[trigger] groups_in(p, run, a)[g],
        a.len(),
    ) by {
        if aggregating(p) && keyed(p).contains(true) {
            lemma_first_places(ka);
            lemma_same_places(ka, first_places(ka)[g]);
        }
    }
}

proof fn lemma_page<V>(p: ProjV, where_: Option<ExprV>, m: Map<Seq<char>, ExprV>, run: RunV<V>, live:
    spec_fn(Seq<char>) -> bool)
    requires
        looks_only(run.ev),
        constants(m),
        proj_open(p, where_, m, live),
    ensures
        page_of(p, run) == page_of(subst_proj(p, m), run),
{
    let s = subst_proj(p, m);
    let none = |x: Seq<char>| false;
    assert(alike(m, run.ev, none, run.blank, run.blank));
    if let Some(e) = p.skip {
        lemma_value(e, m, run.ev, none, run.blank, run.blank);
    }
    if let Some(e) = p.limit {
        lemma_value(e, m, run.ev, none, run.blank, run.blank);
    }
    assert(page_of(p, run).down =~= page_of(s, run).down);
}

/// The groups that a projection keeps stay.
proof fn lemma_kept<V>(
    p: ProjV,
    where_: Option<ExprV>,
    m: Map<Seq<char>, ExprV>,
    run: RunV<V>,
    live: spec_fn(Seq<char>) -> bool,
    a: Seq<spec_fn(Seq<char>) -> V>,
    b: Seq<spec_fn(Seq<char>) -> V>,
)
    requires
        looks_only(run.ev),
        arranges_own(run),
        constants(m),
        proj_open(p, where_, m, live),
        all_alike(m, run.ev, live, a, b),
    ensures
        groups_kept(p, where_, run, a) == groups_kept(
            subst_proj(p, m),
            opt_subst(where_, m),
            run,
            b,
        ),
        forall|g: int|
            0 <= g < groups_kept(p, where_, run, a).len() ==> ix_ok(
                p,
                #[trigger] groups_kept(p, where_, run, a)[g],
                a.len(),
            ),
{
    let s = subst_proj(p, m);
    let w = opt_subst(where_, m);
    lemma_groups(p, where_, m, run, live, a, b);
    lemma_page(p, where_, m, run, live);
    let gs = groups_in(p, run, a);
    let ea = gs.map_values(|ix: Seq<int>| entry(p, run, a, ix));
    let eb = gs.map_values(|ix: Seq<int>| entry(s, run, b, ix));
    assert forall|g: int| 0 <= g < gs.len() implies ea[g] == eb[g] by {
        assert(ix_ok(p, gs[g], a.len()));
        lemma_entry(p, where_, m, run, live, a, b, gs[g]);
    }
    assert(ea =~= eb);
    let picks = entries_kept(p, run, ea);
    lemma_entries_kept(p, run, ea);
    let all = picks.map_values(|k: int| gs[k]);
    let fa = |ix: Seq<int>| passes(where_, run, seen(p, run, a, ix));
    let fb = |ix: Seq<int>| passes(w, run, seen(s, run, b, ix));
    assert forall|i: int| 0 <= i < all.len() implies #[trigger] fa(all[i]) == fb(all[i]) by {
        assert(0 <= picks[i] < ea.len());
        assert(ix_ok(p, gs[picks[i]], a.len()));
        lemma_entry(p, where_, m, run, live, a, b, gs[picks[i]]);
    }
    seqs::lemma_filter_same(all, fa, fb);
    let kept = groups_kept(p, where_, run, a);
    assert(kept == all.filter(fa));
    assert forall|g: int| 0 <= g < kept.len() implies ix_ok(p, #[trigger] kept[g], a.len()) by {
        assert(kept.contains(kept[g]));
        seqs::lemma_filter_contains(all, fa, kept[g]);
        let i = choose|i: int| 0 <= i < all.len() && all[i] == kept[g];
        assert(0 <= picks[i] < ea.len());
        assert(ix_ok(p, gs[picks[i]], a.len()));
    }
}

/// The rows of a projection, by its columns.
pub open spec fn answer<V>(p: ProjV, t: Seq<spec_fn(Seq<char>) -> V>) -> Seq<Seq<V>> {
    t.map_values(
        |r: spec_fn(Seq<char>) -> V| query::columns_of(p.items).map_values(|x: Seq<char>| r(x)),
    )
}

/// A projection makes alike rows of alike rows, and its columns are the same.
pub proof fn lemma_rows_made<V>(
    p: ProjV,
    where_: Option<ExprV>,
    m: Map<Seq<char>, ExprV>,
    run: RunV<V>,
    live: spec_fn(Seq<char>) -> bool,
    after: spec_fn(Seq<char>) -> bool,
    a: Seq<spec_fn(Seq<char>) -> V>,
    b: Seq<spec_fn(Seq<char>) -> V>,
)
    requires
        looks_only(run.ev),
        arranges_own(run),
        constants(m),
        proj_open(p, where_, m, live),
        all_alike(m, run.ev, live, a, b),
        forall|x: Seq<char>| #[trigger]
            after(x) ==> live(x) && (p.star || query::columns_of(p.items).contains(x)),
    ensures
        all_alike(
            m,
            run.ev,
            after,
            rows_made(p, where_, run, a),
            rows_made(subst_proj(p, m), opt_subst(where_, m), run, b),
        ),
        answer(p, rows_made(p, where_, run, a)) == answer(
            subst_proj(p, m),
            rows_made(subst_proj(p, m), opt_subst(where_, m), run, b),
        ),
{
    let s = subst_proj(p, m);
    let w = opt_subst(where_, m);
    lemma_kept(p, where_, m, run, live, a, b);
    lemma_columns_stay(p, m);
    let cols = query::columns_of(p.items);
    let kept = groups_kept(p, where_, run, a);
    let ra = rows_made(p, where_, run, a);
    let rb = rows_made(s, w, run, b);
    assert forall|i: int| 0 <= i < ra.len() implies alike(
        m,
        run.ev,
        after,
        #[trigger] ra[i],
        rb[i],
    ) by {
        let ix = kept[i];
        assert(ix_ok(p, kept[i], a.len()));
        lemma_vals(p, where_, m, run, live, a, b, ix);
        let o = named(cols, vals_of(p, run, a, ix));
        let c = ra[i];
        let d = rb[i];
        assert(c == row_made(p, run, a, ix) && d == row_made(s, run, b, ix));
        let fa = first_at(run, a, ix);
        let fb = first_at(run, b, ix);
        assert forall|x: Seq<char>| !m.contains_key(x) implies #[trigger] c(x) == d(x) by {
            if p.star {
                assert(fa(x) == fb(x));
            }
        }
        assert forall|x: Seq<char>| #[trigger] m.contains_key(x) && after(x) implies c(x)
            == constant(run.ev, m[x]) by {
            if cols.contains(x) {
                lemma_named(p, where_, m, run, live, a, b, ix, x);
            } else {
                assert(fa(x) == constant(run.ev, m[x]));
            }
        }
    }
    let aa = answer(p, ra);
    let ab = answer(s, rb);
    assert forall|i: int| 0 <= i < aa.len() implies aa[i] == ab[i] by {
        let ix = kept[i];
        assert(ix_ok(p, kept[i], a.len()));
        lemma_vals(p, where_, m, run, live, a, b, ix);
        assert forall|j: int| 0 <= j < cols.len() implies ra[i](cols[j]) == rb[i](cols[j]) by {
            assert(cols.contains(cols[j]));
        }
        assert(aa[i] =~= ab[i]);
    }
    assert(aa =~= ab);
}

/// The rows that a clause makes of rows.
pub open spec fn clause_rows<V>(c: ClauseV, run: RunV<V>, t: Seq<spec_fn(Seq<char>) -> V>) -> Seq<
    spec_fn(Seq<char>) -> V,
> {
    match c {
        ClauseV::Match { optional, pattern, where_ } => flat(
            t,
            |r: spec_fn(Seq<char>) -> V| matched(optional, pattern, where_, run, r),
        ),
        ClauseV::Unwind { expr, alias } => flat(
            t,
            |r: spec_fn(Seq<char>) -> V| unwound(expr, alias, run, r),
        ),
        ClauseV::With { proj, where_ } => rows_made(proj, where_, run, t),
        ClauseV::Return { proj } => rows_made(proj, None, run, t),
        ClauseV::Other(_) => t,
    }
}

/// The rows after the first `n` of some clauses that only read.
pub open spec fn rows_after<V>(
    cs: Seq<ClauseV>,
    n: nat,
    run: RunV<V>,
    t: Seq<spec_fn(Seq<char>) -> V>,
) -> Seq<spec_fn(Seq<char>) -> V>
    decreases n,
{
    if n == 0 {
        t
    } else {
        clause_rows(cs[n - 1], run, rows_after(cs, (n - 1) as nat, run, t))
    }
}

/// Whether a name that stood for a constant before some clauses still does after the
/// first `n`: every projection hands it on.
pub open spec fn lives(cs: Seq<ClauseV>, n: nat, x: Seq<char>) -> bool
    decreases n,
{
    n == 0 || (lives(cs, (n - 1) as nat, x) && hands(cs[n - 1], x))
}

/// Whether a clause hands a name on.
pub open spec fn hands(c: ClauseV, x: Seq<char>) -> bool {
    match c {
        ClauseV::With { proj, .. } => proj.star || query::columns_of(proj.items).contains(x),
        ClauseV::Return { proj } => proj.star || query::columns_of(proj.items).contains(x),
        _ => true,
    }
}

/// The names that live after the first `n` of some clauses.
pub open spec fn living(cs: Seq<ClauseV>, n: nat) -> spec_fn(Seq<char>) -> bool {
    |x: Seq<char>| lives(cs, n, x)
}

/// Whether a projection is in scope of some names: its page looks at none of them, it
/// does not tell apart or group what it does not name, and where it aggregates without
/// a key it looks at them under aggregates alone.
pub open spec fn proj_in_scope(
    p: ProjV,
    where_: Option<ExprV>,
    m: Map<Seq<char>, ExprV>,
) -> bool {
    &&& forall|x: Seq<char>| #[trigger]
        m.contains_key(x) ==> !opt_reads(p.skip, x) && !opt_reads(p.limit, x)
    &&& aggregating(p) || p.distinct ==> !p.star
    &&& aggregating(p) && !keyed(p).contains(true) ==> {
        &&& forall|i: int, x: Seq<char>|
            0 <= i < p.items.len() && #[trigger] m.contains_key(x) ==> !reads_outside(
                (#[trigger] p.items[i]).expr,
                x,
            )
        &&& forall|i: int, x: Seq<char>|
            0 <= i < p.order.len() && #[trigger] m.contains_key(x) ==> !reads_outside(
                (#[trigger] p.order[i]).expr,
                x,
            )
        &&& forall|x: Seq<char>| #[trigger] m.contains_key(x) ==> !opt_reads(where_, x)
    }
}

/// Whether clauses only read, and name what is in scope: a name that a projection did
/// not hand on is not named any more, each projection is in scope, and what is returned
/// is named.
pub open spec fn in_scope(cs: Seq<ClauseV>, m: Map<Seq<char>, ExprV>) -> bool {
    &&& forall|i: int, x: Seq<char>|
        0 <= i < cs.len() && #[trigger] m.contains_key(x) && clause_names(#[trigger] cs[i], x)
            ==> lives(cs, i as nat, x)
    &&& forall|i: int|
        0 <= i < cs.len() ==> match #[trigger] cs[i] {
            ClauseV::With { proj, where_ } => proj_in_scope(proj, where_, m),
            ClauseV::Return { proj } => !proj.star && proj_in_scope(proj, None, m),
            ClauseV::Other(_) => false,
            _ => true,
        }
}

pub proof fn lemma_flat_alike<V>(
    m: Map<Seq<char>, ExprV>,
    ev: EvalV<V>,
    live: spec_fn(Seq<char>) -> bool,
    a: Seq<spec_fn(Seq<char>) -> V>,
    b: Seq<spec_fn(Seq<char>) -> V>,
    f: spec_fn(spec_fn(Seq<char>) -> V) -> Seq<spec_fn(Seq<char>) -> V>,
    g: spec_fn(spec_fn(Seq<char>) -> V) -> Seq<spec_fn(Seq<char>) -> V>,
)
    requires
        a.len() == b.len(),
        forall|i: int| 0 <= i < a.len() ==> all_alike(m, ev, live, f(#[trigger] a[i]), g(b[i])),
    ensures
        all_alike(m, ev, live, flat(a, f), flat(b, g)),
    decreases a.len(),
{
    if a.len() > 0 {
        let p = a.drop_last();
        let q = b.drop_last();
        assert forall|i: int| 0 <= i < p.len() implies all_alike(
            m,
            ev,
            live,
            f(#[trigger] p[i]),
            g(q[i]),
        ) by {
            assert(all_alike(m, ev, live, f(a[i]), g(b[i])));
        }
        lemma_flat_alike(m, ev, live, p, q, f, g);
        assert(all_alike(m, ev, live, f(a[a.len() - 1]), g(b[a.len() - 1])));
        let x = flat(p, f);
        let y = flat(q, g);
        let u = f(a.last());
        let v = g(b.last());
        assert forall|i: int| 0 <= i < (x + u).len() implies alike(
            m,
            ev,
            live,
            #[trigger] (x + u)[i],
            (y + v)[i],
        ) by {
            if i < x.len() {
                assert(alike(m, ev, live, x[i], y[i]));
            } else {
                assert(alike(m, ev, live, u[i - x.len()], v[i - x.len()]));
            }
        }
    }
}

/// A clause names what its expressions read.
proof fn lemma_reads_named(c: ClauseV, e: ExprV, x: Seq<char>)
    requires
        stands_in(c, e),
        ast::reads(e, x),
    ensures
        clause_names(c, x),
{
    match c {
        ClauseV::Match { pattern, where_, .. } => {
            if where_ != Some(e) {
                let i = choose|i: int|
                    0 <= i < pattern.paths.len() && in_path(#[trigger] pattern.paths[i], e);
                let p = pattern.paths[i];
                if p.start.props != Some(e) {
                    let k = choose|k: int|
                        0 <= k < p.hops.len() && ((#[trigger] p.hops[k]).0.props == Some(e)
                            || p.hops[k].1.props == Some(e));
                    assert(rel_names(p.hops[k].0, x) || node_names(p.hops[k].1, x));
                }
                assert(path_names(p, x));
            }
        },
        _ => {},
    }
}

/// An expression of a clause can have constants in the places of their names.
proof fn lemma_stands_open(cs: Seq<ClauseV>, m: Map<Seq<char>, ExprV>, i: int, e: ExprV)
    requires
        0 <= i < cs.len(),
        forall|x: Seq<char>| #[trigger] m.contains_key(x) ==> replaceable(cs, m, x),
        in_scope(cs, m),
        stands_in(cs[i], e),
    ensures
        open_to(e, m, living(cs, i as nat)),
{
    let live = living(cs, i as nat);
    assert forall|x: Seq<char>| #[trigger] m.contains_key(x) implies !ast::reads(subst(e, m), x) && (
    ast::reads(e, x) ==> live(x)) by {
        assert(replaceable(cs, m, x));
        assert(!clause_names(subst_clause(cs[i], m), x));
        meaning::lemma_unnamed(cs[i], m, e, x);
        if ast::reads(e, x) {
            lemma_reads_named(cs[i], e, x);
        }
    }
}

proof fn lemma_proj_open(
    cs: Seq<ClauseV>,
    m: Map<Seq<char>, ExprV>,
    i: int,
    p: ProjV,
    where_: Option<ExprV>,
)
    requires
        0 <= i < cs.len(),
        forall|x: Seq<char>| #[trigger] m.contains_key(x) ==> replaceable(cs, m, x),
        in_scope(cs, m),
        cs[i] == (ClauseV::With { proj: p, where_ }) || (cs[i] == (ClauseV::Return { proj: p })
            && where_ is None),
    ensures
        proj_open(p, where_, m, living(cs, i as nat)),
{
    let c = cs[i];
    let live = living(cs, i as nat);
    let none = |x: Seq<char>| false;
    assert forall|k: int| 0 <= k < p.items.len() implies open_to(
        (#[trigger] p.items[k]).expr,
        m,
        live,
    ) by {
        assert(in_proj(p, p.items[k].expr));
        lemma_stands_open(cs, m, i, p.items[k].expr);
    }
    assert forall|k: int| 0 <= k < p.order.len() implies open_to(
        (#[trigger] p.order[k]).expr,
        m,
        live,
    ) by {
        assert(in_proj(p, p.order[k].expr));
        lemma_stands_open(cs, m, i, p.order[k].expr);
    }
    if let Some(e) = where_ {
        assert(stands_in(c, e));
        lemma_stands_open(cs, m, i, e);
    }
    if let Some(e) = p.skip {
        assert(in_proj(p, e));
        lemma_stands_open(cs, m, i, e);
        assert(open_to(e, m, none));
    }
    if let Some(e) = p.limit {
        assert(in_proj(p, e));
        lemma_stands_open(cs, m, i, e);
        assert(open_to(e, m, none));
    }
    assert forall|x: Seq<char>| #[trigger] m.contains_key(x) implies !items_renew(p.items, x) by {
        assert(replaceable(cs, m, x));
        assert(!renews(cs[i], x));
    }
    if aggregating(p) && !keyed(p).contains(true) {
        if let Some(e) = where_ {
            assert(open_to(e, m, none));
        }
    }
}

/// A clause makes alike rows of alike rows.
proof fn lemma_clause<V>(
    cs: Seq<ClauseV>,
    m: Map<Seq<char>, ExprV>,
    i: int,
    run: RunV<V>,
    a: Seq<spec_fn(Seq<char>) -> V>,
    b: Seq<spec_fn(Seq<char>) -> V>,
)
    requires
        0 <= i < cs.len(),
        looks_only(run.ev),
        matches_own(run),
        arranges_own(run),
        constants(m),
        forall|x: Seq<char>| #[trigger] m.contains_key(x) ==> replaceable(cs, m, x),
        in_scope(cs, m),
        all_alike(m, run.ev, living(cs, i as nat), a, b),
    ensures
        all_alike(
            m,
            run.ev,
            living(cs, (i + 1) as nat),
            clause_rows(cs[i], run, a),
            clause_rows(subst_clause(cs[i], m), run, b),
        ),
        cs[i] matches ClauseV::Return { proj } ==> answer(proj, clause_rows(cs[i], run, a))
            == answer(subst_proj(proj, m), clause_rows(subst_clause(cs[i], m), run, b)),
{
    let live = living(cs, i as nat);
    let after = living(cs, (i + 1) as nat);
    let c = cs[i];
    match c {
        ClauseV::Match { optional, pattern, where_ } => {
            assert(after =~= live);
            if let Some(e) = where_ {
                assert(stands_in(c, e));
                lemma_stands_open(cs, m, i, e);
            }
            assert forall|j: int, k: int, rel: bool|
                (#[trigger] props_at(pattern, j, k, rel)) matches Some(e) implies open_to(
                props_at(pattern, j, k, rel)->0,
                m,
                live,
            ) by {
                let e = props_at(pattern, j, k, rel)->0;
                if k != 0 {
                    let h = pattern.paths[j].hops[k - 1];
                    assert(h.0.props == Some(e) || h.1.props == Some(e));
                }
                assert(in_path(pattern.paths[j], e));
                assert(stands_in(c, e));
                lemma_stands_open(cs, m, i, e);
            }
            assert forall|x: Seq<char>| #[trigger] m.contains_key(x) implies !pattern_names(
                bare(pattern),
                x,
            ) by {
                assert(replaceable(cs, m, x));
                assert(!clause_names(subst_clause(cs[i], m), x));
                if pattern_names(bare(pattern), x) {
                    lemma_bare_names(pattern, m, x);
                }
            }
            let f = |r: spec_fn(Seq<char>) -> V| matched(optional, pattern, where_, run, r);
            let g = |r: spec_fn(Seq<char>) -> V|
                matched(optional, subst_pattern(pattern, m), opt_subst(where_, m), run, r);
            assert forall|k: int| 0 <= k < a.len() implies all_alike(
                m,
                run.ev,
                live,
                f(#[trigger] a[k]),
                g(b[k]),
            ) by {
                assert(alike(m, run.ev, live, a[k], b[k]));
                lemma_matched(optional, pattern, where_, m, run, live, a[k], b[k]);
            }
            lemma_flat_alike(m, run.ev, live, a, b, f, g);
        },
        ClauseV::Unwind { expr, alias } => {
            assert(after =~= live);
            assert(stands_in(c, expr));
            lemma_stands_open(cs, m, i, expr);
            if m.contains_key(alias) {
                assert(replaceable(cs, m, alias));
                assert(!clause_names(subst_clause(cs[i], m), alias));
            }
            let f = |r: spec_fn(Seq<char>) -> V| unwound(expr, alias, run, r);
            let g = |r: spec_fn(Seq<char>) -> V| unwound(subst(expr, m), alias, run, r);
            assert forall|k: int| 0 <= k < a.len() implies all_alike(
                m,
                run.ev,
                live,
                f(#[trigger] a[k]),
                g(b[k]),
            ) by {
                assert(alike(m, run.ev, live, a[k], b[k]));
                lemma_unwound(expr, alias, m, run, live, a[k], b[k]);
            }
            lemma_flat_alike(m, run.ev, live, a, b, f, g);
        },
        ClauseV::With { proj, where_ } => {
            lemma_proj_open(cs, m, i, proj, where_);
            lemma_rows_made(proj, where_, m, run, live, after, a, b);
        },
        ClauseV::Return { proj } => {
            lemma_proj_open(cs, m, i, proj, None);
            lemma_rows_made(proj, None, m, run, live, after, a, b);
        },
        ClauseV::Other(_) => {},
    }
}

/// Clauses with constants in the places of their names.
pub open spec fn with_constants(cs: Seq<ClauseV>, m: Map<Seq<char>, ExprV>) -> Seq<ClauseV> {
    cs.map_values(|c: ClauseV| subst_clause(c, m))
}

/// A query that starts with constants may hand them to its clauses in their places.
/// From rows in which names stand for constants, clauses make the rows that they make
/// with the constants in the places of the names, from the rows without them: the names
/// that are left stand for the same, and what is returned is the same. The clauses only
/// read, and name what is in scope.
pub proof fn law_constants_keep_rows<V>(
    cs: Seq<ClauseV>,
    m: Map<Seq<char>, ExprV>,
    n: nat,
    run: RunV<V>,
    a: Seq<spec_fn(Seq<char>) -> V>,
    b: Seq<spec_fn(Seq<char>) -> V>,
)
    requires
        n <= cs.len(),
        looks_only(run.ev),
        matches_own(run),
        arranges_own(run),
        constants(m),
        forall|x: Seq<char>| #[trigger] m.contains_key(x) ==> replaceable(cs, m, x),
        in_scope(cs, m),
        all_alike(m, run.ev, living(cs, 0), a, b),
    ensures
        all_alike(
            m,
            run.ev,
            living(cs, n),
            rows_after(cs, n, run, a),
            rows_after(with_constants(cs, m), n, run, b),
        ),
        n > 0 && cs[n - 1] is Return ==> answer(
            cs[n - 1]->Return_proj,
            rows_after(cs, n, run, a),
        ) == answer(
            with_constants(cs, m)[n - 1]->Return_proj,
            rows_after(with_constants(cs, m), n, run, b),
        ),
    decreases n,
{
    if n > 0 {
        let k = (n - 1) as nat;
        law_constants_keep_rows(cs, m, k, run, a, b);
        lemma_clause(
            cs,
            m,
            n - 1,
            run,
            rows_after(cs, k, run, a),
            rows_after(with_constants(cs, m), k, run, b),
        );
    }
}

} // verus!
