//! An entity that starts a path may be looked up there.

use vstd::prelude::*;

use crate::ast;
use crate::ast::{ExprV, HeadV, Op};
use crate::clause_law;
use crate::clause_law::{aggregating, all_alike, alike, arranges_own, bare, clause_rows, constant, constants, fitting, folds, groups_kept, keyed, lay, match_open, matched, matches_own, open_to, passes, prop_values, props_at, proj_open, row_made, rows_after, rows_made, unwound, RunV};
use crate::fuse::subst;
use crate::meaning::{looks_only, value_of, values_of};
use crate::prelude::{defines, handed_to, items_renew, label_start, only_hands_on, seed_applied, starts_at, without_carry, SeedV};
use crate::query;
use crate::query::{ClauseV, ItemV, PathV, PatternV, ProjV};
use crate::rewrite::{clause_names, opt_reads, pattern_names, proj_reads};
use crate::seqs;
use crate::split_law::flat;
use crate::trim_law;
use crate::trim_law::{names_own, with_items};

verus! {

/// How an entity is looked up: an entity that stands for a name of a pattern leaves the
/// bindings that give it to the name, labels leave the bindings whose entity carries
/// them, and being equal and a conjunction hold where they should.
#[verifier::reject_recursive_types(V)]
pub struct LookV<V> {
    pub run: RunV<V>,
    pub carries: spec_fn(V, Seq<Seq<char>>) -> bool,
}

/// A pattern with more labels where its paths start at a variable.
pub open spec fn labelled(p: PatternV, x: Seq<char>, labels: Seq<Seq<char>>) -> PatternV {
    PatternV { paths: p.paths.map_values(|q: PathV| label_start(q, x, labels)) }
}

/// Whether a binding gives an entity to a name.
pub open spec fn gives<V>(x: Seq<char>, v: V) -> spec_fn(Map<Seq<char>, V>) -> bool {
    |o: Map<Seq<char>, V>| o.contains_key(x) && o[x] == v
}

/// Whether a path of a pattern starts at a variable.
pub open spec fn starts(p: PatternV, x: Seq<char>) -> bool {
    exists|j: int| 0 <= j < p.paths.len() && (#[trigger] p.paths[j]).start.var == Some(x)
}

/// Whether every binding of a pattern binds a variable that a path starts at, and where
/// that stands for an entity, the bindings are left that give it the entity.
pub open spec fn looks_bound<V>(l: LookV<V>) -> bool {
    &&& forall|p: PatternV, a: spec_fn(Seq<char>) -> V, x: Seq<char>, i: int|
        starts(p, x) && 0 <= i < (l.run.found)(p, a).len() ==> #[trigger] (l.run.found)(
            p,
            a,
        )[i].contains_key(x)
    &&& forall|p: PatternV, a: spec_fn(Seq<char>) -> V, b: spec_fn(Seq<char>) -> V, x: Seq<char>|
        #![trigger (l.run.found)(p, a), (l.run.found)(p, b), starts(p, x)]
        starts(p, x) && b(x) == (l.run.blank)(x) && (forall|y: Seq<char>|
            y != x ==> #[trigger] a(y) == b(y)) ==> (l.run.found)(p, a) == (l.run.found)(
            p,
            b,
        ).filter(gives(x, a(x)))
}

/// Whether labels leave the bindings whose entity carries them.
pub open spec fn looks_labelled<V>(l: LookV<V>) -> bool {
    &&& forall|
        p: PatternV,
        b: spec_fn(Seq<char>) -> V,
        x: Seq<char>,
        labels: Seq<Seq<char>>,
    |
        #![trigger (l.run.found)(labelled(p, x, labels), b)]
        starts(p, x) ==> (l.run.found)(labelled(p, x, labels), b) == (l.run.found)(p, b).filter(
            |o: Map<Seq<char>, V>| (l.carries)(o[x], labels),
        )
    &&& forall|
        p: PatternV,
        x: Seq<char>,
        labels: Seq<Seq<char>>,
        o: Map<Seq<char>, V>,
        vs: spec_fn(int, int, bool) -> Option<V>,
    | #[trigger]
        (l.run.fits)(labelled(p, x, labels), o, vs) == (l.run.fits)(p, o, vs)
}

/// Whether being equal to a parameter, and a conjunction, hold where they should.
pub open spec fn looks_equal<V>(l: LookV<V>) -> bool {
    &&& forall|vs: Seq<V>|
        vs.len() == 2 ==> ((l.run.holds)(#[trigger] (l.run.ev.op)(HeadV::Op(Op::Eq), vs)) <==> vs[0]
            == vs[1])
    &&& forall|vs: Seq<V>|
        vs.len() == 2 ==> ((l.run.holds)(#[trigger] (l.run.ev.op)(HeadV::Op(Op::And), vs)) <==> (
        l.run.holds)(vs[0]) && (l.run.holds)(vs[1]))
}

/// What a name is looked up as.
pub open spec fn seed_names(s: SeedV) -> Map<Seq<char>, ExprV> {
    Map::empty().insert(s.var, ast::param_v(s.param))
}

/// Every name.
pub open spec fn every() -> spec_fn(Seq<char>) -> bool {
    |x: Seq<char>| true
}

proof fn lemma_filter_filter<A>(
    s: Seq<A>,
    f: spec_fn(A) -> bool,
    g: spec_fn(A) -> bool,
    h: spec_fn(A) -> bool,
)
    requires
        forall|x: A| #[trigger] h(x) == (f(x) && g(x)),
    ensures
        s.filter(f).filter(g) == s.filter(h),
    decreases s.len(),
{
    if s.len() == 0 {
        assert(s =~= Seq::empty());
        seqs::lemma_filter_empty(f);
        seqs::lemma_filter_empty(g);
        seqs::lemma_filter_empty(h);
    } else {
        lemma_filter_filter(s.drop_last(), f, g, h);
        seqs::lemma_filter_last(s, f);
        seqs::lemma_filter_last(s, h);
        let p = s.drop_last().filter(f);
        assert(h(s.last()) == (f(s.last()) && g(s.last())));
        if f(s.last()) {
            seqs::lemma_filter_last(p.push(s.last()), g);
            assert(p.push(s.last()).drop_last() =~= p);
        }
    }
}

/// What being the entity of a parameter, and a condition, come to.
proof fn lemma_seed_where<V>(
    l: LookV<V>,
    s: SeedV,
    where_: Option<ExprV>,
    env: spec_fn(Seq<char>) -> V,
)
    requires
        looks_equal(l),
    ensures
        ({
            let same = ast::bin_v(Op::Eq, ast::var_v(s.var), ast::param_v(s.param));
            let w = Some(
                match where_ {
                    Some(w) => ast::bin_v(Op::And, same, w),
                    None => same,
                },
            );
            passes(w, l.run, env) <==> env(s.var) == constant(l.run.ev, ast::param_v(s.param))
                && passes(where_, l.run, env)
        }),
{
    let ev = l.run.ev;
    let x = ast::var_v(s.var);
    let p = ast::param_v(s.param);
    let same = ast::bin_v(Op::Eq, x, p);
    reveal_with_fuel(values_of, 3);
    reveal_with_fuel(value_of, 2);
    assert(value_of(p, ev, env) == constant(ev, p));
    assert(values_of(same, 2, ev, env) =~= seq![env(s.var), constant(ev, p)]);
    assert(value_of(same, ev, env) == (ev.op)(
        HeadV::Op(Op::Eq),
        seq![env(s.var), constant(ev, p)],
    ));
    if let Some(w) = where_ {
        let both = ast::bin_v(Op::And, same, w);
        assert(values_of(both, 2, ev, env) =~= seq![
            value_of(same, ev, env),
            value_of(w, ev, env),
        ]);
        assert(value_of(both, ev, env) == (ev.op)(
            HeadV::Op(Op::And),
            seq![value_of(same, ev, env), value_of(w, ev, env)],
        ));
    }
}

/// Labels of a start are not among the properties.
proof fn lemma_labelled(p: PatternV, x: Seq<char>, labels: Seq<Seq<char>>)
    ensures
        bare(labelled(p, x, labels)) == labelled(bare(p), x, labels),
        forall|j: int, k: int, rel: bool| #[trigger]
            props_at(labelled(p, x, labels), j, k, rel) == props_at(p, j, k, rel),
{
    let t = labelled(p, x, labels);
    assert forall|j: int| 0 <= j < p.paths.len() implies bare(t).paths[j] == labelled(
        bare(p),
        x,
        labels,
    ).paths[j] by {
        assert(t.paths[j] == label_start(p.paths[j], x, labels));
    }
    assert(bare(t).paths =~= labelled(bare(p), x, labels).paths);
}

/// A match from a bound entity makes the rows that looking the entity up makes.
proof fn lemma_looked_up<V>(
    l: LookV<V>,
    s: SeedV,
    pattern: PatternV,
    where_: Option<ExprV>,
    a: spec_fn(Seq<char>) -> V,
    b: spec_fn(Seq<char>) -> V,
)
    requires
        looks_bound(l),
        looks_labelled(l),
        looks_equal(l),
        starts(pattern, s.var),
        alike(seed_names(s), l.run.ev, every(), a, b),
        b(s.var) == (l.run.blank)(s.var),
        (l.carries)(constant(l.run.ev, ast::param_v(s.param)), s.labels),
    ensures
        ({
            let same = ast::bin_v(Op::Eq, ast::var_v(s.var), ast::param_v(s.param));
            let w = Some(
                match where_ {
                    Some(w) => ast::bin_v(Op::And, same, w),
                    None => same,
                },
            );
            matched(false, pattern, where_, l.run, a) == matched(
                false,
                labelled(pattern, s.var, s.labels),
                w,
                l.run,
                b,
            )
        }),
{
    let run = l.run;
    let x = s.var;
    let v = constant(run.ev, ast::param_v(s.param));
    let m = seed_names(s);
    let same = ast::bin_v(Op::Eq, ast::var_v(s.var), ast::param_v(s.param));
    let w = Some(
        match where_ {
            Some(w) => ast::bin_v(Op::And, same, w),
            None => same,
        },
    );
    let p = bare(pattern);
    let t = labelled(pattern, x, s.labels);
    lemma_labelled(pattern, x, s.labels);
    let j = choose|j: int|
        0 <= j < pattern.paths.len() && (#[trigger] pattern.paths[j]).start.var == Some(x);
    assert(p.paths[j].start.var == Some(x));
    assert(starts(p, x));
    assert(m.contains_key(x));
    assert(a(x) == v);
    assert forall|y: Seq<char>| y != x implies #[trigger] a(y) == b(y) by {
        assert(!m.contains_key(y));
    }
    let found = (run.found)(p, b);
    let lab = |o: Map<Seq<char>, V>| (l.carries)(o[x], s.labels);
    assert((run.found)(p, a) == found.filter(gives(x, v)));
    assert((run.found)(labelled(p, x, s.labels), b) == found.filter(lab));
    let fa = |o: Map<Seq<char>, V>|
        (run.fits)(p, o, prop_values(pattern, run.ev, lay(a, o))) && passes(
            where_,
            run,
            lay(a, o),
        );
    let fb = |o: Map<Seq<char>, V>|
        (run.fits)(labelled(p, x, s.labels), o, prop_values(t, run.ev, lay(b, o))) && passes(
            w,
            run,
            lay(b, o),
        );
    let ga = |o: Map<Seq<char>, V>| gives(x, v)(o) && fa(o);
    let gb = |o: Map<Seq<char>, V>| lab(o) && fb(o);
    lemma_filter_filter(found, gives(x, v), fa, ga);
    lemma_filter_filter(found, lab, fb, gb);
    assert forall|i: int| 0 <= i < found.len() implies #[trigger] ga(found[i]) == gb(found[i]) by {
        let o = found[i];
        lemma_seed_where(l, s, where_, lay(b, o));
        assert((run.found)(p, b)[i].contains_key(x));
        if o[x] == v {
            assert(lay(a, o) =~= lay(b, o)) by {
                let la = lay(a, o);
                let lb = lay(b, o);
                assert forall|y: Seq<char>| #[trigger] la(y) == lb(y) by {
                    if y != x {
                        assert(a(y) == b(y));
                    }
                }
            }
            let va = prop_values(pattern, run.ev, lay(a, o));
            let vb = prop_values(t, run.ev, lay(b, o));
            assert(va =~= vb) by {
                assert forall|j: int, k: int, rel: bool| #[trigger] va(j, k, rel) == vb(
                    j,
                    k,
                    rel,
                ) by {
                    assert(props_at(t, j, k, rel) == props_at(pattern, j, k, rel));
                }
            }
        }
    }
    seqs::lemma_filter_same(found, ga, gb);
    let bs = fitting(pattern, where_, run, a);
    assert(bs == found.filter(ga));
    assert(fitting(t, w, run, b) == found.filter(gb));
    let ra = matched(false, pattern, where_, run, a);
    let rb = matched(false, t, w, run, b);
    assert forall|i: int| 0 <= i < ra.len() implies ra[i] == rb[i] by {
        let o = bs[i];
        assert(bs.contains(o));
        seqs::lemma_filter_contains(found, ga, o);
        let la = lay(a, o);
        let lb = lay(b, o);
        assert forall|y: Seq<char>| #[trigger] la(y) == lb(y) by {
            if y != x {
                assert(a(y) == b(y));
            }
        }
        assert(la =~= lb);
    }
    assert(ra =~= rb);
}

/// Whether a projection that hands a variable on can do without it: its columns differ,
/// one that hands a variable on bears its name, and where the variable is all that it
/// groups by, there is a row.
pub open spec fn carries_on(p: ProjV, x: Seq<char>, rows: nat) -> bool {
    &&& names_own(p)
    &&& query::columns_of(p.items).no_duplicates()
    &&& forall|i: int|
        0 <= i < p.items.len() && defines(#[trigger] p.items[i], x) ==> query::column_of(p.items[i])
            == x
    &&& aggregating(p) && !keyed(with_items(p, |it: ItemV| !defines(it, x))).contains(true) ==> rows
        > 0
}

/// Whether the clauses before a match can do without a variable that they hand on.
pub open spec fn all_carry_on<V>(
    cs: Seq<ClauseV>,
    s: SeedV,
    run: RunV<V>,
    a: Seq<spec_fn(Seq<char>) -> V>,
) -> bool {
    forall|i: int|
        0 <= i < s.at ==> match #[trigger] cs[i] {
            ClauseV::With { proj, .. } => carries_on(
                proj,
                s.var,
                rows_after(cs, i as nat, run, a).len(),
            ),
            ClauseV::Match { .. } => true,
            ClauseV::Unwind { .. } => true,
            _ => false,
        }
}

/// Whether nothing stands for a name in any row.
pub open spec fn unseen<V>(x: Seq<char>, run: RunV<V>, t: Seq<spec_fn(Seq<char>) -> V>) -> bool {
    forall|i: int| 0 <= i < t.len() ==> (#[trigger] t[i])(x) == (run.blank)(x)
}

proof fn lemma_flat_unseen<V>(
    x: Seq<char>,
    run: RunV<V>,
    t: Seq<spec_fn(Seq<char>) -> V>,
    f: spec_fn(spec_fn(Seq<char>) -> V) -> Seq<spec_fn(Seq<char>) -> V>,
)
    requires
        forall|i: int| 0 <= i < t.len() ==> unseen(x, run, f(#[trigger] t[i])),
    ensures
        unseen(x, run, flat(t, f)),
    decreases t.len(),
{
    if t.len() > 0 {
        let p = t.drop_last();
        assert forall|i: int| 0 <= i < p.len() implies unseen(x, run, f(#[trigger] p[i])) by {
            assert(t[i] == p[i]);
        }
        lemma_flat_unseen(x, run, p, f);
        assert(unseen(x, run, f(t[t.len() - 1])));
        let a = flat(p, f);
        let b = f(t.last());
        assert forall|i: int| 0 <= i < (a + b).len() implies (#[trigger] (a + b)[i])(x) == (
        run.blank)(x) by {
            if i < a.len() {
                assert(a[i](x) == (run.blank)(x));
            } else {
                assert(b[i - a.len()](x) == (run.blank)(x));
            }
        }
    }
}

proof fn lemma_flat_same<V>(
    a: Seq<spec_fn(Seq<char>) -> V>,
    b: Seq<spec_fn(Seq<char>) -> V>,
    f: spec_fn(spec_fn(Seq<char>) -> V) -> Seq<spec_fn(Seq<char>) -> V>,
    g: spec_fn(spec_fn(Seq<char>) -> V) -> Seq<spec_fn(Seq<char>) -> V>,
)
    requires
        a.len() == b.len(),
        forall|i: int| 0 <= i < a.len() ==> f(#[trigger] a[i]) == g(b[i]),
    ensures
        flat(a, f) == flat(b, g),
    decreases a.len(),
{
    if a.len() > 0 {
        let p = a.drop_last();
        let q = b.drop_last();
        assert forall|i: int| 0 <= i < p.len() implies f(#[trigger] p[i]) == g(q[i]) by {
            assert(f(a[i]) == g(b[i]));
        }
        lemma_flat_same(p, q, f, g);
        assert(f(a[a.len() - 1]) == g(b[a.len() - 1]));
    }
}

/// A clause that does not name a variable keeps rows alike, and the variable unseen.
proof fn lemma_not_named<V>(
    c: ClauseV,
    s: SeedV,
    run: RunV<V>,
    a: Seq<spec_fn(Seq<char>) -> V>,
    b: Seq<spec_fn(Seq<char>) -> V>,
)
    requires
        looks_only(run.ev),
        matches_own(run),
        c is Match || c is Unwind,
        !clause_names(c, s.var),
        all_alike(seed_names(s), run.ev, every(), a, b),
        unseen(s.var, run, b),
    ensures
        all_alike(seed_names(s), run.ev, every(), clause_rows(c, run, a), clause_rows(c, run, b)),
        unseen(s.var, run, clause_rows(c, run, b)),
{
    let m = seed_names(s);
    let x = s.var;
    assert(constants(m));
    assert forall|y: Seq<char>| #[trigger] m.contains_key(y) implies !clause_names(c, y) by {
        assert(y == x);
    }
    trim_law::lemma_subst_clause_unread(c, m);
    match c {
        ClauseV::Match { optional, pattern, where_ } => {
            trim_law::lemma_match_unread(pattern, where_, m);
            trim_law::lemma_subst_opt_unread(where_, m);
            assert(match_open(pattern, where_, m, every()));
            let f = |r: spec_fn(Seq<char>) -> V| matched(optional, pattern, where_, run, r);
            assert forall|k: int| 0 <= k < a.len() implies all_alike(
                m,
                run.ev,
                every(),
                f(#[trigger] a[k]),
                f(b[k]),
            ) by {
                assert(alike(m, run.ev, every(), a[k], b[k]));
                clause_law::lemma_matched(optional, pattern, where_, m, run, every(), a[k], b[k]);
            }
            clause_law::lemma_flat_alike(m, run.ev, every(), a, b, f, f);
            assert(m.contains_key(x));
            assert(!pattern_names(bare(pattern), x));
            assert forall|k: int| 0 <= k < b.len() implies unseen(x, run, f(#[trigger] b[k])) by {
                let r = b[k];
                let t = f(r);
                let bs = fitting(pattern, where_, run, r);
                let found = (run.found)(bare(pattern), r);
                let keep = |o: Map<Seq<char>, V>|
                    (run.fits)(bare(pattern), o, prop_values(pattern, run.ev, lay(r, o))) && passes(
                        where_,
                        run,
                        lay(r, o),
                    );
                assert forall|i: int| 0 <= i < t.len() implies (#[trigger] t[i])(x) == (run.blank)(
                    x,
                ) by {
                    if optional && bs.len() == 0 {
                        assert(!(run.missing)(bare(pattern), r).contains_key(x));
                    } else {
                        assert(bs == found.filter(keep));
                        assert(bs.contains(bs[i]));
                        seqs::lemma_filter_contains(found, keep, bs[i]);
                        let j = choose|j: int| 0 <= j < found.len() && found[j] == bs[i];
                        assert(!(run.found)(bare(pattern), r)[j].contains_key(x));
                    }
                }
            }
            lemma_flat_unseen(x, run, b, f);
        },
        ClauseV::Unwind { expr, alias } => {
            trim_law::lemma_open_unread(expr, m);
            trim_law::lemma_subst_unread(expr, m);
            assert(open_to(expr, m, every()));
            let f = |r: spec_fn(Seq<char>) -> V| unwound(expr, alias, run, r);
            assert forall|k: int| 0 <= k < a.len() implies all_alike(
                m,
                run.ev,
                every(),
                f(#[trigger] a[k]),
                f(b[k]),
            ) by {
                assert(alike(m, run.ev, every(), a[k], b[k]));
                clause_law::lemma_unwound(expr, alias, m, run, every(), a[k], b[k]);
            }
            clause_law::lemma_flat_alike(m, run.ev, every(), a, b, f, f);
            assert forall|k: int| 0 <= k < b.len() implies unseen(x, run, f(#[trigger] b[k])) by {}
            lemma_flat_unseen(x, run, b, f);
        },
        _ => {},
    }
}

/// The only column of a variable's name is the one that hands it on.
proof fn lemma_one_column(p: ProjV, x: Seq<char>, i: int)
    requires
        query::columns_of(p.items).no_duplicates(),
        forall|k: int|
            0 <= k < p.items.len() && defines(#[trigger] p.items[k], x) ==> query::column_of(
                p.items[k],
            ) == x,
        exists|k: int| 0 <= k < p.items.len() && defines(#[trigger] p.items[k], x),
        0 <= i < p.items.len(),
        query::column_of(p.items[i]) == x,
    ensures
        defines(p.items[i], x),
{
    let k = choose|k: int| 0 <= k < p.items.len() && defines(#[trigger] p.items[k], x);
    let cols = query::columns_of(p.items);
    assert(cols[i] == cols[k]);
}

/// A projection that hands a variable on reads it nowhere else.
proof fn lemma_hands_open(p: ProjV, where_: Option<ExprV>, s: SeedV, rows: nat)
    requires
        only_hands_on(ClauseV::With { proj: p, where_ }, s.var),
        carries_on(p, s.var, rows),
    ensures
        proj_open(p, where_, seed_names(s), every()),
        forall|i: int|
            0 <= i < p.items.len() && defines(#[trigger] p.items[i], s.var) ==> p.items[i].expr.head
                == HeadV::Var(s.var),
        query::columns_of(p.items).contains(s.var),
{
    let x = s.var;
    let m = seed_names(s);
    let keep = |it: ItemV| !defines(it, x);
    let q = with_items(p, keep);
    let no = |y: Seq<char>| false;
    assert(without_carry(ClauseV::With { proj: p, where_ }, x) == (ClauseV::With {
        proj: q,
        where_,
    }));
    assert(!proj_reads(q, x) && !opt_reads(where_, x));
    let d = choose|d: int| 0 <= d < p.items.len() && defines(#[trigger] p.items[d], x);
    assert(query::columns_of(p.items)[d] == x);
    assert forall|i: int| 0 <= i < p.items.len() implies open_to(
        (#[trigger] p.items[i]).expr,
        m,
        every(),
    ) by {
        let e = p.items[i].expr;
        if defines(p.items[i], x) {
            assert(ast::as_var(e) == Some(x));
            assert(subst(e, m) == ast::param_v(s.param));
        } else {
            assert(keep(p.items[i]));
            seqs::lemma_filter_contains(p.items, keep, p.items[i]);
            assert(p.items.contains(p.items[i]));
            assert(q.items.contains(p.items[i]));
            let k = choose|k: int| 0 <= k < q.items.len() && q.items[k] == p.items[i];
            assert(!ast::reads(q.items[k].expr, x));
            trim_law::lemma_open_unread(e, m);
        }
    }
    assert forall|i: int| 0 <= i < p.order.len() implies open_to(
        (#[trigger] p.order[i]).expr,
        m,
        every(),
    ) by {
        assert(!ast::reads(q.order[i].expr, x));
        trim_law::lemma_open_unread(p.order[i].expr, m);
    }
    if let Some(e) = where_ {
        trim_law::lemma_open_unread(e, m);
    }
    if let Some(e) = p.skip {
        assert(!opt_reads(q.skip, x));
        trim_law::lemma_open_unread(e, m);
        assert(open_to(e, m, no));
    }
    if let Some(e) = p.limit {
        assert(!opt_reads(q.limit, x));
        trim_law::lemma_open_unread(e, m);
        assert(open_to(e, m, no));
    }
    if items_renew(p.items, x) {
        let i = choose|i: int|
            0 <= i < p.items.len() && query::column_of(#[trigger] p.items[i]) == x && ast::as_var(
                p.items[i].expr,
            ) != Some(x);
        lemma_one_column(p, x, i);
    }
    assert(keyed(p)[d]);
    assert(keyed(p).contains(true));
}

/// A projection without a variable that it hands on keeps rows alike, and the variable
/// unseen.
proof fn lemma_handed_on<V>(
    p: ProjV,
    where_: Option<ExprV>,
    s: SeedV,
    run: RunV<V>,
    a: Seq<spec_fn(Seq<char>) -> V>,
    b: Seq<spec_fn(Seq<char>) -> V>,
)
    requires
        looks_only(run.ev),
        matches_own(run),
        arranges_own(run),
        only_hands_on(ClauseV::With { proj: p, where_ }, s.var),
        carries_on(p, s.var, a.len()),
        all_alike(seed_names(s), run.ev, every(), a, b),
    ensures
        ({
            let q = with_items(p, |it: ItemV| !defines(it, s.var));
            &&& all_alike(
                seed_names(s),
                run.ev,
                every(),
                rows_made(p, where_, run, a),
                rows_made(q, where_, run, b),
            )
            &&& unseen(s.var, run, rows_made(q, where_, run, b))
        }),
{
    let x = s.var;
    let m = seed_names(s);
    let keep = |it: ItemV| !defines(it, x);
    let q = with_items(p, keep);
    let c = ClauseV::With { proj: p, where_ };
    let d = ClauseV::With { proj: q, where_ };
    assert(without_carry(c, x) == d);
    assert(constants(m));
    lemma_hands_open(p, where_, s, a.len());
    assert(m.contains_key(x));
    assert(trim_law::all_droppable(p, where_, keep, m, run, a)) by {
        assert forall|k: int| 0 <= k < p.items.len() && !keep(#[trigger] p.items[k]) implies {
            &&& !folds(p.items[k].expr)
            &&& forall|i: int, j: int|
                0 <= i < a.len() && 0 <= j < a.len() ==> value_of(
                    p.items[k].expr,
                    run.ev,
                    #[trigger] a[i],
                ) == value_of(p.items[k].expr, run.ev, #[trigger] a[j])
            &&& forall|i: int|
                0 <= i < p.order.len() ==> !ast::reads(
                    (#[trigger] p.order[i]).expr,
                    query::column_of(p.items[k]),
                )
            &&& !opt_reads(where_, query::column_of(p.items[k]))
            &&& m.contains_key(query::column_of(p.items[k]))
        } by {
            assert(defines(p.items[k], x));
            assert forall|i: int, j: int| 0 <= i < a.len() && 0 <= j < a.len() implies value_of(
                p.items[k].expr,
                run.ev,
                #[trigger] a[i],
            ) == value_of(p.items[k].expr, run.ev, #[trigger] a[j]) by {
                assert(alike(m, run.ev, every(), a[i], b[i]));
                assert(alike(m, run.ev, every(), a[j], b[j]));
            }
            assert forall|i: int| 0 <= i < p.order.len() implies !ast::reads(
                (#[trigger] p.order[i]).expr,
                x,
            ) by {
                assert(!ast::reads(q.order[i].expr, x));
            }
        }
    }
    trim_law::lemma_rows_trimmed(p, where_, keep, m, run, a);
    assert forall|y: Seq<char>| #[trigger] m.contains_key(y) implies !clause_names(d, y) by {
        assert(y == x);
    }
    let none = trim_law::none();
    assert(all_alike(m, run.ev, none, a, b)) by {
        assert forall|i: int| 0 <= i < a.len() implies alike(
            m,
            run.ev,
            none,
            #[trigger] a[i],
            b[i],
        ) by {
            assert(alike(m, run.ev, every(), a[i], b[i]));
        }
    }
    lemma_names_own(p, keep);
    trim_law::lemma_clause_unread(d, m, run, a, b);
    let ra = rows_made(p, where_, run, a);
    let rb = rows_made(q, where_, run, b);
    trim_law::lemma_all_alike_trans(m, m, run, ra, rows_made(q, where_, run, a), rb);
    let after = |y: Seq<char>| y == x;
    clause_law::lemma_rows_made(p, where_, m, run, every(), after, a, b);
    let rs = rows_made(
        crate::prelude::subst_proj(p, m),
        crate::rewrite::opt_subst(where_, m),
        run,
        b,
    );
    assert forall|i: int| 0 <= i < ra.len() implies alike(
        m,
        run.ev,
        every(),
        #[trigger] ra[i],
        rb[i],
    ) by {
        assert(alike(m, run.ev, none, ra[i], rb[i]));
        assert(alike(m, run.ev, after, ra[i], rs[i]));
        assert forall|y: Seq<char>| #[trigger] m.contains_key(y) implies ra[i](y) == constant(
            run.ev,
            m[y],
        ) by {
            assert(y == x);
            assert(after(x));
        }
    }
    assert(!query::columns_of(q.items).contains(x)) by {
        if query::columns_of(q.items).contains(x) {
            let k = choose|k: int|
                0 <= k < query::columns_of(q.items).len() && query::columns_of(q.items)[k] == x;
            let it = q.items[k];
            assert(q.items.contains(it));
            seqs::lemma_filter_contains(p.items, keep, it);
            let j = choose|j: int| 0 <= j < p.items.len() && p.items[j] == it;
            lemma_one_column(p, x, j);
        }
    }
    let kept = groups_kept(q, where_, run, b);
    assert forall|i: int| 0 <= i < rb.len() implies (#[trigger] rb[i])(x) == (run.blank)(x) by {
        assert(rb[i] == row_made(q, run, b, kept[i]));
    }
}

proof fn lemma_names_own(p: ProjV, keep: spec_fn(ItemV) -> bool)
    requires
        names_own(p),
    ensures
        names_own(with_items(p, keep)),
{
    let q = with_items(p, keep);
    if aggregating(q) {
        let k = choose|k: int| 0 <= k < q.items.len() && folds((#[trigger] q.items[k]).expr);
        assert(q.items.contains(q.items[k]));
        seqs::lemma_filter_contains(p.items, keep, q.items[k]);
        let j = choose|j: int| 0 <= j < p.items.len() && p.items[j] == q.items[k];
        assert(folds(p.items[j].expr));
    }
}

/// Up to the match that starts at an entity, rows are alike and the entity is unseen.
proof fn lemma_before<V>(
    cs: Seq<ClauseV>,
    n: nat,
    s: SeedV,
    run: RunV<V>,
    a: Seq<spec_fn(Seq<char>) -> V>,
    b: Seq<spec_fn(Seq<char>) -> V>,
)
    requires
        n <= s.at < cs.len(),
        looks_only(run.ev),
        matches_own(run),
        arranges_own(run),
        handed_to(cs, s.var, s.at),
        all_carry_on(cs, s, run, a),
        all_alike(seed_names(s), run.ev, every(), a, b),
        unseen(s.var, run, b),
    ensures
        all_alike(
            seed_names(s),
            run.ev,
            every(),
            rows_after(cs, n, run, a),
            rows_after(seed_applied(cs, s), n, run, b),
        ),
        unseen(s.var, run, rows_after(seed_applied(cs, s), n, run, b)),
    decreases n,
{
    if n > 0 {
        let k = (n - 1) as nat;
        lemma_before(cs, k, s, run, a, b);
        let ra = rows_after(cs, k, run, a);
        let rb = rows_after(seed_applied(cs, s), k, run, b);
        let c = cs[n - 1];
        assert(seed_applied(cs, s)[n - 1] == without_carry(c, s.var));
        assert(only_hands_on(cs[n - 1], s.var));
        match c {
            ClauseV::With { proj, where_ } => {
                lemma_handed_on(proj, where_, s, run, ra, rb);
                assert(without_carry(c, s.var) == (ClauseV::With {
                    proj: with_items(proj, |it: ItemV| !defines(it, s.var)),
                    where_,
                }));
            },
            _ => {
                lemma_not_named(c, s, run, ra, rb);
            },
        }
    }
}

/// An entity that a first part binds, and that is handed on unread to the match that
/// starts at it, may be looked up there by a parameter, and need not be handed on: the
/// clauses from that match on make the same rows.
pub proof fn law_seed_keeps_rows<V>(
    cs: Seq<ClauseV>,
    n: nat,
    s: SeedV,
    l: LookV<V>,
    a: Seq<spec_fn(Seq<char>) -> V>,
    b: Seq<spec_fn(Seq<char>) -> V>,
)
    requires
        0 <= s.at < n <= cs.len(),
        looks_only(l.run.ev),
        matches_own(l.run),
        arranges_own(l.run),
        looks_bound(l),
        looks_labelled(l),
        looks_equal(l),
        starts_at(cs[s.at], s.var),
        handed_to(cs, s.var, s.at),
        all_carry_on(cs, s, l.run, a),
        (l.carries)(constant(l.run.ev, ast::param_v(s.param)), s.labels),
        all_alike(seed_names(s), l.run.ev, every(), a, b),
        unseen(s.var, l.run, b),
    ensures
        rows_after(cs, n, l.run, a) == rows_after(seed_applied(cs, s), n, l.run, b),
    decreases n,
{
    let run = l.run;
    let k = (n - 1) as nat;
    let ds = seed_applied(cs, s);
    if k == s.at {
        lemma_before(cs, k, s, run, a, b);
        let ra = rows_after(cs, k, run, a);
        let rb = rows_after(ds, k, run, b);
        let c = cs[s.at];
        let (pattern, where_) = (c->Match_pattern, c->Match_where_);
        let same = ast::bin_v(Op::Eq, ast::var_v(s.var), ast::param_v(s.param));
        let w = Some(
            match where_ {
                Some(w) => ast::bin_v(Op::And, same, w),
                None => same,
            },
        );
        let t = labelled(pattern, s.var, s.labels);
        assert(ds[s.at] == (ClauseV::Match { optional: false, pattern: t, where_: w }));
        assert(c == (ClauseV::Match { optional: false, pattern, where_ }));
        let f = |r: spec_fn(Seq<char>) -> V| matched(false, pattern, where_, run, r);
        let g = |r: spec_fn(Seq<char>) -> V| matched(false, t, w, run, r);
        assert(starts(pattern, s.var));
        assert forall|i: int| 0 <= i < ra.len() implies f(#[trigger] ra[i]) == g(rb[i]) by {
            assert(alike(seed_names(s), run.ev, every(), ra[i], rb[i]));
            assert(rb[i](s.var) == (run.blank)(s.var));
            lemma_looked_up(l, s, pattern, where_, ra[i], rb[i]);
        }
        lemma_flat_same(ra, rb, f, g);
    } else {
        law_seed_keeps_rows(cs, k, s, l, a, b);
        assert(ds[n - 1] == cs[n - 1]);
    }
}

} // verus!
