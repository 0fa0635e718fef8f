//! A query whose first part is answered ahead of it returns what the query returns.

use vstd::prelude::*;

use crate::ast;
use crate::clause_law;
use crate::clause_law::{all_alike, alike, answer, arranges_own, clause_rows, constant, constants, in_scope, living, matches_own, named, rows_after, vals_of, with_constants, RunV};
use crate::meaning::looks_only;
use crate::multistage::{as_match, as_with};
use crate::prelude;
use crate::prelude::{all_trimmed, fold_all, folded_rest, handed_to, param_name, seed_applied, seeds_applied, starts_at, subst_clause, BoundV, FoldedV, SeedV};
use crate::query;
use crate::query::{ClauseV, PatternV};
use crate::seed_law;
use crate::seed_law::{all_carry_on, every, looks_bound, looks_equal, looks_labelled, seed_names, LookV};
use crate::trim_law;
use crate::trim_law::all_trim_well;

verus! {

/// The rows after clauses are those after the last of them, from the rows after the
/// first.
proof fn lemma_rows_split<V>(
    cs: Seq<ClauseV>,
    k: nat,
    n: nat,
    run: RunV<V>,
    t: Seq<spec_fn(Seq<char>) -> V>,
)
    requires
        k + n <= cs.len(),
    ensures
        rows_after(cs, k + n, run, t) == rows_after(
            cs.skip(k as int),
            n,
            run,
            rows_after(cs, k, run, t),
        ),
    decreases n,
{
    if n > 0 {
        lemma_rows_split(cs, k, (n - 1) as nat, run, t);
        assert(cs.skip(k as int)[n - 1] == cs[k + n - 1]);
    }
}

/// Whether each of the first `n` columns has its name replaced or is looked up where a
/// path starts, and not both.
spec fn folded_well(st: FoldedV, cols: Seq<Seq<char>>, n: nat) -> bool {
    &&& forall|x: Seq<char>| #[trigger] st.names.contains_key(x) ==> cols.take(n as int).contains(x)
    &&& forall|k: int|
        0 <= k < st.seeds.len() ==> {
            &&& cols.take(n as int).contains((#[trigger] st.seeds[k]).var)
            &&& st.seeds[k].param == param_name(st.seeds[k].var)
            &&& !st.names.contains_key(st.seeds[k].var)
        }
    &&& forall|i: int|
        0 <= i < n ==> st.names.contains_key(#[trigger] cols[i]) || seeded(st.seeds, 0, cols[i])
    &&& forall|j: int, k: int|
        0 <= j < k < st.seeds.len() ==> (#[trigger] st.seeds[j]).var != (#[trigger] st.seeds[k]).var
}

/// Whether a variable is looked up, apart from the first `k` that are.
pub open spec fn seeded(ss: Seq<SeedV>, k: int, x: Seq<char>) -> bool {
    exists|i: int| k <= i < ss.len() && (#[trigger] ss[i]).var == x
}

proof fn lemma_folded(
    q: Seq<ClauseV>,
    p0: PatternV,
    cols: Seq<Seq<char>>,
    vals: Seq<BoundV>,
    n: nat,
)
    requires
        n <= cols.len(),
        cols.no_duplicates(),
        fold_all(q, p0, cols, vals, n) is Some,
    ensures
        folded_well(fold_all(q, p0, cols, vals, n)->0, cols, n),
    decreases n,
{
    if n > 0 {
        let st = fold_all(q, p0, cols, vals, (n - 1) as nat)->0;
        let col = cols[n - 1];
        let end = fold_all(q, p0, cols, vals, n)->0;
        lemma_folded(q, p0, cols, vals, (n - 1) as nat);
        let c = cols.take(n - 1);
        let d = cols.take(n as int);
        assert(d[n - 1] == col);
        assert(d.contains(col));
        assert forall|x: Seq<char>| c.contains(x) implies d.contains(x) && x != col by {
            let i = choose|i: int| 0 <= i < c.len() && c[i] == x;
            assert(d[i] == x);
            assert(cols[i] == x);
        }
        assert forall|x: Seq<char>| #[trigger] end.names.contains_key(x) implies d.contains(x) by {
            if x != col {
                assert(st.names.contains_key(x));
            }
        }
        assert forall|k: int| 0 <= k < end.seeds.len() implies {
            &&& d.contains((#[trigger] end.seeds[k]).var)
            &&& end.seeds[k].param == param_name(end.seeds[k].var)
            &&& !end.names.contains_key(end.seeds[k].var)
        } by {
            if k < st.seeds.len() {
                assert(end.seeds[k] == st.seeds[k]);
                assert(c.contains(st.seeds[k].var));
            } else if st.names.contains_key(col) {
                assert(c.contains(col));
            }
        }
        assert forall|i: int| 0 <= i < n implies end.names.contains_key(#[trigger] cols[i])
            || seeded(end.seeds, 0, cols[i]) by {
            if i < n - 1 {
                if !st.names.contains_key(cols[i]) {
                    let k = choose|k: int|
                        0 <= k < st.seeds.len() && (#[trigger] st.seeds[k]).var == cols[i];
                    assert(end.seeds[k].var == cols[i]);
                }
            } else if end.seeds.len() > st.seeds.len() {
                assert(end.seeds[end.seeds.len() - 1].var == col);
            }
        }
        assert forall|j: int, k: int| 0 <= j < k < end.seeds.len() implies (#[trigger] end.seeds[j]).var
            != (#[trigger] end.seeds[k]).var by {
            assert(end.seeds[j] == st.seeds[j]);
            assert(c.contains(st.seeds[j].var));
            if k < st.seeds.len() {
                assert(end.seeds[k] == st.seeds[k]);
            }
        }
    }
}

/// What a column of a first part stands for: the constant that its name is replaced by,
/// or the entity of its parameter.
pub open spec fn held<V>(st: FoldedV, x: Seq<char>, run: RunV<V>) -> V {
    if st.names.contains_key(x) {
        constant(run.ev, st.names[x])
    } else {
        constant(run.ev, ast::param_v(param_name(x)))
    }
}

/// Whether a first part binds one row, in which the columns stand for what they are
/// turned into.
pub open spec fn binds_one<V>(
    q: Seq<ClauseV>,
    cols: Seq<Seq<char>>,
    st: FoldedV,
    run: RunV<V>,
) -> bool {
    let t = rows_after(q, 2, run, seq![run.blank]);
    &&& t.len() == 1
    &&& forall|i: int| 0 <= i < cols.len() ==> t[0](#[trigger] cols[i]) == held(st, cols[i], run)
}

/// A row in which only the variables stand for something that are looked up, apart from
/// the first `k` that are.
pub open spec fn seed_row<V>(ss: Seq<SeedV>, k: int, run: RunV<V>) -> spec_fn(Seq<char>) -> V {
    |x: Seq<char>|
        if seeded(ss, k, x) {
            constant(run.ev, ast::param_v(param_name(x)))
        } else {
            (run.blank)(x)
        }
}

/// Whether a variable can be looked up: it is handed on, unread, to the match that
/// starts at it by clauses that can do without it, and its entity carries its labels.
pub open spec fn can_look_up<V>(cs: Seq<ClauseV>, ss: Seq<SeedV>, k: int, l: LookV<V>) -> bool {
    let s = ss[k];
    &&& 0 <= s.at < cs.len()
    &&& starts_at(cs[s.at], s.var)
    &&& handed_to(cs, s.var, s.at)
    &&& all_carry_on(cs, s, l.run, seq![seed_row(ss, k, l.run)])
    &&& (l.carries)(constant(l.run.ev, ast::param_v(s.param)), s.labels)
}

/// Looking variables up where paths start keeps the rows.
proof fn lemma_seeds<V>(cs: Seq<ClauseV>, ss: Seq<SeedV>, k: int, l: LookV<V>)
    requires
        0 <= k <= ss.len(),
        cs.len() > 0,
        cs.last() is Return,
        looks_only(l.run.ev),
        matches_own(l.run),
        arranges_own(l.run),
        looks_bound(l),
        looks_labelled(l),
        looks_equal(l),
        forall|i: int|
            0 <= i < ss.len() ==> (#[trigger] ss[i]).param == param_name(ss[i].var),
        forall|i: int, j: int|
            0 <= i < j < ss.len() ==> (#[trigger] ss[i]).var != (#[trigger] ss[j]).var,
        forall|i: int|
            0 <= i < ss.len() ==> #[trigger] can_look_up(seeds_applied(cs, ss.take(i)), ss, i, l),
    ensures
        seeds_applied(cs, ss.take(k)).len() == cs.len(),
        seeds_applied(cs, ss.take(k)).last() == cs.last(),
        rows_after(cs, cs.len(), l.run, seq![seed_row(ss, 0, l.run)]) == rows_after(
            seeds_applied(cs, ss.take(k)),
            cs.len(),
            l.run,
            seq![seed_row(ss, k, l.run)],
        ),
    decreases k,
{
    if k == 0 {
        assert(ss.take(0) =~= Seq::empty());
    } else {
        lemma_seeds(cs, ss, k - 1, l);
        let s = ss[k - 1];
        let before = seeds_applied(cs, ss.take(k - 1));
        assert(ss.take(k).drop_last() =~= ss.take(k - 1));
        assert(ss.take(k).last() == s);
        let after = seeds_applied(cs, ss.take(k));
        assert(after == seed_applied(before, s));
        assert(can_look_up(seeds_applied(cs, ss.take(k - 1)), ss, k - 1, l));
        let a = seed_row(ss, k - 1, l.run);
        let b = seed_row(ss, k, l.run);
        let m = seed_names(s);
        assert forall|x: Seq<char>| !m.contains_key(x) implies #[trigger] a(x) == b(x) by {
            if seeded(ss, k - 1, x) {
                let i = choose|i: int| k - 1 <= i < ss.len() && (#[trigger] ss[i]).var == x;
                assert(i != k - 1);
            }
            if seeded(ss, k, x) {
                let i = choose|i: int| k <= i < ss.len() && (#[trigger] ss[i]).var == x;
                assert(ss[i].var == x);
            }
        }
        assert(seeded(ss, k - 1, s.var)) by {
            assert(ss[k - 1].var == s.var);
        }
        assert(!seeded(ss, k, s.var)) by {
            if seeded(ss, k, s.var) {
                let i = choose|i: int| k <= i < ss.len() && (#[trigger] ss[i]).var == s.var;
                assert(ss[k - 1].var != ss[i].var);
            }
        }
        assert(alike(m, l.run.ev, every(), a, b));
        seed_law::law_seed_keeps_rows(before, cs.len(), s, l, seq![a], seq![b]);
    }
}

/// A query whose first part is answered ahead of it returns what the query returns. The
/// first part binds one row, in which each column stands for the constant that its name
/// is replaced by, or for the entity that it is looked up as where a path starts. What
/// is left of the query names what is in scope, each entity can be looked up, and the
/// constants that nothing reads any more can be dropped.
pub proof fn law_prelude_keeps_answer<V>(
    q: Seq<ClauseV>,
    cols: Seq<Seq<char>>,
    vals: Seq<BoundV>,
    l: LookV<V>,
)
    requires
        prelude::prelude_of(q) is Some,
        cols == query::columns_of((as_with(q[1])->0).0.items),
        cols.no_duplicates(),
        folded_rest(q, cols, vals) is Some,
        ({
            let st = fold_all(q, (as_match(q[0])->0).0, cols, vals, cols.len())->0;
            let rest = q.skip(2);
            let mid = with_constants(rest, st.names);
            &&& constants(st.names)
            &&& binds_one(q, cols, st, l.run)
            &&& in_scope(rest, st.names)
            &&& forall|k: int|
                0 <= k < st.seeds.len() ==> #[trigger] can_look_up(
                    seeds_applied(mid, st.seeds.take(k)),
                    st.seeds,
                    k,
                    l,
                )
            &&& all_trim_well(seeds_applied(mid, st.seeds), l.run, seq![l.run.blank])
        }),
        q.last() is Return,
        looks_only(l.run.ev),
        matches_own(l.run),
        arranges_own(l.run),
        looks_bound(l),
        looks_labelled(l),
        looks_equal(l),
    ensures
        ({
            let out = (folded_rest(q, cols, vals)->0).0;
            &&& out.len() == q.len() - 2
            &&& out.last() is Return
            &&& answer(q.last()->Return_proj, rows_after(q, q.len(), l.run, seq![l.run.blank]))
                == answer(
                out.last()->Return_proj,
                rows_after(out, out.len(), l.run, seq![l.run.blank]),
            )
        }),
{
    let run = l.run;
    let p0 = (as_match(q[0])->0).0;
    let st = fold_all(q, p0, cols, vals, cols.len())->0;
    let m = st.names;
    let ss = st.seeds;
    let rest = q.skip(2);
    let n = rest.len();
    let a = rows_after(q, 2, run, seq![run.blank]);
    let b = seq![seed_row(ss, 0, run)];
    let out = (folded_rest(q, cols, vals)->0).0;
    let mid = with_constants(rest, m);
    lemma_rows_split(q, 2, n, run, seq![run.blank]);
    lemma_folded(q, p0, cols, vals, cols.len());
    assert(cols.take(cols.len() as int) =~= cols);
    assert(mid == rest.map_values(|c: ClauseV| subst_clause(c, m)));
    assert(out == all_trimmed(seeds_applied(mid, ss)));
    let (proj, where_) = as_with(q[1])->0;
    let before = rows_after(q, 1, run, seq![run.blank]);
    assert(a == clause_rows(q[1], run, before));
    let live = living(rest, 0);
    assert forall|i: int| 0 <= i < a.len() implies alike(m, run.ev, live, #[trigger] a[i], b[i]) by {
        let u = a[0];
        let v = b[0];
        let kept = clause_law::groups_kept(proj, None, run, before);
        assert(u == clause_law::row_made(proj, run, before, kept[0]));
        assert forall|x: Seq<char>| !m.contains_key(x) implies #[trigger] u(x) == v(x) by {
            if cols.contains(x) {
                let k = choose|k: int| 0 <= k < cols.len() && cols[k] == x;
                assert(m.contains_key(cols[k]) || seeded(ss, 0, cols[k]));
                assert(a[0](cols[k]) == held(st, cols[k], run));
            } else {
                assert(!named(cols, vals_of(proj, run, before, kept[0])).contains_key(x));
                if seeded(ss, 0, x) {
                    let k = choose|k: int| 0 <= k < ss.len() && (#[trigger] ss[k]).var == x;
                    assert(cols.contains(ss[k].var));
                }
            }
        }
        assert forall|x: Seq<char>| #[trigger] m.contains_key(x) && live(x) implies u(x) == constant(
            run.ev,
            m[x],
        ) by {
            assert(cols.contains(x));
            let k = choose|k: int| 0 <= k < cols.len() && cols[k] == x;
            assert(a[0](cols[k]) == held(st, cols[k], run));
        }
    }
    assert(all_alike(m, run.ev, live, a, b));
    assert forall|x: Seq<char>| #[trigger] m.contains_key(x) implies prelude::replaceable(
        rest,
        m,
        x,
    ) by {
        assert(cols.contains(x));
        let k = choose|k: int| 0 <= k < cols.len() && cols[k] == x;
        assert(m.contains_key(cols[k]));
    }
    clause_law::law_constants_keep_rows(rest, m, n, run, a, b);
    assert(rest[n - 1] == q.last());
    assert(mid[n - 1] == subst_clause(rest[n - 1], m));
    assert(mid.last() == mid[n - 1]);
    lemma_seeds(mid, ss, ss.len() as int, l);
    assert(ss.take(ss.len() as int) =~= ss);
    let end = seeds_applied(mid, ss);
    let r = seed_row(ss, ss.len() as int, run);
    assert forall|x: Seq<char>| #[trigger] r(x) == (run.blank)(x) by {}
    assert(r =~= run.blank);
    trim_law::law_trimmed_keeps_rows(end, n, run, seq![run.blank]);
    assert(end[n - 1] == mid[n - 1]);
    assert(out[n - 1] == end[n - 1]);
}

} // verus!
