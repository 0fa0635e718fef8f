//! What orders, bounds and pages mean, and that a query that is answered in another way
//! gives the answer of the query.

use vstd::prelude::*;

use crate::ast;
use crate::ast::{ExprV, HeadV, Op};
use crate::clause_law;
use crate::clause_law::{aggregating, answer, arranges_own, clause_rows, first_at, folds, lay, named, page_of, places, row_made, rows_after, rows_at, rows_made, unwound, vals_of, RunV};
use crate::constant::{constant_proj, count_query_of, page_rows, replay_of};
use crate::graph::Dir;
use crate::index_topk::{index_topk_of, IndexTopkV};
use crate::located::{is_below, located_of, LocatedV};
use crate::meaning::{looks_only, value_of, values_of, EvalV};
use crate::multistage::MultiV;
use crate::names;
use crate::ordered;
use crate::ordered::{cut, ordered_of, recent, Msg, OrderedV};
use crate::plan;
use crate::plan::CoreV;
use crate::preds::WhereV;
use crate::query;
use crate::query::{ClauseV, ItemV, ProjV};
use crate::seqs;
use crate::tail_law;
use crate::topk;
use crate::topk::EntryV;
use crate::trim_law;
use crate::window;
use crate::window::{bound_of, keeps, window_of, within, Span, WindowV};

verus! {

/// Whether bytes sort before others: they agree up to where the first end or are less.
pub open spec fn sorts_before(a: Seq<u8>, b: Seq<u8>) -> bool {
    exists|k: int|
        0 <= k <= a.len() && k < b.len() && #[trigger] a.take(k) == b.take(k) && (k == a.len() || a[k]
            < b[k])
}

/// Bytes are compared from the left.
pub proof fn law_bytes_sort_from_the_left(a: Seq<u8>, b: Seq<u8>)
    ensures
        topk::bytes_less(a, b) <==> sorts_before(a, b),
    decreases a.len(),
{
    if b.len() > 0 && a.len() > 0 {
        let p = a.skip(1);
        let q = b.skip(1);
        if a[0] == b[0] {
            law_bytes_sort_from_the_left(p, q);
            if sorts_before(p, q) {
                let k = choose|k: int|
                    0 <= k <= p.len() && k < q.len() && #[trigger] p.take(k) == q.take(k) && (k
                        == p.len() || p[k] < q[k]);
                assert(a.take(k + 1) =~= b.take(k + 1)) by {
                    assert forall|i: int| 0 <= i < k + 1 implies a[i] == b[i] by {
                        if i > 0 {
                            assert(p.take(k)[i - 1] == q.take(k)[i - 1]);
                        }
                    }
                }
            }
            if sorts_before(a, b) {
                let k = choose|k: int|
                    0 <= k <= a.len() && k < b.len() && #[trigger] a.take(k) == b.take(k) && (k
                        == a.len() || a[k] < b[k]);
                assert(k > 0);
                assert(p.take(k - 1) =~= q.take(k - 1)) by {
                    assert forall|i: int| 0 <= i < k - 1 implies p[i] == q[i] by {
                        assert(a.take(k)[i + 1] == b.take(k)[i + 1]);
                    }
                }
            }
        } else {
            if a[0] < b[0] {
                assert(a.take(0) =~= b.take(0));
            }
            if sorts_before(a, b) {
                let k = choose|k: int|
                    0 <= k <= a.len() && k < b.len() && #[trigger] a.take(k) == b.take(k) && (k
                        == a.len() || a[k] < b[k]);
                if k > 0 {
                    assert(a.take(k)[0] == b.take(k)[0]);
                }
            }
        }
    } else if b.len() > 0 {
        assert(a.take(0) =~= b.take(0));
    }
}

/// Whether a tuple of keys comes before another: they agree up to a key, which sorts
/// before the other, or after it where it is ordered downwards.
pub open spec fn comes_before(a: Seq<Seq<u8>>, b: Seq<Seq<u8>>, down: Seq<bool>) -> bool {
    exists|k: int|
        0 <= k < down.len() && k < a.len() && k < b.len() && #[trigger] a.take(k) == b.take(k) && a[k]
            != b[k] && if down[k] {
            sorts_before(b[k], a[k])
        } else {
            sorts_before(a[k], b[k])
        }
}

/// Rows are ordered by their first key, of those that agree on it by the second, and so
/// on; a key that is ordered downwards is turned round.
pub proof fn law_keys_sort_in_turn(a: Seq<Seq<u8>>, b: Seq<Seq<u8>>, down: Seq<bool>)
    ensures
        topk::key_less(a, b, down) <==> comes_before(a, b, down),
    decreases down.len(),
{
    if down.len() > 0 && a.len() > 0 && b.len() > 0 {
        let p = a.skip(1);
        let q = b.skip(1);
        let d = down.skip(1);
        law_bytes_sort_from_the_left(a[0], b[0]);
        law_bytes_sort_from_the_left(b[0], a[0]);
        if a[0] == b[0] {
            law_keys_sort_in_turn(p, q, d);
            if comes_before(p, q, d) {
                let k = choose|k: int|
                    0 <= k < d.len() && k < p.len() && k < q.len() && #[trigger] p.take(k)
                        == q.take(k) && p[k] != q[k] && if d[k] {
                        sorts_before(q[k], p[k])
                    } else {
                        sorts_before(p[k], q[k])
                    };
                assert(a.take(k + 1) =~= b.take(k + 1)) by {
                    assert forall|i: int| 0 <= i < k + 1 implies a[i] == b[i] by {
                        if i > 0 {
                            assert(p.take(k)[i - 1] == q.take(k)[i - 1]);
                        }
                    }
                }
                assert(down[k + 1] == d[k]);
            }
            if comes_before(a, b, down) {
                let k = choose|k: int|
                    0 <= k < down.len() && k < a.len() && k < b.len() && #[trigger] a.take(k)
                        == b.take(k) && a[k] != b[k] && if down[k] {
                        sorts_before(b[k], a[k])
                    } else {
                        sorts_before(a[k], b[k])
                    };
                assert(p.take(k - 1) =~= q.take(k - 1)) by {
                    assert forall|i: int| 0 <= i < k - 1 implies p[i] == q[i] by {
                        assert(a.take(k)[i + 1] == b.take(k)[i + 1]);
                    }
                }
                assert(down[k] == d[k - 1]);
            }
        } else {
            assert(a.take(0) =~= b.take(0));
            if comes_before(a, b, down) {
                let k = choose|k: int|
                    0 <= k < down.len() && k < a.len() && k < b.len() && #[trigger] a.take(k)
                        == b.take(k) && a[k] != b[k] && if down[k] {
                        sorts_before(b[k], a[k])
                    } else {
                        sorts_before(a[k], b[k])
                    };
                if k > 0 {
                    assert(a.take(k)[0] == b.take(k)[0]);
                }
            }
        }
    }
}

/// The rows that are kept of an order stand in it: of two, the first has keys that come
/// before, or equal ones and came in before.
pub proof fn law_kept_rows_stand_in_order(es: Seq<EntryV>, cap: int, down: Seq<bool>, i: int, j: int)
    requires
        0 <= cap,
        topk::keyed(es, down.len()),
        topk::numbered(es),
        0 <= i < j < topk::first_of(es, cap, down).len(),
    ensures
        ({
            let kept = topk::first_of(es, cap, down);
            comes_before(kept[i].key, kept[j].key, down) || (kept[i].key == kept[j].key && kept[i].seq
                < kept[j].seq)
        }),
{
    topk::law_topk_is_first_of_sort(es, cap, down);
    let all = topk::sorted(es, down);
    let kept = topk::first_of(es, cap, down);
    assert(kept[i] == all[i] && kept[j] == all[j]);
    assert(topk::before(all[i], all[j], down));
    law_keys_sort_in_turn(kept[i].key, kept[j].key, down);
}

/// The newest entries stand newest first, of two of one date the one with the smaller
/// number first; none is newer than the bound; and none that is left out comes before
/// one that is kept.
pub proof fn law_newest_stand_first(s: Seq<Msg>, cap: int)
    requires
        0 <= cap,
    ensures
        ({
            let r = cut(ordered::sorted(s), cap);
            &&& r.len() == if s.len() <= cap {
                s.len() as int
            } else {
                cap
            }
            &&& forall|i: int, j: int|
                0 <= i < j < r.len() ==> (#[trigger] r[i]).date > (#[trigger] r[j]).date || (r[i].date
                    == r[j].date && r[i].id <= r[j].id)
            &&& forall|i: int| 0 <= i < r.len() ==> s.contains(#[trigger] r[i])
            &&& forall|m: Msg, i: int|
                #![trigger s.contains(m), r[i]]
                s.contains(m) && !r.contains(m) && 0 <= i < r.len() ==> r[i].date > m.date || (
                r[i].date == m.date && r[i].id <= m.id)
        }),
{
    let all = ordered::sorted(s);
    let r = cut(all, cap);
    ordered::law_sorted(s);
    assert forall|i: int, j: int| 0 <= i < j < all.len() implies (#[trigger] all[i]).date > (
    #[trigger] all[j]).date || (all[i].date == all[j].date && all[i].id <= all[j].id) by {
        assert(!ordered::newer(all[j], all[i]));
    }
    assert forall|i: int, j: int| 0 <= i < j < r.len() implies (#[trigger] r[i]).date > (
    #[trigger] r[j]).date || (r[i].date == r[j].date && r[i].id <= r[j].id) by {
        assert(r[i] == all[i] && r[j] == all[j]);
    }
    assert forall|i: int| 0 <= i < r.len() implies s.contains(#[trigger] r[i]) by {
        assert(r[i] == all[i]);
        assert(all.contains(all[i]));
    }
    assert forall|m: Msg, i: int|
        #![trigger s.contains(m), r[i]]
        s.contains(m) && !r.contains(m) && 0 <= i < r.len() implies r[i].date > m.date || (r[i].date
        == m.date && r[i].id <= m.id) by {
        assert(all.contains(m));
        let j = choose|j: int| 0 <= j < all.len() && all[j] == m;
        if j < r.len() {
            assert(r[j] == m);
        }
        assert(r[i] == all[i]);
    }
}

/// The entries of lists that are read up to a bound are those whose date is at most it.
pub proof fn law_recent_keeps_the_bound(s: Seq<Msg>, bound: i64, m: Msg)
    ensures
        recent(s, bound).contains(m) <==> s.contains(m) && m.date <= bound,
{
    seqs::lemma_filter_contains(s, |m: Msg| m.date <= bound, m);
}

/// Whether a comparison of two numbers holds.
pub open spec fn compares(op: Op, a: int, b: int) -> bool {
    match op {
        Op::Lt => a < b,
        Op::Le => a <= b,
        Op::Gt => a > b,
        Op::Ge => a >= b,
        _ => false,
    }
}

/// Whether an expression is a property of a variable.
pub open spec fn is_prop(e: ExprV, x: Seq<char>, k: Seq<char>) -> bool {
    e.head == HeadV::Prop(k) && e.args.len() == 1 && e.args[0].head == HeadV::Var(x)
}

/// A bound says what the comparison says that it is read from: of whatever the property
/// is and whatever it is compared with, on either side.
pub proof fn law_bound_says_the_comparison(e: ExprV, x: Seq<char>, d: i64, v: i64)
    ensures
        bound_of(e, x) matches Some((k, op, by)) ==> e.args.len() == 2 && e.head is Op && {
            ||| is_prop(e.args[0], x, k) && by == e.args[1] && (keeps(op, d, v) <==> compares(
                e.head->Op_0,
                d as int,
                v as int,
            ))
            ||| is_prop(e.args[1], x, k) && by == e.args[0] && (keeps(op, d, v) <==> compares(
                e.head->Op_0,
                v as int,
                d as int,
            ))
        },
{
}

/// A window looks at every condition: those on entries are its bounds, all on one
/// property, and the others are left as they are. It starts at what is bound and reads
/// entries by who made them.
pub proof fn law_window_reads_every_condition(
    hops: Seq<crate::hop::StepHop>,
    ws: Seq<WhereV>,
    width: int,
    w: WindowV,
)
    requires
        window_of(hops, ws, width) == Some(w),
    ensures
        hops.len() == 2,
        hops[0].types == seq!["HAS_CREATOR"@] && hops[0].dir is In && hops[0].varlen is None
            && hops[0].tgt is None && hops[0].rel_var is None && hops[0].src < width,
        hops[1].varlen is None && hops[1].tgt is None && hops[1].rel_var is None && hops[1].src
            == width,
        w.bounds.len() > 0,
        forall|i: int| 0 <= i < w.bounds.len() ==> (#[trigger] w.bounds[i]).0 == w.bounds[0].0,
        forall|i: int, c: ExprV|
            0 <= i < ws.len() && (#[trigger] ws[i]).var == hops[0].var && #[trigger] ast::conjuncts(
                ws[i].expr,
            ).contains(c) ==> exists|b: int|
                0 <= b < w.bounds.len() && bound_of(c, hops[0].var) == Some(#[trigger] w.bounds[b]),
        forall|i: int|
            0 <= i < ws.len() && (#[trigger] ws[i]).var != hops[0].var ==> w.others.contains(ws[i]),
        forall|i: int|
            0 <= i < w.others.len() ==> ws.contains(#[trigger] w.others[i]) && w.others[i].var
                != hops[0].var,
{
    let x = hops[0].var;
    let cs = window::own_conjuncts(ws, x, ws.len());
    let f = |c: ExprV| bound_of(c, x);
    let keep = |v: WhereV| v.var != x;
    assert(w.bounds == cs.map_values(|c: ExprV| f(c)->0));
    assert forall|i: int, c: ExprV|
        0 <= i < ws.len() && (#[trigger] ws[i]).var == x && #[trigger] ast::conjuncts(
            ws[i].expr,
        ).contains(c) implies exists|b: int|
        0 <= b < w.bounds.len() && bound_of(c, x) == Some(#[trigger] w.bounds[b]) by {
        lemma_own(ws, x, ws.len(), i, c);
        let b = choose|b: int| 0 <= b < cs.len() && cs[b] == c;
        assert(f(cs[b]) is Some);
        assert(bound_of(c, x) == Some(w.bounds[b]));
    }
    assert forall|i: int| 0 <= i < ws.len() && (
    #[trigger] ws[i]).var != x implies w.others.contains(ws[i]) by {
        assert(ws.contains(ws[i]));
        seqs::lemma_filter_contains(ws, keep, ws[i]);
    }
    assert forall|i: int| 0 <= i < w.others.len() implies ws.contains(#[trigger] w.others[i])
        && w.others[i].var != x by {
        assert(w.others.contains(w.others[i]));
        seqs::lemma_filter_contains(ws, keep, w.others[i]);
    }
}

proof fn lemma_own(ws: Seq<WhereV>, x: Seq<char>, n: nat, i: int, c: ExprV)
    requires
        0 <= i < n <= ws.len(),
        ws[i].var == x,
        ast::conjuncts(ws[i].expr).contains(c),
    ensures
        window::own_conjuncts(ws, x, n).contains(c),
    decreases n,
{
    let s = window::own_conjuncts(ws, x, (n - 1) as nat);
    let t = ast::conjuncts(ws[n - 1].expr);
    if i < n - 1 {
        lemma_own(ws, x, (n - 1) as nat, i, c);
        let k = choose|k: int| 0 <= k < s.len() && s[k] == c;
        assert(window::own_conjuncts(ws, x, n)[k] == c);
    } else {
        let k = choose|k: int| 0 <= k < t.len() && t[k] == c;
        assert((s + t)[s.len() + k] == c);
    }
}

/// A time lies within a window exactly when it is past the lower end and before the
/// upper one, or at one that belongs to the window.
pub proof fn law_window_is_between(s: Span, d: i64)
    ensures
        within(s, d) <==> (s.lo < d || (s.lo == d && s.lo_in)) && (d < s.hi || (d == s.hi
            && s.hi_in)),
{
}

/// Whether a sort key, with names that stand for items replaced, is a property of a
/// variable: it is that, or the name of the first item of that name, which is.
pub open spec fn key_is_prop(e: ExprV, items: Seq<ItemV>, x: Seq<char>, k: Seq<char>) -> bool {
    ||| is_prop(e, x, k)
    ||| e.head matches HeadV::Var(a) && exists|i: int|
        0 <= i < items.len() && (#[trigger] items[i]).alias == Some(a) && is_prop(
            items[i].expr,
            x,
            k,
        ) && forall|j: int| 0 <= j < i ==> (#[trigger] items[j]).alias != Some(a)
}

proof fn lemma_resolved(e: ExprV, items: Seq<ItemV>, x: Seq<char>, k: Seq<char>)
    requires
        crate::carry::prop_of(ordered::resolved(e, items), x) == Some(k),
    ensures
        key_is_prop(e, items, x, k),
{
    if let Some(a) = ast::as_var(e) {
        let f = |it: ItemV|
            if it.alias == Some(a) {
                Some(it.expr)
            } else {
                None
            };
        if seqs::find_map(items, f) is Some {
            lemma_found_first(items, f);
            let i = choose|i: int|
                0 <= i < items.len() && f(#[trigger] items[i]) == seqs::find_map(items, f)
                    && forall|j: int| 0 <= j < i ==> f(#[trigger] items[j]) is None;
            assert(items[i].alias == Some(a));
            assert forall|j: int| 0 <= j < i implies (#[trigger] items[j]).alias != Some(a) by {
                assert(f(items[j]) is None);
            }
        }
    }
}

proof fn lemma_found_first<A, B>(s: Seq<A>, f: spec_fn(A) -> Option<B>)
    requires
        seqs::find_map(s, f) is Some,
    ensures
        exists|i: int|
            0 <= i < s.len() && f(#[trigger] s[i]) == seqs::find_map(s, f) && forall|j: int|
                0 <= j < i ==> f(#[trigger] s[j]) is None,
    decreases s.len(),
{
    let p = s.drop_last();
    if seqs::find_map(p, f) is Some {
        lemma_found_first(p, f);
        let i = choose|i: int|
            0 <= i < p.len() && f(#[trigger] p[i]) == seqs::find_map(p, f) && forall|j: int|
                0 <= j < i ==> f(#[trigger] p[j]) is None;
        assert(s[i] == p[i]);
        assert forall|j: int| 0 <= j < i implies f(#[trigger] s[j]) is None by {
            assert(s[j] == p[j]);
        }
        assert(f(s[i]) == seqs::find_map(s, f));
    } else {
        lemma_found_none(p, f);
        let n = s.len() - 1;
        assert forall|j: int| 0 <= j < n implies f(#[trigger] s[j]) is None by {
            assert(s[j] == p[j]);
        }
        assert(f(s[n]) == seqs::find_map(s, f));
    }
}

proof fn lemma_found_none<A, B>(s: Seq<A>, f: spec_fn(A) -> Option<B>)
    requires
        seqs::find_map(s, f) is None,
    ensures
        forall|j: int| 0 <= j < s.len() ==> f(#[trigger] s[j]) is None,
    decreases s.len(),
{
    if s.len() > 0 {
        let p = s.drop_last();
        lemma_found_none(p, f);
        assert forall|j: int| 0 <= j < s.len() implies f(#[trigger] s[j]) is None by {
            if j < p.len() {
                assert(s[j] == p[j]);
            }
        }
    }
}

/// Whether a condition compares a property of a variable with something.
pub open spec fn is_comparison(e: ExprV, op: Op, x: Seq<char>, k: Seq<char>, v: ExprV) -> bool {
    e.head == HeadV::Op(op) && e.args.len() == 2 && is_prop(e.args[0], x, k) && e.args[1] == v
}

/// An ordered read reads what its plan says: from the start, found by a property, to
/// those it knows, and from each to what it made, where a property is at most a bound;
/// ordered by that property downwards and by number upwards, with a limit, and with no
/// other condition.
pub proof fn law_ordered_shape_reads_back(p: CoreV, o: OrderedV)
    requires
        ordered_of(p) == Some(o),
        p.chain.vars.len() > 0,
    ensures
        ({
            let c = p.chain;
            &&& c.hops.len() == 2 && c.start_anchor is Some
            &&& c.hops[0].types == seq!["KNOWS"@] && c.hops[1].types == seq!["HAS_CREATOR"@]
            &&& c.hops[1].dir is In
            &&& forall|k: int|
                0 <= k < 2 ==> (#[trigger] c.hops[k]).varlen is None && c.hops[k].tgt is None
                    && c.hops[k].rel_var is None
            &&& 0 <= o.start < c.vars.len() && c.vars[o.start] == c.a_var && c.hops[0].src == o.start
            &&& 0 <= o.owner < c.vars.len() && c.vars[o.owner] == c.hops[0].var && c.hops[1].src
                == o.owner
            &&& 0 <= o.entry < c.vars.len() && c.vars[o.entry] == c.hops[1].var
            &&& c.wheres.len() == 2
            &&& exists|a: int, b: int|
                0 <= a < 2 && 0 <= b < 2 && a != b && is_comparison(
                    (#[trigger] c.wheres[a]).expr,
                    Op::Eq,
                    c.a_var,
                    (c.start_anchor->0).0,
                    (c.start_anchor->0).1,
                ) && is_comparison(
                    (#[trigger] c.wheres[b]).expr,
                    Op::Le,
                    c.hops[1].var,
                    o.prop,
                    o.bound,
                )
            &&& p.proj.order.len() == 2 && p.proj.order[0].descending
                && !p.proj.order[1].descending
            &&& key_is_prop(p.proj.order[0].expr, p.proj.items, c.hops[1].var, o.prop)
            &&& key_is_prop(p.proj.order[1].expr, p.proj.items, c.hops[1].var, "id"@)
            &&& p.proj.limit is Some && !p.proj.distinct
        }),
{
    let c = p.chain;
    names::lemma_position(c.vars, c.a_var);
    names::lemma_position(c.vars, c.hops[0].var);
    names::lemma_position(c.vars, c.hops[1].var);
    let x = c.hops[1].var;
    lemma_resolved(p.proj.order[0].expr, p.proj.items, x, o.prop);
    lemma_resolved(p.proj.order[1].expr, p.proj.items, x, "id"@);
    let f = |w: WhereV|
        match ordered::compared(w.expr, Op::Le, x) {
            Some((k, v)) => if k == o.prop {
                Some(v)
            } else {
                None
            },
            None => None,
        };
    lemma_found_first(c.wheres, f);
    let b = choose|b: int|
        0 <= b < c.wheres.len() && f(#[trigger] c.wheres[b]) == seqs::find_map(c.wheres, f)
            && forall|j: int| 0 <= j < b ==> f(#[trigger] c.wheres[j]) is None;
    let (key, val) = c.start_anchor->0;
    let eq = crate::chain::anchor_eq(c.a_var, (key, val));
    assert(is_comparison(eq, Op::Eq, c.a_var, key, val));
    assert(is_comparison(c.wheres[b].expr, Op::Le, x, o.prop, o.bound));
    let a = if c.wheres[0].expr == eq {
        0int
    } else {
        1int
    };
    assert(c.wheres[a].expr == eq);
    assert(a != b);
}

/// A read that ends at a known place reads what its plan says: from the distinct ends of
/// a variable-length hop over a relationship that it binds to where someone works, and
/// from there to where that is; a property of the place equals something, one of the
/// relationship is below something, and there is no other condition.
pub proof fn law_located_shape_reads_back(p: MultiV, l: LocatedV)
    requires
        located_of(p) == Some(l),
    ensures
        p.s1.hops.len() == 1 && p.distinct && p.s2_hops.len() == 2 && p.carried.len() == 1,
        p.s1.hops[0].types == seq!["KNOWS"@] && p.s1.hops[0].varlen is Some,
        p.s2_hops[0].types == seq!["WORK_AT"@] && p.s2_hops[0].dir is Out && p.s2_hops[0].varlen is None
            && p.s2_hops[0].tgt is None && p.s2_hops[0].rel_var == Some(l.rel),
        p.s2_hops[1].types == seq!["IS_LOCATED_IN"@] && p.s2_hops[1].dir is Out
            && p.s2_hops[1].varlen is None && p.s2_hops[1].tgt is None && p.s2_hops[1].rel_var is None
            && p.s2_hops[0].end_vi == Some(p.s2_hops[1].src),
        p.s2_wheres.len() == 2,
        exists|a: int, b: int|
            0 <= a < 2 && 0 <= b < 2 && a != b && is_comparison(
                (#[trigger] p.s2_wheres[a]).expr,
                Op::Eq,
                p.s2_hops[1].var,
                l.place.0,
                l.place.1,
            ) && is_comparison(
                (#[trigger] p.s2_wheres[b]).expr,
                Op::Lt,
                l.rel,
                l.below.0,
                l.below.1,
            ),
{
    let x = p.s2_hops[1].var;
    let f = |w: WhereV| ordered::compared(w.expr, Op::Eq, x);
    let g = |w: WhereV| ordered::compared(w.expr, Op::Lt, l.rel);
    lemma_found_first(p.s2_wheres, f);
    lemma_found_first(p.s2_wheres, g);
    let a = choose|a: int|
        0 <= a < p.s2_wheres.len() && f(#[trigger] p.s2_wheres[a]) == seqs::find_map(p.s2_wheres, f)
            && forall|j: int| 0 <= j < a ==> f(#[trigger] p.s2_wheres[j]) is None;
    let b = choose|b: int|
        0 <= b < p.s2_wheres.len() && g(#[trigger] p.s2_wheres[b]) == seqs::find_map(p.s2_wheres, g)
            && forall|j: int| 0 <= j < b ==> g(#[trigger] p.s2_wheres[j]) is None;
    assert(is_comparison(p.s2_wheres[a].expr, Op::Eq, x, l.place.0, l.place.1));
    assert(is_comparison(p.s2_wheres[b].expr, Op::Lt, l.rel, l.below.0, l.below.1));
    assert(a != b);
}

/// A number is below a bound where it is there and less.
pub proof fn law_below_is_less(x: Option<i64>, bound: i64)
    ensures
        is_below(x, bound) <==> x is Some && x->0 < bound,
{
}

/// What an index answers is what the plan says: one hop from the one variable that is
/// handed on without repeats to an end that it binds, seen from the end; the ends below a
/// bound, the first of them downwards by that property and upwards by another, as many
/// as the limit.
pub proof fn law_index_shape_reads_back(p: MultiV, t: IndexTopkV)
    requires
        index_topk_of(p) == Some(t),
    ensures
        p.distinct && p.carried.len() == 1 && p.s2_hops.len() == 1 && p.s2_wheres.len() == 1,
        ({
            let h = p.s2_hops[0];
            &&& h.varlen is None && h.rel_var is None && h.tgt is None && h.src == 0
            &&& t.types == h.types && t.types.len() > 0
            &&& match h.dir {
                Dir::Out => t.dir is In,
                Dir::In => t.dir is Out,
                Dir::Both => t.dir is Both,
            }
            &&& p.tail matches crate::carry::StageTailV::Core(core) && {
                let proj = core.proj;
                &&& core.chain.vars.len() >= 2 && core.chain.vars[1] == h.var
                &&& !proj.distinct && !proj.star && proj.skip is None && proj.limit == Some(t.limit)
                &&& proj.order.len() == 2 && proj.order[0].descending && !proj.order[1].descending
                &&& is_prop(
                    plan::resolved(proj.order[0].expr, core.chain.vars, proj.items),
                    h.var,
                    t.order_prop,
                )
                &&& is_prop(
                    plan::resolved(proj.order[1].expr, core.chain.vars, proj.items),
                    h.var,
                    t.tie_prop,
                )
            }
            &&& is_comparison(p.s2_wheres[0].expr, Op::Lt, h.var, t.order_prop, t.bound)
        }),
{
}

/// What names stand for where a projection is ordered: a bound variable for itself, and
/// another name for the first item of that name.
pub open spec fn ordered_env<V>(
    vars: Seq<Seq<char>>,
    items: Seq<ItemV>,
    ev: EvalV<V>,
    env: spec_fn(Seq<char>) -> V,
) -> spec_fn(Seq<char>) -> V {
    |x: Seq<char>|
        if vars.contains(x) || !has_alias(items, x) {
            env(x)
        } else {
            value_of(items[first_alias(items, x)].expr, ev, env)
        }
}

/// Whether an item has a name.
pub open spec fn has_alias(items: Seq<ItemV>, x: Seq<char>) -> bool {
    exists|i: int| 0 <= i < items.len() && (#[trigger] items[i]).alias == Some(x)
}

/// Whether an item is the first of a name.
pub open spec fn is_first_alias(items: Seq<ItemV>, x: Seq<char>, i: int) -> bool {
    0 <= i < items.len() && items[i].alias == Some(x) && forall|j: int|
        0 <= j < i ==> (#[trigger] items[j]).alias != Some(x)
}

/// The first item of a name.
pub open spec fn first_alias(items: Seq<ItemV>, x: Seq<char>) -> int {
    choose|i: int| is_first_alias(items, x, i)
}

proof fn lemma_aliased(items: Seq<ItemV>, x: Seq<char>)
    ensures
        plan::aliased(items, x) is Some <==> has_alias(items, x),
        plan::aliased(items, x) matches Some(i) ==> is_first_alias(items, x, i) && first_alias(
            items,
            x,
        ) == i,
{
    let s = items.map_values(|it: ItemV| it.alias);
    names::lemma_position(s, Some(x));
    if let Some(i) = names::position(s, Some(x)) {
        assert(s[i] == items[i].alias);
        assert forall|j: int| 0 <= j < i implies (#[trigger] items[j]).alias != Some(x) by {
            assert(s[j] == items[j].alias);
        }
        let k = first_alias(items, x);
        assert(is_first_alias(items, x, i));
        assert(is_first_alias(items, x, k));
        if k < i {
            assert(items[k].alias != Some(x));
        } else if i < k {
            assert(items[i].alias != Some(x));
        }
    } else if has_alias(items, x) {
        let i = choose|i: int| 0 <= i < items.len() && (#[trigger] items[i]).alias == Some(x);
        assert(s[i] == Some(x));
    }
}

/// A sort key with its names replaced comes to what the key comes to where names stand
/// for items, as long as it then reads bound variables alone and has no form that binds
/// names of its own.
pub proof fn law_resolved_key_is_same<V>(
    e: ExprV,
    vars: Seq<Seq<char>>,
    items: Seq<ItemV>,
    ev: EvalV<V>,
    env: spec_fn(Seq<char>) -> V,
)
    requires
        looks_only(ev),
        ast::reads_only(plan::resolved(e, vars, items), vars),
        !ast::has_opaque(e),
    ensures
        value_of(plan::resolved(e, vars, items), ev, env) == value_of(
            e,
            ev,
            ordered_env(vars, items, ev, env),
        ),
    decreases e, e.args.len() + 1,
{
    let r = plan::resolved(e, vars, items);
    let to = ordered_env(vars, items, ev, env);
    match e.head {
        HeadV::Var(x) => {
            lemma_aliased(items, x);
        },
        _ => {
            if plan::resolves_within(e.head) {
                lemma_resolved_args(e, e.args.len(), vars, items, ev, env);
                assert(r.args.len() == e.args.len());
            } else {
                assert forall|x: Seq<char>| ast::reads(e, x) implies #[trigger] env(x) == to(x) by {
                    assert(vars.contains(x));
                }
                clause_law::lemma_looks(e, ev, env, to);
            }
        },
    }
}

proof fn lemma_resolved_args<V>(
    e: ExprV,
    n: nat,
    vars: Seq<Seq<char>>,
    items: Seq<ItemV>,
    ev: EvalV<V>,
    env: spec_fn(Seq<char>) -> V,
)
    requires
        looks_only(ev),
        n <= e.args.len(),
        !(e.head is Var),
        plan::resolves_within(e.head),
        ast::reads_only(plan::resolved(e, vars, items), vars),
        !ast::has_opaque(e),
    ensures
        values_of(plan::resolved(e, vars, items), n, ev, env) == values_of(
            e,
            n,
            ev,
            ordered_env(vars, items, ev, env),
        ),
    decreases e, n,
{
    if n > 0 {
        lemma_resolved_args(e, (n - 1) as nat, vars, items, ev, env);
        let r = plan::resolved(e, vars, items);
        let a = e.args[n - 1];
        assert(r.args[n - 1] == plan::resolved(a, vars, items));
        assert forall|x: Seq<char>| #[trigger]
            ast::reads(plan::resolved(a, vars, items), x) implies vars.contains(x) by {
            assert(ast::reads(r.args[n - 1], x));
            assert(ast::reads(r, x));
        }
        assert(!ast::has_opaque(e.args[n - 1]));
        law_resolved_key_is_same(a, vars, items, ev, env);
    }
}

/// Whether every item of a projection is a value that is written down.
pub open spec fn written_down(p: ProjV) -> bool {
    forall|i: int|
        0 <= i < p.items.len() ==> (#[trigger] p.items[i]).expr.args.len() == 0 && (
        p.items[i].expr.head is Null || p.items[i].expr.head is Bool || p.items[i].expr.head is Int
            || p.items[i].expr.head is Float || p.items[i].expr.head is Str
            || p.items[i].expr.head is Param)
}

/// How many of so many rows are on a page: those after the first, up to a limit.
pub open spec fn on_page(n: int, skip: int, limit: Option<int>) -> int {
    let rest = if n > skip {
        n - skip
    } else {
        0
    };
    if limit is Some && limit->0 < rest {
        limit->0
    } else {
        rest
    }
}

/// Whether a list of whole numbers has one entry for each of them.
pub open spec fn lists_ranges<V>(run: RunV<V>) -> bool {
    forall|f: ast::FunctionV, vs: Seq<V>, b: i64|
        #![trigger (run.ev.op)(HeadV::Call(f), vs), (run.ev.op)(HeadV::Int(b), Seq::empty())]
        f.name == "range"@ && vs.len() == 2 && vs[0] == (run.ev.op)(HeadV::Int(1), Seq::empty())
            && vs[1] == (run.ev.op)(HeadV::Int(b), Seq::empty()) && b >= 0 ==> (run.listed)(
            (run.ev.op)(HeadV::Call(f), vs),
        ).len() == b
}

/// What values that are written down come to.
spec fn written_row<V>(p: ProjV, run: RunV<V>) -> Seq<V> {
    p.items.map_values(|it: ItemV| (run.ev.op)(it.expr.head, Seq::empty()))
}

/// A projection of values that are written down gives the same row, as often as its page
/// holds.
proof fn lemma_written<V>(p: ProjV, run: RunV<V>, t: Seq<spec_fn(Seq<char>) -> V>)
    requires
        written_down(p),
        arranges_own(run),
        !p.star,
        !p.distinct,
    ensures
        rows_made(p, None, run, t).len() == tail_law::picked(p, run, t).len(),
        forall|i: int|
            0 <= i < rows_made(p, None, run, t).len() ==> #[trigger] rows_made(p, None, run, t)[i]
                == lay(run.blank, named(query::columns_of(p.items), written_row(p, run))),
{
    assert forall|i: int| 0 <= i < p.items.len() implies !folds((#[trigger] p.items[i]).expr) by {
        let e = p.items[i].expr;
        assert(!clause_law::aggregates(e));
    }
    assert(!aggregating(p));
    tail_law::lemma_one_by_one(p, run, t);
    let picks = tail_law::picked(p, run, t);
    assert forall|i: int| 0 <= i < picks.len() implies #[trigger] rows_made(p, None, run, t)[i]
        == lay(run.blank, named(query::columns_of(p.items), written_row(p, run))) by {
        assert(0 <= picks[i] < t.len());
        let ix = seq![picks[i]];
        let vals = vals_of(p, run, t, ix);
        assert forall|k: int| 0 <= k < vals.len() implies vals[k] == written_row(p, run)[k] by {
            let e = p.items[k].expr;
            assert(!folds(p.items[k].expr));
            trim_law::lemma_plain_value(e, run, rows_at(t, ix), first_at(run, t, ix));
            assert(values_of(e, 0, run.ev, first_at(run, t, ix)) == Seq::<V>::empty());
        }
        assert(vals =~= written_row(p, run));
        assert(rows_made(p, None, run, t)[i] == row_made(p, run, t, ix));
    }
}

/// A projection of values that are written down may be answered from a count: repeating
/// the row as often as the page holds gives the answer of the query.
pub proof fn law_repeated_row_is_answer<V>(
    q: Seq<ClauseV>,
    p: ProjV,
    run: RunV<V>,
    t: Seq<spec_fn(Seq<char>) -> V>,
    skip: int,
    limit: Option<int>,
)
    requires
        constant_proj(q) == Some(p),
        written_down(p),
        arranges_own(run),
        tail_law::arranges_nothing(run),
        lists_ranges(run),
        0 <= skip,
        limit matches Some(k) ==> 0 <= k,
        forall|os: Seq<Seq<V>>| #[trigger]
            (run.arranged)(page_of(p, run), os).len() == on_page(os.len() as int, skip, limit),
        rows_after(q, (q.len() - 1) as nat, run, t).len() <= i64::MAX,
    ensures
        ({
            let n = rows_after(q, (q.len() - 1) as nat, run, t).len() as int;
            let out = replay_of(p, page_rows(n, skip, limit));
            &&& out.len() == 2 && q.last() == (ClauseV::Return { proj: p })
            &&& out[1] matches ClauseV::Return { proj } && answer(
                p,
                rows_after(q, q.len(), run, t),
            ) == answer(proj, rows_after(out, 2, run, seq![run.blank]))
        }),
{
    let a = rows_after(q, (q.len() - 1) as nat, run, t);
    let n = a.len() as int;
    let r = page_rows(n, skip, limit);
    let out = replay_of(p, r);
    let f = out[1]->Return_proj;
    assert(q.last() == q[q.len() - 1]);
    assert(rows_after(q, q.len(), run, t) == rows_made(p, None, run, a));
    lemma_written(p, run, a);
    let os = Seq::new(a.len(), |i: int| clause_law::entry(p, run, a, seq![i]).ords);
    assert(tail_law::picked(p, run, a) == (run.arranged)(page_of(p, run), os));
    assert(rows_made(p, None, run, a).len() == on_page(n, skip, limit));
    let b0 = seq![run.blank];
    let e = out[0]->Unwind_expr;
    let g = |x: spec_fn(Seq<char>) -> V| unwound(e, out[0]->Unwind_alias, run, x);
    assert(rows_after(out, 0, run, b0) == b0);
    let b = rows_after(out, 1, run, b0);
    assert(b == clause_rows(out[0], run, b0));
    assert(b =~= unwound(e, out[0]->Unwind_alias, run, run.blank)) by {
        reveal_with_fuel(crate::split_law::flat, 2);
        assert(b0.drop_last() =~= Seq::empty());
    }
    let one = e.args[0];
    let two = e.args[1];
    assert(values_of(one, 0, run.ev, run.blank) == Seq::<V>::empty());
    assert(values_of(two, 0, run.ev, run.blank) == Seq::<V>::empty());
    reveal_with_fuel(values_of, 3);
    let vs = values_of(e, 2, run.ev, run.blank);
    assert(vs =~= seq![value_of(one, run.ev, run.blank), value_of(two, run.ev, run.blank)]);
    assert(value_of(two, run.ev, run.blank) == (run.ev.op)(HeadV::Int(r as i64), Seq::empty()));
    assert(value_of(e, run.ev, run.blank) == (run.ev.op)(e.head, vs));
    assert(b.len() == r);
    assert(rows_after(out, 2, run, b0) == rows_made(f, None, run, b));
    lemma_written(f, run, b);
    let of = Seq::new(b.len(), |i: int| clause_law::entry(f, run, b, seq![i]).ords);
    assert(page_of(f, run).down.len() == 0);
    assert(tail_law::picked(f, run, b) == places(of.len()));
    assert(written_row(f, run) =~= written_row(p, run));
    let x = answer(p, rows_made(p, None, run, a));
    let y = answer(f, rows_made(f, None, run, b));
    assert(x.len() == y.len());
    assert forall|i: int| 0 <= i < x.len() implies x[i] == y[i] by {
        assert(rows_made(p, None, run, a)[i] == rows_made(f, None, run, b)[i]);
    }
    assert(x =~= y);
}

/// The count that a projection of values that are written down is answered from counts
/// the rows that it is made of: its query has the same clauses up to the projection, and
/// projects the count of all rows.
pub proof fn law_count_query_counts_the_rows(q: Seq<ClauseV>)
    requires
        count_query_of(q) is Some,
    ensures
        ({
            let c = count_query_of(q)->0;
            &&& c.len() == q.len()
            &&& forall|i: int| 0 <= i < q.len() - 1 ==> #[trigger] c[i] == q[i]
            &&& c.last() matches ClauseV::Return { proj } && !proj.distinct && !proj.star
                && proj.order.len() == 0 && proj.skip is None && proj.limit is None
                && proj.items.len() == 1 && proj.items[0].expr.args.len() == 0 && (
            proj.items[0].expr.head matches HeadV::Call(f) && f.name == "count"@ && f.star
                && !f.distinct && f.aggregate)
        }),
{
}

/// Nothing more than the first path of a query is replaced where it is walked from its
/// other end, and nothing is where rows are kept by their order alone.
pub proof fn law_turned_query_is_same(q: Seq<ClauseV>, path: query::PathV)
    requires
        crate::split::turned(q, path) is Some,
    ensures
        ({
            let out = crate::split::turned(q, path)->0;
            &&& out.len() == q.len()
            &&& forall|i: int| 0 < i < q.len() ==> #[trigger] out[i] == q[i]
            &&& q[0] matches ClauseV::Match { optional: false, pattern, where_ }
                && pattern.paths.len() == 1 && out[0] == (ClauseV::Match {
                optional: false,
                pattern: query::PatternV { paths: seq![path] },
                where_,
            })
            &&& q.last() matches ClauseV::Return { proj } ==> proj.limit is None || proj.order.len()
                > 0
        }),
{
}

} // verus!
