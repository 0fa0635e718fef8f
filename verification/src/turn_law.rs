//! A path counts the same from either end.

use vstd::prelude::*;

use crate::graph;
use crate::graph::{row_of, strip, typed, Adj, Dir, Graph};
use crate::seqs;

verus! {

/// What one hop of a path takes.
pub struct LegV {
    pub dir: Dir,
    pub tokens: Option<Seq<u32>>,
}

/// The relationships of edges that lead to a node, in their order.
pub open spec fn rels_to(es: Seq<Adj>, to: u64) -> Seq<u64>
    decreases es.len(),
{
    if es.len() == 0 {
        Seq::empty()
    } else if es.last().peer == to {
        rels_to(es.drop_last(), to).push(es.last().rel)
    } else {
        rels_to(es.drop_last(), to)
    }
}

/// A sum over what is not used.
spec fn sum_fresh(rels: Seq<u64>, used: Seq<u64>, f: spec_fn(u64) -> nat) -> nat
    decreases rels.len(),
{
    if rels.len() == 0 {
        0
    } else {
        sum_fresh(rels.drop_last(), used, f) + if used.contains(rels.last()) {
            0
        } else {
            f(rels.last())
        }
    }
}

/// In how many ways one relationship of each list can be picked, none that is
/// used and none twice.
pub open spec fn picks(lists: Seq<Seq<u64>>, used: Seq<u64>) -> nat
    decreases 2 * lists.len() + 1, 0nat,
{
    if lists.len() == 0 {
        1
    } else {
        picks_from(lists[0], lists.skip(1), used)
    }
}

/// [`picks`] of a list and of the rest.
pub open spec fn picks_from(list: Seq<u64>, rest: Seq<Seq<u64>>, used: Seq<u64>) -> nat
    decreases 2 * rest.len() + 2, list.len(),
{
    if list.len() == 0 {
        0
    } else {
        picks_from(list.drop_last(), rest, used) + if used.contains(list.last()) {
            0
        } else {
            picks(rest, used.push(list.last()))
        }
    }
}

/// The relationships that each hop of a path can take between its nodes.
pub open spec fn path_lists(g: Graph, legs: Seq<LegV>, nodes: Seq<u64>) -> Seq<Seq<u64>> {
    Seq::new(
        legs.len(),
        |i: int| rels_to(g.adj(nodes[i], legs[i].dir, legs[i].tokens), nodes[i + 1]),
    )
}

/// In how many ways a path can be walked along given nodes without taking a
/// relationship twice.
pub open spec fn path_walks(g: Graph, legs: Seq<LegV>, nodes: Seq<u64>) -> nat {
    picks(path_lists(g, legs, nodes), Seq::empty())
}

/// The hops of a path from its end.
pub open spec fn turned(legs: Seq<LegV>) -> Seq<LegV> {
    Seq::new(
        legs.len(),
        |i: int|
            LegV { dir: legs[legs.len() - 1 - i].dir.flip(), tokens: legs[legs.len() - 1 - i].tokens },
    )
}

/// Picks as a sum over the first list.
proof fn lemma_picks_sum(list: Seq<u64>, rest: Seq<Seq<u64>>, u: Seq<u64>)
    ensures
        picks_from(list, rest, u) == sum_fresh(list, u, |r: u64| picks(rest, u.push(r))),
    decreases list.len(),
{
    if list.len() > 0 {
        lemma_picks_sum(list.drop_last(), rest, u);
    }
}

proof fn lemma_sum_same(rels: Seq<u64>, u: Seq<u64>, w: Seq<u64>, f: spec_fn(u64) -> nat, h: spec_fn(u64) -> nat)
    requires
        forall|x: u64| #[trigger] u.contains(x) <==> w.contains(x),
        forall|x: u64| #[trigger] f(x) == h(x),
    ensures
        sum_fresh(rels, u, f) == sum_fresh(rels, w, h),
    decreases rels.len(),
{
    if rels.len() > 0 {
        lemma_sum_same(rels.drop_last(), u, w, f, h);
        assert(f(rels.last()) == h(rels.last()));
        assert(u.contains(rels.last()) <==> w.contains(rels.last()));
    }
}

/// Picks depend on which relationships are used, not on their order.
proof fn lemma_picks_used(lists: Seq<Seq<u64>>, u: Seq<u64>, w: Seq<u64>)
    requires
        forall|x: u64| #[trigger] u.contains(x) <==> w.contains(x),
    ensures
        picks(lists, u) == picks(lists, w),
    decreases lists.len(),
{
    if lists.len() > 0 {
        let f = |r: u64| picks(lists.skip(1), u.push(r));
        let h = |r: u64| picks(lists.skip(1), w.push(r));
        assert forall|r: u64| #[trigger] f(r) == h(r) by {
            assert forall|x: u64| #[trigger] u.push(r).contains(x) <==> w.push(r).contains(x) by {
                seqs::lemma_push_contains(u, r, x);
                seqs::lemma_push_contains(w, r, x);
                assert(u.contains(x) <==> w.contains(x));
            }
            lemma_picks_used(lists.skip(1), u.push(r), w.push(r));
        }
        lemma_sum_same(lists[0], u, w, f, h);
        lemma_picks_sum(lists[0], lists.skip(1), u);
        lemma_picks_sum(lists[0], lists.skip(1), w);
    }
}

proof fn lemma_sum_add(rels: Seq<u64>, u: Seq<u64>, f: spec_fn(u64) -> nat, h: spec_fn(u64) -> nat)
    ensures
        sum_fresh(rels, u, |x: u64| f(x) + h(x)) == sum_fresh(rels, u, f) + sum_fresh(rels, u, h),
    decreases rels.len(),
{
    if rels.len() > 0 {
        lemma_sum_add(rels.drop_last(), u, f, h);
    }
}

proof fn lemma_sum_zero(rels: Seq<u64>, u: Seq<u64>, f: spec_fn(u64) -> nat)
    requires
        forall|x: u64| #[trigger] f(x) == 0,
    ensures
        sum_fresh(rels, u, f) == 0,
    decreases rels.len(),
{
    if rels.len() > 0 {
        lemma_sum_zero(rels.drop_last(), u, f);
        assert(f(rels.last()) == 0);
    }
}

/// One relationship of the first list apart from all of the second.
proof fn lemma_sum_apart(rels: Seq<u64>, u: Seq<u64>, x: u64, f: spec_fn(u64) -> nat)
    ensures
        sum_fresh(
            rels,
            u,
            |r: u64|
                if u.push(r).contains(x) {
                    0
                } else {
                    f(r)
                },
        ) == if u.contains(x) {
            0
        } else {
            sum_fresh(rels, u.push(x), f)
        },
    decreases rels.len(),
{
    let h = |r: u64|
        if u.push(r).contains(x) {
            0
        } else {
            f(r)
        };
    if u.contains(x) {
        assert forall|r: u64| #[trigger] h(r) == 0 by {
            seqs::lemma_push_contains(u, r, x);
        }
        lemma_sum_zero(rels, u, h);
    } else if rels.len() > 0 {
        lemma_sum_apart(rels.drop_last(), u, x, f);
        let r = rels.last();
        seqs::lemma_push_contains(u, r, x);
        seqs::lemma_push_contains(u, x, r);
        assert(sum_fresh(rels, u, h) == sum_fresh(rels.drop_last(), u, h) + if u.contains(r) {
            0
        } else {
            h(r)
        });
    }
}

/// Picking one of each of two lists, none used and not the same one, may start
/// with either list.
proof fn lemma_swap(a: Seq<u64>, b: Seq<u64>, u: Seq<u64>, f: spec_fn(u64, u64) -> nat)
    ensures
        sum_fresh(a, u, |x: u64| sum_fresh(b, u.push(x), |y: u64| f(x, y))) == sum_fresh(
            b,
            u,
            |y: u64| sum_fresh(a, u.push(y), |x: u64| f(x, y)),
        ),
    decreases a.len(),
{
    let left = |x: u64| sum_fresh(b, u.push(x), |y: u64| f(x, y));
    let right = |y: u64| sum_fresh(a, u.push(y), |x: u64| f(x, y));
    if a.len() == 0 {
        assert forall|y: u64| #[trigger] right(y) == 0 by {}
        lemma_sum_zero(b, u, right);
    } else {
        let rest = a.drop_last();
        let x = a.last();
        lemma_swap(rest, b, u, f);
        let before = |y: u64| sum_fresh(rest, u.push(y), |x: u64| f(x, y));
        let last = |y: u64|
            if u.push(y).contains(x) {
                0
            } else {
                f(x, y)
            };
        let both = |y: u64| before(y) + last(y);
        assert forall|y: u64| #[trigger] right(y) == both(y) by {}
        lemma_sum_same(b, u, u, right, both);
        lemma_sum_add(b, u, before, last);
        let fx = |y: u64| f(x, y);
        let apart = |r: u64|
            if u.push(r).contains(x) {
                0
            } else {
                fx(r)
            };
        lemma_sum_apart(b, u, x, fx);
        assert forall|y: u64| #[trigger] last(y) == apart(y) by {}
        lemma_sum_same(b, u, u, last, apart);
        assert(left(x) == sum_fresh(b, u.push(x), fx));
    }
}

/// The last list may be picked from first.
proof fn lemma_last_first(lists: Seq<Seq<u64>>, last: Seq<u64>, u: Seq<u64>)
    ensures
        picks(lists.push(last), u) == sum_fresh(last, u, |r: u64| picks(lists, u.push(r))),
    decreases lists.len(),
{
    let all = lists.push(last);
    let f = |r: u64| picks(lists, u.push(r));
    if lists.len() == 0 {
        let h = |r: u64| picks(all.skip(1), u.push(r));
        assert(all.skip(1) =~= lists);
        assert forall|r: u64| #[trigger] h(r) == f(r) by {}
        lemma_sum_same(last, u, u, h, f);
        lemma_picks_sum(last, all.skip(1), u);
        assert(all[0] == last);
    } else {
        let first = lists[0];
        let tail = lists.skip(1);
        assert(all.skip(1) =~= tail.push(last));
        assert(all[0] == first);
        let h = |a: u64| picks(all.skip(1), u.push(a));
        let pair = |a: u64, r: u64| picks(tail, u.push(a).push(r));
        let inner = |a: u64| sum_fresh(last, u.push(a), |r: u64| pair(a, r));
        assert forall|a: u64| #[trigger] h(a) == inner(a) by {
            lemma_last_first(tail, last, u.push(a));
            let k = |r: u64| picks(tail, u.push(a).push(r));
            let k2 = |r: u64| pair(a, r);
            assert forall|r: u64| #[trigger] k(r) == k2(r) by {}
            lemma_sum_same(last, u.push(a), u.push(a), k, k2);
        }
        lemma_sum_same(first, u, u, h, inner);
        lemma_picks_sum(first, all.skip(1), u);
        lemma_swap(first, last, u, pair);
        let outer = |r: u64| sum_fresh(first, u.push(r), |a: u64| pair(a, r));
        assert forall|r: u64| #[trigger] outer(r) == f(r) by {
            let k = |a: u64| picks(tail, u.push(r).push(a));
            let k2 = |a: u64| pair(a, r);
            assert forall|a: u64| #[trigger] k2(a) == k(a) by {
                assert forall|x: u64| #[trigger] u.push(a).push(r).contains(x) <==> u.push(r).push(
                    a,
                ).contains(x) by {
                    seqs::lemma_push_contains(u.push(a), r, x);
                    seqs::lemma_push_contains(u, a, x);
                    seqs::lemma_push_contains(u.push(r), a, x);
                    seqs::lemma_push_contains(u, r, x);
                }
                lemma_picks_used(tail, u.push(a).push(r), u.push(r).push(a));
            }
            lemma_sum_same(first, u.push(r), u.push(r), k2, k);
            lemma_picks_sum(first, tail, u.push(r));
        }
        lemma_sum_same(last, u, u, outer, f);
    }
}

proof fn lemma_picks_reversed(lists: Seq<Seq<u64>>, u: Seq<u64>)
    ensures
        picks(lists.reverse(), u) == picks(lists, u),
    decreases lists.len(),
{
    if lists.len() == 0 {
        assert(lists.reverse() =~= lists);
    } else {
        let tail = lists.skip(1);
        assert(lists.reverse() =~= tail.reverse().push(lists[0]));
        lemma_last_first(tail.reverse(), lists[0], u);
        let f = |r: u64| picks(tail.reverse(), u.push(r));
        let h = |r: u64| picks(tail, u.push(r));
        assert forall|r: u64| #[trigger] f(r) == h(r) by {
            lemma_picks_reversed(tail, u.push(r));
        }
        lemma_sum_same(lists[0], u, u, f, h);
        lemma_picks_sum(lists[0], tail, u);
    }
}

proof fn lemma_sum_concat(a: Seq<u64>, b: Seq<u64>, u: Seq<u64>, f: spec_fn(u64) -> nat)
    ensures
        sum_fresh(a + b, u, f) == sum_fresh(a, u, f) + sum_fresh(b, u, f),
    decreases b.len(),
{
    if b.len() == 0 {
        assert(a + b =~= a);
    } else {
        assert((a + b).drop_last() =~= a + b.drop_last());
        lemma_sum_concat(a, b.drop_last(), u, f);
    }
}

/// Two lists hold the same relationships, in one order or with two parts
/// exchanged.
spec fn alike(x: Seq<u64>, y: Seq<u64>) -> bool {
    x == y || exists|a: Seq<u64>, b: Seq<u64>| x == #[trigger] (a + b) && y == b + a
}

proof fn lemma_picks_alike(x: Seq<Seq<u64>>, y: Seq<Seq<u64>>, u: Seq<u64>)
    requires
        x.len() == y.len(),
        forall|i: int| 0 <= i < x.len() ==> alike(#[trigger] x[i], y[i]),
    ensures
        picks(x, u) == picks(y, u),
    decreases x.len(),
{
    if x.len() > 0 {
        let f = |r: u64| picks(x.skip(1), u.push(r));
        let h = |r: u64| picks(y.skip(1), u.push(r));
        assert forall|r: u64| #[trigger] f(r) == h(r) by {
            assert forall|i: int| 0 <= i < x.skip(1).len() implies alike(
                #[trigger] x.skip(1)[i],
                y.skip(1)[i],
            ) by {
                assert(alike(x[i + 1], y[i + 1]));
            }
            lemma_picks_alike(x.skip(1), y.skip(1), u.push(r));
        }
        lemma_sum_same(x[0], u, u, f, h);
        lemma_picks_sum(x[0], x.skip(1), u);
        lemma_picks_sum(y[0], y.skip(1), u);
        assert(alike(x[0], y[0]));
        if x[0] != y[0] {
            let (a, b) = choose|a: Seq<u64>, b: Seq<u64>| x[0] == #[trigger] (a + b) && y[0] == b + a;
            lemma_sum_concat(a, b, u, h);
            lemma_sum_concat(b, a, u, h);
        }
    }
}

/// The relationships of entries with an admitted type.
spec fn rels_of(s: Seq<(u64, u32)>, t: Option<Seq<u32>>) -> Seq<u64>
    decreases s.len(),
{
    if s.len() == 0 {
        Seq::empty()
    } else if graph::admits(t, s.last().1) {
        rels_of(s.drop_last(), t).push(s.last().0)
    } else {
        rels_of(s.drop_last(), t)
    }
}

proof fn lemma_rels_typed(row: Seq<Adj>, t: Option<Seq<u32>>, to: u64)
    ensures
        rels_to(typed(row, t), to) == rels_of(strip(row, to), t),
    decreases row.len(),
{
    let p = |e: Adj| graph::admits(t, e.typ);
    if row.len() == 0 {
        assert(row =~= Seq::empty());
        seqs::lemma_filter_empty(p);
    } else {
        lemma_rels_typed(row.drop_last(), t, to);
        seqs::lemma_filter_last(row, p);
        let rest = row.drop_last();
        if p(row.last()) {
            assert(typed(row, t).drop_last() =~= typed(rest, t));
        }
        if row.last().peer == to {
            assert(strip(row, to).drop_last() =~= strip(rest, to));
        }
    }
}

proof fn lemma_rels_add(a: Seq<Adj>, b: Seq<Adj>, to: u64)
    ensures
        rels_to(a + b, to) == rels_to(a, to) + rels_to(b, to),
    decreases b.len(),
{
    if b.len() == 0 {
        assert(a + b =~= a);
        assert(rels_to(a, to) + rels_to(b, to) =~= rels_to(a, to));
    } else {
        assert((a + b).drop_last() =~= a + b.drop_last());
        lemma_rels_add(a, b.drop_last(), to);
        assert(rels_to(a + b, to) =~= rels_to(a, to) + rels_to(b, to));
    }
}

/// Entries that do not lead back lead on as before, and none leads back.
proof fn lemma_rels_other(row: Seq<Adj>, from: u64, to: u64)
    ensures
        rels_to(row.filter(|e: Adj| e.peer != from), to) == if to == from {
            Seq::<u64>::empty()
        } else {
            rels_to(row, to)
        },
    decreases row.len(),
{
    let q = |e: Adj| e.peer != from;
    if row.len() == 0 {
        assert(row =~= Seq::empty());
        seqs::lemma_filter_empty(q);
    } else {
        lemma_rels_other(row.drop_last(), from, to);
        seqs::lemma_filter_last(row, q);
        if q(row.last()) {
            assert(row.filter(q).drop_last() =~= row.drop_last().filter(q));
        }
    }
}

/// What a hop can take between two nodes is the same from either end.
proof fn lemma_leg_alike(g: Graph, a: u64, b: u64, leg: LegV)
    requires
        g.wf(),
    ensures
        alike(
            rels_to(g.adj(a, leg.dir, leg.tokens), b),
            rels_to(g.adj(b, leg.dir.flip(), leg.tokens), a),
        ),
{
    let t = leg.tokens;
    let oa = row_of(g.out@, a);
    let ia = row_of(g.into@, a);
    let ob = row_of(g.out@, b);
    let ib = row_of(g.into@, b);
    assert(strip(oa, b) == strip(ib, a));
    assert(strip(ob, a) == strip(ia, b));
    lemma_rels_typed(oa, t, b);
    lemma_rels_typed(ia, t, b);
    lemma_rels_typed(ob, t, a);
    lemma_rels_typed(ib, t, a);
    if leg.dir == Dir::Both {
        lemma_rels_add(typed(oa, t), typed(ia, t).filter(|e: Adj| e.peer != a), b);
        lemma_rels_add(typed(ob, t), typed(ib, t).filter(|e: Adj| e.peer != b), a);
        lemma_rels_other(typed(ia, t), a, b);
        lemma_rels_other(typed(ib, t), b, a);
        let x = rels_to(typed(oa, t), b);
        let y = rels_to(typed(ia, t), b);
        if a == b {
            assert(rels_to(g.adj(a, leg.dir, t), b) =~= rels_to(g.adj(b, leg.dir.flip(), t), a));
        } else {
            assert(rels_to(g.adj(a, leg.dir, t), b) == x + y);
            assert(rels_to(g.adj(b, leg.dir.flip(), t), a) == y + x);
        }
    }
}

/// A path counts the same from either end: along given nodes it can be walked,
/// without taking a relationship twice, in as many ways from its end as from its
/// start.
pub proof fn law_turned_path_counts_same(g: Graph, legs: Seq<LegV>, nodes: Seq<u64>)
    requires
        g.wf(),
        nodes.len() == legs.len() + 1,
    ensures
        path_walks(g, turned(legs), nodes.reverse()) == path_walks(g, legs, nodes),
{
    let m = legs.len() as int;
    let there = path_lists(g, legs, nodes);
    let back = path_lists(g, turned(legs), nodes.reverse());
    assert forall|i: int| 0 <= i < m implies alike(#[trigger] there.reverse()[i], back[i]) by {
        let j = m - 1 - i;
        lemma_leg_alike(g, nodes[j], nodes[j + 1], legs[j]);
        assert(nodes.reverse()[i] == nodes[j + 1]);
        assert(nodes.reverse()[i + 1] == nodes[j]);
    }
    lemma_picks_alike(there.reverse(), back, Seq::empty());
    lemma_picks_reversed(there, Seq::empty());
}

} // verus!
