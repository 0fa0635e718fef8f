//! The newest entries of several lists that are each kept newest first.

use std::collections::BTreeMap;

use vstd::prelude::*;

use crate::ast;
use crate::ast::{Expr, ExprV, Head, HeadV, Op};
use crate::carry::{own_prop, prop_of};
use crate::chain::{anchor_eq, anchor_expr};
use crate::graph;
use crate::graph::{Adj, Dir, Graph, NULL_ID};
use crate::hop::{Hop, StepHop};
use crate::names;
use crate::names::{name_index, repeat_id};
use crate::plan::{CorePlan, CoreV};
use crate::preds::{Chain, ChainV, WherePred, WhereV};
use crate::query;
use crate::query::{ItemV, ProjItem, ProjV, Projection};
use crate::seqs;

verus! {

broadcast use {vstd::std_specs::btree::group_btree_axioms, vstd::laws_cmp::group_laws_cmp};

/// An entry of a list: when it was made, a number that tells equals apart, whose
/// list it is in, and its node.
#[derive(Clone, Copy, Debug, PartialEq, Eq, Structural)]
pub struct Msg {
    pub date: i64,
    pub id: i64,
    pub owner: u64,
    pub node: u64,
}

/// Whether an entry comes before another: the newer first, and of two that are
/// equally new the one with the smaller number.
pub open spec fn newer(a: Msg, b: Msg) -> bool {
    a.date > b.date || (a.date == b.date && a.id < b.id)
}

fn is_newer(a: &Msg, b: &Msg) -> (r: bool)
    ensures
        r == newer(*a, *b),
{
    a.date > b.date || (a.date == b.date && a.id < b.id)
}

/// Whether entries stand in order.
pub open spec fn in_order(s: Seq<Msg>) -> bool {
    forall|i: int, j: int| 0 <= i < j < s.len() ==> !newer(#[trigger] s[j], #[trigger] s[i])
}

/// Where an entry goes: before the first that it comes before.
pub open spec fn slot(s: Seq<Msg>, m: Msg) -> int
    decreases s.len(),
{
    if s.len() > 0 && newer(m, s.last()) {
        slot(s.drop_last(), m)
    } else {
        s.len() as int
    }
}

/// Entries with one more, in its place.
pub open spec fn placed(s: Seq<Msg>, m: Msg) -> Seq<Msg> {
    s.insert(slot(s, m), m)
}

/// Entries in order; of equals, those that come first stay first.
pub open spec fn sorted(s: Seq<Msg>) -> Seq<Msg>
    decreases s.len(),
{
    if s.len() == 0 {
        Seq::empty()
    } else {
        placed(sorted(s.drop_last()), s.last())
    }
}

/// At most so many entries.
pub open spec fn cut(s: Seq<Msg>, cap: int) -> Seq<Msg> {
    if s.len() <= cap {
        s
    } else {
        s.take(cap)
    }
}

proof fn lemma_slot(s: Seq<Msg>, m: Msg)
    requires
        in_order(s),
    ensures
        0 <= slot(s, m) <= s.len(),
        forall|i: int| 0 <= i < slot(s, m) ==> !newer(m, #[trigger] s[i]),
        forall|i: int| slot(s, m) <= i < s.len() ==> newer(m, #[trigger] s[i]),
    decreases s.len(),
{
    if s.len() > 0 {
        let p = s.drop_last();
        if newer(m, s.last()) {
            assert(in_order(p)) by {
                assert forall|i: int, j: int| 0 <= i < j < p.len() implies !newer(
                    #[trigger] p[j],
                    #[trigger] p[i],
                ) by {
                    assert(!newer(s[j], s[i]));
                }
            }
            lemma_slot(p, m);
            assert forall|i: int| 0 <= i < slot(s, m) implies !newer(m, #[trigger] s[i]) by {
                assert(p[i] == s[i]);
            }
            assert forall|i: int| slot(s, m) <= i < s.len() implies newer(m, #[trigger] s[i]) by {
                if i < p.len() {
                    assert(p[i] == s[i]);
                }
            }
        } else {
            assert forall|i: int| 0 <= i < s.len() implies !newer(m, #[trigger] s[i]) by {
                if i < s.len() - 1 {
                    assert(!newer(s[s.len() - 1], s[i]));
                }
            }
        }
    }
}

/// Placing an entry keeps the order and adds nothing else.
pub proof fn lemma_placed(s: Seq<Msg>, m: Msg)
    requires
        in_order(s),
    ensures
        in_order(placed(s, m)),
        placed(s, m).len() == s.len() + 1,
        forall|x: Msg| #[trigger] placed(s, m).contains(x) <==> s.contains(x) || x == m,
{
    lemma_slot(s, m);
    let k = slot(s, m);
    let t = placed(s, m);
    assert forall|i: int, j: int| 0 <= i < j < t.len() implies !newer(
        #[trigger] t[j],
        #[trigger] t[i],
    ) by {
        if i < k && j < k {
            assert(!newer(s[j], s[i]));
        } else if i < k && j > k {
            assert(!newer(s[j - 1], s[i]));
        } else if i < k && j == k {
            assert(!newer(m, s[i]));
        } else if i == k {
            assert(newer(m, s[j - 1]));
        } else {
            assert(!newer(s[j - 1], s[i - 1]));
        }
    }
    assert forall|x: Msg| #[trigger] t.contains(x) <==> s.contains(x) || x == m by {
        if s.contains(x) {
            let i = choose|i: int| 0 <= i < s.len() && s[i] == x;
            if i < k {
                assert(t[i] == x);
            } else {
                assert(t[i + 1] == x);
            }
        }
        if x == m {
            assert(t[k] == x);
        }
        if t.contains(x) {
            let i = choose|i: int| 0 <= i < t.len() && t[i] == x;
            if i < k {
                assert(s[i] == x);
            } else if i > k {
                assert(s[i - 1] == x);
            }
        }
    }
}

/// Sorting puts entries in order, and neither loses nor adds one.
pub proof fn law_sorted(s: Seq<Msg>)
    ensures
        in_order(sorted(s)),
        sorted(s).len() == s.len(),
        forall|x: Msg| #[trigger] sorted(s).contains(x) <==> s.contains(x),
    decreases s.len(),
{
    if s.len() > 0 {
        let p = s.drop_last();
        law_sorted(p);
        lemma_placed(sorted(p), s.last());
        assert(s =~= p.push(s.last()));
        assert forall|x: Msg| #[trigger] sorted(s).contains(x) <==> s.contains(x) by {
            seqs::lemma_push_contains(p, s.last(), x);
            assert(sorted(p).contains(x) <==> p.contains(x));
        }
    }
}

/// Entries that are kept while more come in, at most so many.
spec fn kept(buf: Seq<Msg>, s: Seq<Msg>, cap: int) -> Seq<Msg>
    decreases s.len(),
{
    if s.len() == 0 {
        buf
    } else {
        cut(placed(kept(buf, s.drop_last(), cap), s.last()), cap)
    }
}

proof fn lemma_kept_concat(buf: Seq<Msg>, a: Seq<Msg>, b: Seq<Msg>, cap: int)
    ensures
        kept(buf, a + b, cap) == kept(kept(buf, a, cap), b, cap),
    decreases b.len(),
{
    if b.len() == 0 {
        assert(a + b =~= a);
    } else {
        lemma_kept_concat(buf, a, b.drop_last(), cap);
        assert((a + b).drop_last() =~= a + b.drop_last());
    }
}

proof fn lemma_cut_order(s: Seq<Msg>, cap: int)
    requires
        in_order(s),
        0 <= cap,
    ensures
        in_order(cut(s, cap)),
        cut(s, cap).len() <= cap,
{
    let t = cut(s, cap);
    assert forall|i: int, j: int| 0 <= i < j < t.len() implies !newer(
        #[trigger] t[j],
        #[trigger] t[i],
    ) by {
        assert(!newer(s[j], s[i]));
    }
}

proof fn lemma_kept_order(buf: Seq<Msg>, s: Seq<Msg>, cap: int)
    requires
        in_order(buf),
        buf.len() <= cap,
    ensures
        in_order(kept(buf, s, cap)),
        kept(buf, s, cap).len() <= cap,
    decreases s.len(),
{
    if s.len() > 0 {
        lemma_kept_order(buf, s.drop_last(), cap);
        lemma_placed(kept(buf, s.drop_last(), cap), s.last());
        lemma_cut_order(placed(kept(buf, s.drop_last(), cap), s.last()), cap);
    }
}

/// Keeping the first entries while they come in keeps the first of all.
proof fn lemma_kept_is_sorted(s: Seq<Msg>, cap: int)
    requires
        0 <= cap,
    ensures
        kept(Seq::empty(), s, cap) == cut(sorted(s), cap),
    decreases s.len(),
{
    if s.len() > 0 {
        let p = s.drop_last();
        let m = s.last();
        lemma_kept_is_sorted(p, cap);
        law_sorted(p);
        let all = sorted(p);
        let some = cut(all, cap);
        lemma_cut_order(all, cap);
        lemma_slot(all, m);
        lemma_slot(some, m);
        let i = slot(all, m);
        let j = slot(some, m);
        if j < i && j < some.len() {
            assert(some[j] == all[j]);
        }
        if i < j {
            assert(some[i] == all[i]);
        }
        assert(cut(placed(some, m), cap) =~= cut(placed(all, m), cap));
    }
}

/// Of a list in order the first `cap` entries are enough.
proof fn lemma_first_are_enough(buf: Seq<Msg>, s: Seq<Msg>, cap: int)
    requires
        in_order(buf),
        in_order(s),
        0 <= cap,
        buf.len() <= cap,
    ensures
        kept(buf, s, cap) == kept(buf, cut(s, cap), cap),
    decreases s.len(),
{
    if s.len() > cap {
        let p = s.drop_last();
        assert(in_order(p)) by {
            assert forall|i: int, j: int| 0 <= i < j < p.len() implies !newer(
                #[trigger] p[j],
                #[trigger] p[i],
            ) by {
                assert(!newer(s[j], s[i]));
            }
        }
        lemma_first_are_enough(buf, p, cap);
        assert(cut(p, cap) =~= cut(s, cap));
        let b = kept(buf, p, cap);
        let m = s.last();
        lemma_kept_order(buf, p, cap);
        if cap == 0 {
            assert(cut(placed(b, m), cap) =~= b);
        } else {
            lemma_full(buf, s, cap, cap);
            assert(cut(s, cap) =~= s.take(cap));
            assert(b == kept(buf, s.take(cap), cap));
            assert(!newer(s[cap - 1], b[cap - 1]));
            if cap - 1 < s.len() - 1 {
                assert(!newer(s[s.len() - 1], s[cap - 1]));
            }
            lemma_slot(b, m);
            if slot(b, m) < cap {
                assert(newer(m, b[cap - 1]));
            }
            assert(cut(placed(b, m), cap) =~= b);
        }
    }
}

/// After `k` entries of a list in order, the `k`-th that is kept comes no later
/// than the `k`-th of the list.
proof fn lemma_full(buf: Seq<Msg>, s: Seq<Msg>, cap: int, k: int)
    requires
        in_order(buf),
        in_order(s),
        buf.len() <= cap,
        0 <= k <= cap,
        k <= s.len(),
    ensures
        kept(buf, s.take(k), cap).len() >= k,
        k > 0 ==> !newer(s[k - 1], kept(buf, s.take(k), cap)[k - 1]),
    decreases k,
{
    if k > 0 {
        lemma_full(buf, s, cap, k - 1);
        seqs::lemma_take_last(s, k - 1);
        let b = kept(buf, s.take(k - 1), cap);
        let m = s[k - 1];
        lemma_kept_order(buf, s.take(k - 1), cap);
        lemma_slot(b, m);
        let i = slot(b, m);
        let t = placed(b, m);
        assert(kept(buf, s.take(k), cap) == cut(t, cap));
        assert(cut(t, cap)[k - 1] == t[k - 1]);
        if i < k - 1 {
            assert(t[k - 1] == b[k - 2]);
            assert(!newer(s[k - 2], b[k - 2]));
            assert(!newer(s[k - 1], s[k - 2]));
        } else if i > k - 1 {
            assert(t[k - 1] == b[k - 1]);
            assert(!newer(m, b[k - 1]));
        }
    }
}

/// The entries that are not newer than a bound.
pub open spec fn recent(s: Seq<Msg>, bound: i64) -> Seq<Msg> {
    s.filter(|m: Msg| m.date <= bound)
}

/// The entries of a list.
pub open spec fn list_of(index: Map<u64, Vec<Msg>>, owner: u64) -> Seq<Msg> {
    if index.contains_key(owner) {
        index[owner]@
    } else {
        Seq::empty()
    }
}

/// Whether every list stands in order.
pub open spec fn index_wf(index: Map<u64, Vec<Msg>>) -> bool {
    forall|x: u64| #[trigger] index.contains_key(x) ==> in_order(index[x]@)
}

/// The entries of some lists that are not newer than a bound, list by list. A
/// list that is named twice counts twice.
pub open spec fn all_recent(index: Map<u64, Vec<Msg>>, owners: Seq<u64>, bound: i64) -> Seq<Msg>
    decreases owners.len(),
{
    if owners.len() == 0 {
        Seq::empty()
    } else {
        all_recent(index, owners.drop_last(), bound) + recent(
            list_of(index, owners.last()),
            bound,
        )
    }
}

/// In a list in order the entries that are not newer than a bound come last.
proof fn lemma_recent_last(s: Seq<Msg>, bound: i64, k: int)
    requires
        in_order(s),
        0 <= k <= s.len(),
        forall|i: int| 0 <= i < k ==> (#[trigger] s[i]).date > bound,
        k < s.len() ==> s[k].date <= bound,
    ensures
        recent(s, bound) == s.skip(k),
        in_order(s.skip(k)),
    decreases s.len(),
{
    let f = |m: Msg| m.date <= bound;
    let t = s.skip(k);
    assert forall|i: int, j: int| 0 <= i < j < t.len() implies !newer(
        #[trigger] t[j],
        #[trigger] t[i],
    ) by {
        assert(!newer(s[j + k], s[i + k]));
    }
    if s.len() == 0 {
        seqs::lemma_filter_empty(f);
        assert(s =~= Seq::empty());
        assert(recent(s, bound) =~= t);
    } else {
        let p = s.drop_last();
        seqs::lemma_filter_last(s, f);
        assert(in_order(p)) by {
            assert forall|i: int, j: int| 0 <= i < j < p.len() implies !newer(
                #[trigger] p[j],
                #[trigger] p[i],
            ) by {
                assert(!newer(s[j], s[i]));
            }
        }
        if k == s.len() {
            assert(s[k - 1].date > bound);
            lemma_recent_last(p, bound, k - 1);
            assert(recent(s, bound) =~= t);
        } else {
            if k < s.len() - 1 {
                assert(!newer(s[s.len() - 1], s[k]));
            }
            assert(f(s.last()));
            lemma_recent_last(p, bound, k);
            assert(p.skip(k).push(s.last()) =~= t);
        }
    }
}

fn slot_in(s: &Vec<Msg>, m: &Msg) -> (k: usize)
    ensures
        k == slot(s@, *m),
        k <= s@.len(),
{
    let mut k: usize = s.len();
    assert(s@.take(k as int) =~= s@);
    while k > 0 && is_newer(m, &s[k - 1])
        invariant
            k <= s@.len(),
            slot(s@, *m) == slot(s@.take(k as int), *m),
        decreases k,
    {
        proof {
            seqs::lemma_take_last(s@, k - 1);
        }
        k = k - 1;
    }
    assert(k > 0 ==> s@.take(k as int).last() == s@[k - 1]);
    k
}

/// The first `cap` entries of some lists together that are not newer than a
/// bound.
pub fn try_ic2_ordered(index: &BTreeMap<u64, Vec<Msg>>, owners: &Vec<u64>, bound: i64, cap: usize) -> (r:
    Vec<Msg>)
    requires
        index_wf(index@),
    ensures
        r@ == cut(sorted(all_recent(index@, owners@, bound)), cap as int),
{
    let mut buf: Vec<Msg> = Vec::new();
    let mut i: usize = 0;
    assert(owners@.take(0) =~= Seq::empty());
    while i < owners.len()
        invariant
            i <= owners@.len(),
            index_wf(index@),
            buf@ == kept(Seq::empty(), all_recent(index@, owners@.take(i as int), bound), cap as int),
        decreases owners.len() - i,
    {
        let ghost before = all_recent(index@, owners@.take(i as int), bound);
        let ghost buf0 = buf@;
        proof {
            seqs::lemma_take_last(owners@, i as int);
            lemma_kept_order(Seq::empty(), before, cap as int);
        }
        match index.get(&owners[i]) {
            Some(list) => {
                let ghost all = list@;
                let mut start: usize = 0;
                while start < list.len() && list[start].date > bound
                    invariant
                        start <= list@.len(),
                        forall|j: int| 0 <= j < start ==> (#[trigger] list@[j]).date > bound,
                    decreases list.len() - start,
                {
                    start = start + 1;
                }
                let ghost rec = all.skip(start as int);
                proof {
                    lemma_recent_last(all, bound, start as int);
                    lemma_first_are_enough(buf0, rec, cap as int);
                    lemma_kept_concat(Seq::empty(), before, rec, cap as int);
                    assert(rec.take(0) =~= Seq::empty());
                }
                let mut k: usize = 0;
                while k < cap && k < list.len() - start
                    invariant
                        start <= list@.len(),
                        k <= cap,
                        k <= list@.len() - start,
                        rec == list@.skip(start as int),
                        in_order(buf0),
                        buf0.len() <= cap,
                        buf@ == kept(buf0, rec.take(k as int), cap as int),
                    decreases list.len() - start - k,
                {
                    let m = list[start + k];
                    proof {
                        seqs::lemma_take_last(rec, k as int);
                        lemma_kept_order(buf0, rec.take(k as int), cap as int);
                        assert(rec[k as int] == m);
                    }
                    let at = slot_in(&buf, &m);
                    buf.insert(at, m);
                    if buf.len() > cap {
                        buf.truncate(cap);
                    }
                    k = k + 1;
                }
                assert(rec.take(k as int) =~= cut(rec, cap as int));
            },
            None => {
                proof {
                    let f = |m: Msg| m.date <= bound;
                    seqs::lemma_filter_empty(f);
                    assert(before + recent(Seq::empty(), bound) =~= before);
                }
            },
        }
        i = i + 1;
    }
    proof {
        assert(owners@.take(i as int) =~= owners@);
        lemma_kept_is_sorted(all_recent(index@, owners@, bound), cap as int);
    }
    buf
}

/// The entries that a node makes: one for each of its relationships, in the list of
/// the end that it leads to, and none without a date. A node without a number of its
/// own goes by its id.
pub open spec fn entries_at(
    g: Graph,
    tokens: Option<Seq<u32>>,
    n: u64,
    date: Option<i64>,
    id: Option<i64>,
) -> Seq<Msg> {
    match date {
        Some(date) => g.adj(n, Dir::Out, tokens).map_values(
            |e: Adj|
                Msg {
                    date,
                    id: match id {
                        Some(i) => i,
                        None => n as i64,
                    },
                    owner: e.peer,
                    node: n,
                },
        ),
        None => Seq::empty(),
    }
}

/// The entries that the first `k` of some nodes make.
pub open spec fn entries_of(
    g: Graph,
    tokens: Option<Seq<u32>>,
    ns: Seq<u64>,
    dates: Seq<Option<i64>>,
    ids: Seq<Option<i64>>,
    k: nat,
) -> Seq<Msg>
    decreases k,
{
    if k == 0 {
        Seq::empty()
    } else {
        entries_of(g, tokens, ns, dates, ids, (k - 1) as nat) + entries_at(
            g,
            tokens,
            ns[k - 1],
            dates[k - 1],
            ids[k - 1],
        )
    }
}

/// The entries of one owner.
pub open spec fn owned(s: Seq<Msg>, owner: u64) -> Seq<Msg> {
    s.filter(|m: Msg| m.owner == owner)
}

/// Whether an index holds entries, sorted into one list per owner.
pub open spec fn indexed(index: Map<u64, Vec<Msg>>, s: Seq<Msg>) -> bool {
    forall|x: u64| #![trigger list_of(index, x)] list_of(index, x) == sorted(owned(s, x))
}

/// Puts an entry into the list of its owner.
fn file_entry(r: &mut BTreeMap<u64, Vec<Msg>>, m: Msg, Ghost(s): Ghost<Seq<Msg>>)
    requires
        indexed(old(r)@, s),
    ensures
        indexed(final(r)@, s.push(m)),
{
    let ghost r0 = r@;
    let owner = m.owner;
    assert(list_of(r@, owner) == sorted(owned(s, owner)));
    let mut list: Vec<Msg> = match r.remove(&owner) {
        Some(v) => v,
        None => Vec::new(),
    };
    proof {
        assert(list@ =~= list_of(r0, owner));
    }
    let at = slot_in(&list, &m);
    let ghost l0 = list@;
    list.insert(at, m);
    r.insert(owner, list);
    proof {
        let s2 = s.push(m);
        assert forall|x: u64|
            #![trigger list_of(r@, x)]
            list_of(r@, x) == sorted(owned(s2, x)) by {
            let f = |e: Msg| e.owner == x;
            seqs::lemma_filter_last(s2, f);
            assert(s2.drop_last() =~= s);
            assert(list_of(r0, x) == sorted(owned(s, x)));
            if x == owner {
                assert(f(s2.last()));
                assert(owned(s2, x) == owned(s, x).push(m));
                assert(owned(s2, x).drop_last() =~= owned(s, x));
                assert(list@ == placed(l0, m));
            } else {
                assert(!f(s2.last()));
                assert(list_of(r@, x) =~= list_of(r0, x));
            }
        }
    }
}

/// Whether every node with a date has a number of its own, so that entries of one date
/// stand in the order of those numbers.
pub open spec fn numbered(dates: Seq<Option<i64>>, ids: Seq<Option<i64>>) -> bool {
    forall|i: int| 0 <= i < dates.len() && (#[trigger] dates[i]) is Some ==> ids[i] is Some
}

/// Whether every node with a date has a number of its own.
pub fn all_numbered(dates: &Vec<Option<i64>>, ids: &Vec<Option<i64>>) -> (b: bool)
    requires
        dates@.len() == ids@.len(),
    ensures
        b == numbered(dates@, ids@),
{
    let mut i: usize = 0;
    while i < dates.len()
        invariant
            i <= dates@.len(),
            dates@.len() == ids@.len(),
            forall|j: int| 0 <= j < i && (#[trigger] dates@[j]) is Some ==> ids@[j] is Some,
        decreases dates.len() - i,
    {
        if dates[i].is_some() && ids[i].is_none() {
            assert(dates@[i as int] is Some);
            return false;
        }
        i = i + 1;
    }
    true
}

/// Sorts the entries that nodes make into one list per owner.
pub fn creator_sorted_messages(
    g: &Graph,
    tokens: &Option<Vec<u32>>,
    ns: &Vec<u64>,
    dates: &Vec<Option<i64>>,
    ids: &Vec<Option<i64>>,
) -> (r: BTreeMap<u64, Vec<Msg>>)
    requires
        dates@.len() == ns@.len(),
        ids@.len() == ns@.len(),
        forall|i: int| 0 <= i < ns@.len() ==> #[trigger] ns@[i] <= i64::MAX,
    ensures
        index_wf(r@),
        indexed(
            r@,
            entries_of(*g, graph::tokens_view(*tokens), ns@, dates@, ids@, ns@.len()),
        ),
{
    let ghost tv = graph::tokens_view(*tokens);
    let mut r: BTreeMap<u64, Vec<Msg>> = BTreeMap::new();
    let mut i: usize = 0;
    proof {
        assert forall|x: u64|
            #![trigger list_of(r@, x)]
            list_of(r@, x) == sorted(owned(Seq::empty(), x)) by {
            seqs::lemma_filter_empty(|m: Msg| m.owner == x);
        }
    }
    while i < ns.len()
        invariant
            i <= ns@.len(),
            dates@.len() == ns@.len(),
            ids@.len() == ns@.len(),
            tv == graph::tokens_view(*tokens),
            forall|i: int| 0 <= i < ns@.len() ==> #[trigger] ns@[i] <= i64::MAX,
            indexed(r@, entries_of(*g, tv, ns@, dates@, ids@, i as nat)),
        decreases ns.len() - i,
    {
        let n = ns[i];
        let ghost s = entries_of(*g, tv, ns@, dates@, ids@, i as nat);
        let ghost more = entries_at(*g, tv, n, dates@[i as int], ids@[i as int]);
        assert(entries_of(*g, tv, ns@, dates@, ids@, (i + 1) as nat) == s + more);
        match dates[i] {
            Some(date) => {
                let es = g.adjacent(n, Dir::Out, tokens);
                let id = match ids[i] {
                    Some(k) => k,
                    None => n as i64,
                };
                let mut k: usize = 0;
                assert(s + more.take(0) =~= s);
                while k < es.len()
                    invariant
                        k <= es@.len() == more.len(),
                        forall|j: int|
                            0 <= j < more.len() ==> #[trigger] more[j] == (Msg {
                                date,
                                id,
                                owner: es@[j].peer,
                                node: n,
                            }),
                        indexed(r@, s + more.take(k as int)),
                    decreases es.len() - k,
                {
                    let m = Msg { date, id, owner: es[k].peer, node: n };
                    file_entry(&mut r, m, Ghost(s + more.take(k as int)));
                    proof {
                        seqs::lemma_take_last(more, k as int);
                        assert((s + more.take(k as int)).push(m) =~= s + more.take(k + 1));
                    }
                    k = k + 1;
                }
                assert(more.take(k as int) =~= more);
            },
            None => {
                assert(s + more =~= s);
            },
        }
        i = i + 1;
    }
    proof {
        let s = entries_of(*g, tv, ns@, dates@, ids@, ns@.len());
        assert forall|x: u64| #[trigger] r@.contains_key(x) implies in_order(r@[x]@) by {
            assert(list_of(r@, x) == sorted(owned(s, x)));
            law_sorted(owned(s, x));
        }
    }
    r
}

/// The expression that a name stands for in a projection, or the name itself.
pub open spec fn resolved(e: ExprV, items: Seq<ItemV>) -> ExprV {
    match ast::as_var(e) {
        Some(x) => match seqs::find_map(
            items,
            |it: ItemV|
                if it.alias == Some(x) {
                    Some(it.expr)
                } else {
                    None
                },
        ) {
            Some(r) => r,
            None => e,
        },
        None => e,
    }
}

/// The expression that a name stands for in a projection, or the name itself.
pub fn resolve_alias<'a>(e: &'a Expr, items: &'a Vec<ProjItem>) -> (r: &'a Expr)
    ensures
        r.v() == resolved(e.v(), query::items_v(items@)),
{
    match &e.head {
        Head::Var(x) => {
            let ghost iv = query::items_v(items@);
            let ghost f = |it: ItemV|
                if it.alias == Some(x@) {
                    Some(it.expr)
                } else {
                    None::<ExprV>
                };
            let mut i: usize = 0;
            while i < items.len()
                invariant
                    i <= items@.len(),
                    e.v().head == HeadV::Var(x@),
                    iv == query::items_v(items@),
                    f == (|it: ItemV|
                        if it.alias == Some(x@) {
                            Some(it.expr)
                        } else {
                            None::<ExprV>
                        }),
                    forall|j: int| 0 <= j < i ==> f(#[trigger] iv[j]) is None,
                decreases items.len() - i,
            {
                assert(iv[i as int] == items@[i as int].v());
                match &items[i].alias {
                    Some(a) => {
                        if *a == *x {
                            proof {
                                seqs::lemma_find_map(iv, f, i as int);
                            }
                            return &items[i].expr;
                        }
                    },
                    None => {},
                }
                i = i + 1;
            }
            proof {
                seqs::lemma_find_map(iv, f, iv.len() as int);
            }
            e
        },
        _ => e,
    }
}

/// The property of a variable by which a projection orders first, downwards.
pub open spec fn date_order(p: ProjV, x: Seq<char>) -> Option<Seq<char>> {
    if p.order.len() > 0 && p.order[0].descending {
        prop_of(resolved(p.order[0].expr, p.items), x)
    } else {
        None
    }
}

/// The property of a variable by which a projection orders first, downwards.
pub fn ic2_date_order(p: &Projection, x: &String) -> (r: Option<String>)
    ensures
        ast::opt_str(r) == date_order(p.v(), x@),
{
    if p.order.len() == 0 {
        return None;
    }
    assert(p.v().order[0] == p.order@[0].v());
    if !p.order[0].descending {
        return None;
    }
    match own_prop(resolve_alias(&p.order[0].expr, &p.items), x) {
        Some(k) => Some(k.clone()),
        None => None,
    }
}

/// The other side of a comparison of a property of a variable.
pub open spec fn compared(e: ExprV, op: Op, x: Seq<char>) -> Option<(Seq<char>, ExprV)> {
    if ast::is_op(e, op, 2) {
        match prop_of(e.args[0], x) {
            Some(k) => Some((k, e.args[1])),
            None => None,
        }
    } else {
        None
    }
}

/// The other side of a comparison of a property of a variable.
pub fn compared_to<'a>(e: &'a Expr, op: Op, x: &String) -> (r: Option<(&'a String, &'a Expr)>)
    ensures
        match r {
            Some((k, v)) => compared(e.v(), op, x@) == Some((k@, v.v())),
            None => compared(e.v(), op, x@) is None,
        },
{
    match &e.head {
        Head::Op(o) => {
            if *o != op || e.args.len() != 2 {
                return None;
            }
            assert(e.v().args[0] == e.args@[0].v());
            assert(e.v().args[1] == e.args@[1].v());
            match own_prop(&e.args[0], x) {
                Some(k) => Some((k, &e.args[1])),
                None => None,
            }
        },
        _ => None,
    }
}

/// The bound on a property of a variable: the other side of the first condition
/// by which the property is at most that.
pub open spec fn upper_bound(ws: Seq<WhereV>, x: Seq<char>, prop: Seq<char>) -> Option<ExprV> {
    seqs::find_map(
        ws,
        |w: WhereV|
            match compared(w.expr, Op::Le, x) {
                Some((k, v)) => if k == prop {
                    Some(v)
                } else {
                    None
                },
                None => None,
            },
    )
}

/// The bound on a property of a variable.
pub fn ic2_date_upper_bound<'a>(ws: &'a Vec<WherePred>, x: &String, prop: &String) -> (r: Option<
    &'a Expr,
>)
    ensures
        ast::ref_v(r) == upper_bound(crate::preds::wheres_v(ws@), x@, prop@),
{
    let ghost wv = crate::preds::wheres_v(ws@);
    let ghost f = |w: WhereV|
        match compared(w.expr, Op::Le, x@) {
            Some((k, v)) => if k == prop@ {
                Some(v)
            } else {
                None::<ExprV>
            },
            None => None::<ExprV>,
        };
    let mut i: usize = 0;
    while i < ws.len()
        invariant
            i <= ws@.len(),
            wv == crate::preds::wheres_v(ws@),
            f == (|w: WhereV|
                match compared(w.expr, Op::Le, x@) {
                    Some((k, v)) => if k == prop@ {
                        Some(v)
                    } else {
                        None::<ExprV>
                    },
                    None => None::<ExprV>,
                }),
            forall|j: int| 0 <= j < i ==> f(#[trigger] wv[j]) is None,
        decreases ws.len() - i,
    {
        assert(wv[i as int] == ws@[i as int].v());
        match compared_to(&ws[i].expr, Op::Le, x) {
            Some((k, v)) => {
                if *k == *prop {
                    proof {
                        seqs::lemma_find_map(wv, f, i as int);
                    }
                    return Some(v);
                }
            },
            None => {},
        }
        i = i + 1;
    }
    proof {
        seqs::lemma_find_map(wv, f, wv.len() as int);
    }
    None
}

/// Where an ordered read of two hops looks: its variables, the property that
/// orders and its bound.
pub struct OrderedV {
    pub start: int,
    pub owner: int,
    pub entry: int,
    pub prop: Seq<char>,
    pub bound: ExprV,
}

/// Whether a hop has one type and a fixed length, leads to a node that it binds,
/// and binds no relationship.
pub open spec fn plain_hop(h: StepHop, typ: Seq<char>) -> bool {
    h.types == seq![typ] && h.varlen is None && h.rel_var is None && h.tgt is None
}

/// Whether a projection orders by two keys of which the second is the number of
/// a variable, upwards.
pub open spec fn number_order(p: ProjV, x: Seq<char>) -> bool {
    p.order.len() == 2 && !p.order[1].descending && prop_of(resolved(p.order[1].expr, p.items), x)
        == Some("id"@)
}

/// Whether a chain has two conditions of which one is that its start is the
/// anchored one.
pub open spec fn one_condition(c: ChainV) -> bool {
    c.wheres.len() == 2 && (c.start_anchor matches Some(a) && (c.wheres[0].expr == anchor_eq(
        c.a_var,
        a,
    ) || c.wheres[1].expr == anchor_eq(c.a_var, a)))
}

/// What an ordered read of two hops looks at: from an anchored start to owners,
/// and from each to its entries, the newest first up to a bound. There is no
/// condition beside the start's and that bound, and entries that are equally new
/// are ordered by their number.
pub open spec fn ordered_of(p: CoreV) -> Option<OrderedV> {
    let c = p.chain;
    if c.hops.len() != 2 || c.start_anchor is None || p.proj.distinct || !plain_hop(
        c.hops[0],
        "KNOWS"@,
    ) || !plain_hop(c.hops[1], "HAS_CREATOR"@) || c.hops[1].dir != Dir::In || !one_condition(c)
        || !number_order(p.proj, c.hops[1].var) {
        None
    } else {
        match (
            names::position(c.vars, c.a_var),
            names::position(c.vars, c.hops[0].var),
            names::position(c.vars, c.hops[1].var),
        ) {
            (Some(start), Some(owner), Some(entry)) => if c.hops[0].src != start || c.hops[1].src
                != owner || start == owner || start == entry || owner == entry
                || p.proj.limit is None {
                None
            } else {
                match date_order(p.proj, c.hops[1].var) {
                    Some(prop) => match upper_bound(c.wheres, c.hops[1].var, prop) {
                        Some(bound) => Some(OrderedV { start, owner, entry, prop, bound }),
                        None => None,
                    },
                    None => None,
                }
            },
            _ => None,
        }
    }
}

/// Where an ordered read of two hops looks.
#[derive(Debug)]
pub struct Ordered {
    pub start: usize,
    pub owner: usize,
    pub entry: usize,
    pub prop: String,
    pub bound: Expr,
}

impl Ordered {
    pub open spec fn v(self) -> OrderedV {
        OrderedV {
            start: self.start as int,
            owner: self.owner as int,
            entry: self.entry as int,
            prop: self.prop@,
            bound: self.bound.v(),
        }
    }
}

/// Where an ordered read looks, if anywhere.
pub open spec fn ordered_opt(r: Option<Ordered>) -> Option<OrderedV> {
    match r {
        Some(r) => Some(r.v()),
        None => None,
    }
}

/// Whether a list holds one name and no other.
pub(crate) fn is_lone(v: &Vec<String>, s: &String) -> (b: bool)
    ensures
        b == (names::of(v@) == seq![s@]),
{
    if v.len() != 1 {
        assert(names::of(v@).len() != seq![s@].len());
        return false;
    }
    if v[0] == *s {
        assert(names::of(v@) =~= seq![s@]);
        true
    } else {
        assert(names::of(v@)[0] != seq![s@][0]);
        false
    }
}

fn is_plain_hop(h: &Hop, typ: &String) -> (b: bool)
    ensures
        b == plain_hop(h.v(), typ@),
{
    is_lone(&h.types, typ) && h.varlen.is_none() && h.rel_var.is_none() && h.tgt.is_none()
}

fn is_number_order(p: &Projection, x: &String) -> (b: bool)
    ensures
        b == number_order(p.v(), x@),
{
    if p.order.len() != 2 {
        return false;
    }
    assert(p.v().order[1] == p.order@[1].v());
    if p.order[1].descending {
        return false;
    }
    match own_prop(resolve_alias(&p.order[1].expr, &p.items), x) {
        Some(k) => *k == "id".to_owned(),
        None => false,
    }
}

fn has_one_condition(c: &Chain) -> (b: bool)
    ensures
        b == one_condition(c.v()),
{
    if c.wheres.len() != 2 {
        return false;
    }
    assert(c.v().wheres[0] == c.wheres@[0].v());
    assert(c.v().wheres[1] == c.wheres@[1].v());
    match &c.start_anchor {
        Some((key, val)) => {
            let e = anchor_expr(&c.a_var, key, val);
            c.wheres[0].expr.same(&e) || c.wheres[1].expr.same(&e)
        },
        None => false,
    }
}

/// What an ordered read of two hops looks at.
pub fn ordered_shape(p: &CorePlan) -> (r: Option<Ordered>)
    ensures
        ordered_opt(r) == ordered_of(p.v()),
        r matches Some(o) ==> o.start < p.chain.vars@.len() && o.owner < p.chain.vars@.len()
            && o.entry < p.chain.vars@.len(),
{
    let c = &p.chain;
    if c.hops.len() != 2 || c.start_anchor.is_none() || p.proj.distinct {
        return None;
    }
    let h = &c.hops[0];
    let k = &c.hops[1];
    assert(p.v().chain.hops[0] == h.v());
    assert(p.v().chain.hops[1] == k.v());
    if !is_plain_hop(h, &"KNOWS".to_owned()) || !is_plain_hop(k, &"HAS_CREATOR".to_owned()) || k.dir
        != Dir::In || !has_one_condition(c) || !is_number_order(&p.proj, &k.var) {
        return None;
    }
    match (name_index(&c.vars, &c.a_var), name_index(&c.vars, &h.var), name_index(&c.vars, &k.var)) {
        (Some(start), Some(owner), Some(entry)) => {
            if h.src != start || k.src != owner || p.proj.limit.is_none() {
                return None;
            }
            if start == owner || start == entry || owner == entry {
                return None;
            }
            match ic2_date_order(&p.proj, &k.var) {
                Some(prop) => match ic2_date_upper_bound(&c.wheres, &k.var, &prop) {
                    Some(e) => {
                        let bound = e.copy();
                        Some(Ordered { start, owner, entry, prop, bound })
                    },
                    None => None,
                },
                None => None,
            }
        },
        _ => None,
    }
}

/// The row of an entry.
pub open spec fn entry_row(width: nat, o: OrderedV, start: u64, m: Msg) -> Seq<u64> {
    Seq::new(width, |i: int| NULL_ID).update(o.start, start).update(o.owner, m.owner).update(
        o.entry,
        m.node,
    )
}

/// Makes a row of each entry.
pub fn entry_rows(width: usize, o: &Ordered, start: u64, ms: &Vec<Msg>) -> (r: Vec<Vec<u64>>)
    requires
        o.start < width,
        o.owner < width,
        o.entry < width,
    ensures
        r@.len() == ms@.len(),
        forall|i: int|
            0 <= i < r@.len() ==> (#[trigger] r@[i])@ == entry_row(
                width as nat,
                o.v(),
                start,
                ms@[i],
            ),
{
    let mut r: Vec<Vec<u64>> = Vec::new();
    let mut i: usize = 0;
    while i < ms.len()
        invariant
            i <= ms@.len(),
            o.start < width,
            o.owner < width,
            o.entry < width,
            r@.len() == i,
            forall|j: int|
                0 <= j < i ==> (#[trigger] r@[j])@ == entry_row(width as nat, o.v(), start, ms@[j]),
        decreases ms.len() - i,
    {
        let mut row = repeat_id(NULL_ID, width);
        row.set(o.start, start);
        row.set(o.owner, ms[i].owner);
        row.set(o.entry, ms[i].node);
        assert(row@ =~= entry_row(width as nat, o.v(), start, ms@[i as int]));
        r.push(row);
        i = i + 1;
    }
    r
}

} // verus!
