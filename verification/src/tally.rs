//! Counting the ends of relationships without making a row for each.

use std::collections::{BTreeMap, BTreeSet};

use vstd::prelude::*;

use crate::chunk;
use crate::chunk::{HopV, RowV};
use crate::graph;
use crate::graph::{member_admits, Adj, Dir, Graph};
use crate::select::{ascending, insert_ascending};
use crate::seqs;
use crate::table;
use crate::table::first_seen;

verus! {

broadcast use {vstd::std_specs::btree::group_btree_axioms, vstd::laws_cmp::group_laws_cmp};

/// The ends of some relationships, as far as they are admitted.
pub open spec fn peers(es: Seq<Adj>, m: Option<Set<u64>>) -> Seq<u64> {
    seqs::keep_map(es, |e: Adj| graph::is_member(m, e.peer), |e: Adj| e.peer)
}

/// How a hop is walked, and from which end of each node's relationships.
pub struct WalkV {
    pub dir: Dir,
    pub tokens: Option<Seq<u32>>,
    pub members: Option<Set<u64>>,
    pub backwards: bool,
}

/// The ends that one node reaches.
pub open spec fn ends(g: Graph, w: WalkV, n: u64) -> Seq<u64> {
    if w.backwards {
        peers(g.adj(n, w.dir, w.tokens).reverse(), w.members)
    } else {
        peers(g.adj(n, w.dir, w.tokens), w.members)
    }
}

/// The ends that some nodes reach, node by node.
pub open spec fn all_ends(g: Graph, w: WalkV, ns: Seq<u64>) -> Seq<u64>
    decreases ns.len(),
{
    if ns.len() == 0 {
        Seq::empty()
    } else {
        all_ends(g, w, ns.drop_last()) + ends(g, w, ns.last())
    }
}

/// How often an element occurs.
pub open spec fn occurs<A>(s: Seq<A>, x: A) -> nat
    decreases s.len(),
{
    if s.len() == 0 {
        0
    } else {
        occurs(s.drop_last(), x) + if s.last() == x {
            1nat
        } else {
            0
        }
    }
}

/// An element occurs in two parts together as often as in each.
pub proof fn lemma_occurs_concat<A>(a: Seq<A>, b: Seq<A>, x: A)
    ensures
        occurs(a + b, x) == occurs(a, x) + occurs(b, x),
    decreases b.len(),
{
    if b.len() == 0 {
        assert(a + b =~= a);
    } else {
        lemma_occurs_concat(a, b.drop_last(), x);
        assert((a + b).drop_last() =~= a + b.drop_last());
        assert((a + b).last() == b.last());
    }
}

/// An element occurs exactly where it is held.
pub proof fn lemma_occurs_holds<A>(s: Seq<A>, x: A)
    ensures
        occurs(s, x) > 0 <==> s.contains(x),
        occurs(s, x) <= s.len(),
    decreases s.len(),
{
    if s.len() > 0 {
        lemma_occurs_holds(s.drop_last(), x);
        assert(s =~= s.drop_last().push(s.last()));
        seqs::lemma_push_contains(s.drop_last(), s.last(), x);
    }
}

/// Distinct ends in the order in which they are met, and how often each is.
#[derive(Debug)]
pub struct Tally {
    pub seen: Vec<u64>,
    pub count: BTreeMap<u64, i64>,
}

impl Tally {
    /// Whether the ends are those of a sequence.
    pub open spec fn of(self, s: Seq<u64>) -> bool {
        &&& self.seen@ == first_seen(s)
        &&& forall|x: u64| #[trigger] self.count@.contains_key(x) <==> s.contains(x)
        &&& forall|x: u64| #[trigger]
            self.count@.contains_key(x) ==> self.count@[x] == occurs(s, x)
    }

    pub fn new() -> (t: Tally)
        ensures
            t.of(Seq::empty()),
    {
        let t = Tally { seen: Vec::new(), count: BTreeMap::new() };
        assert(t.seen@ =~= first_seen(Seq::<u64>::empty()));
        t
    }

    /// Meets an end once more.
    fn meet(&mut self, x: u64, Ghost(s): Ghost<Seq<u64>>)
        requires
            old(self).of(s),
            s.len() < i64::MAX,
        ensures
            final(self).of(s.push(x)),
    {
        proof {
            lemma_occurs_holds(s, x);
            table::law_first_seen_same(s);
            assert(s.push(x).drop_last() =~= s);
            assert forall|y: u64| s.push(x).contains(y) <==> s.contains(y) || y == x by {
                seqs::lemma_push_contains(s, x, y);
            }
        }
        let before: Option<i64> = match self.count.get(&x) {
            Some(n) => Some(*n),
            None => None,
        };
        match before {
            Some(n) => {
                self.count.insert(x, n + 1);
            },
            None => {
                self.seen.push(x);
                self.count.insert(x, 1);
            },
        }
    }

    /// How often an end was met.
    pub(crate) fn get(&self, x: u64, Ghost(s): Ghost<Seq<u64>>) -> (n: i64)
        requires
            self.of(s),
        ensures
            n == occurs(s, x),
    {
        proof {
            lemma_occurs_holds(s, x);
        }
        match self.count.get(&x) {
            Some(n) => *n,
            None => 0,
        }
    }
}

/// How a hop is walked.
#[derive(Debug)]
pub struct Walk {
    pub dir: Dir,
    pub tokens: Option<Vec<u32>>,
    pub members: Option<BTreeSet<u64>>,
    pub backwards: bool,
}

/// A set of nodes as a set.
pub open spec fn set_view(m: Option<BTreeSet<u64>>) -> Option<Set<u64>> {
    match m {
        Some(s) => Some(s@),
        None => None,
    }
}

impl Walk {
    pub open spec fn v(self) -> WalkV {
        WalkV {
            dir: self.dir,
            tokens: graph::tokens_view(self.tokens),
            members: set_view(self.members),
            backwards: self.backwards,
        }
    }
}

fn own_members(m: &Option<BTreeSet<u64>>) -> (r: Option<&BTreeSet<u64>>)
    ensures
        graph::members_view(r) == set_view(*m),
{
    match m {
        Some(s) => Some(s),
        None => None,
    }
}

/// The ends that one node reaches.
pub fn ends_of(g: &Graph, w: &Walk, n: u64) -> (r: Vec<u64>)
    ensures
        r@ == ends(*g, w.v(), n),
{
    let es = g.adjacent(n, w.dir, &w.tokens);
    let m = own_members(&w.members);
    let ghost mv = set_view(w.members);
    let ghost keep = |e: Adj| graph::is_member(mv, e.peer);
    let ghost make = |e: Adj| e.peer;
    let ghost order = if w.backwards {
        es@.reverse()
    } else {
        es@
    };
    let mut r: Vec<u64> = Vec::new();
    proof {
        seqs::lemma_keep_map_empty(order, keep, make);
    }
    let mut i: usize = 0;
    while i < es.len()
        invariant
            i <= es@.len(),
            mv == set_view(w.members),
            graph::members_view(m) == mv,
            keep == (|e: Adj| graph::is_member(mv, e.peer)),
            make == (|e: Adj| e.peer),
            order == if w.backwards {
                es@.reverse()
            } else {
                es@
            },
            r@ == seqs::keep_map(order.take(i as int), keep, make),
        decreases es.len() - i,
    {
        let k: usize = if w.backwards {
            es.len() - 1 - i
        } else {
            i
        };
        proof {
            assert(order[i as int] == es@[k as int]);
            seqs::lemma_keep_map_take(order, i as int, keep, make);
        }
        let peer = es[k].peer;
        if member_admits(m, peer) {
            assert(keep(order[i as int]));
            r.push(peer);
        } else {
            assert(!keep(order[i as int]));
        }
        i = i + 1;
    }
    assert(order.take(i as int) =~= order);
    r
}

/// The ends that some nodes reach, node by node.
pub fn all_ends_of(g: &Graph, w: &Walk, ns: &Vec<u64>) -> (r: Vec<u64>)
    ensures
        r@ == all_ends(*g, w.v(), ns@),
{
    let mut r: Vec<u64> = Vec::new();
    let mut i: usize = 0;
    assert(ns@.take(0) =~= Seq::empty());
    while i < ns.len()
        invariant
            i <= ns@.len(),
            r@ == all_ends(*g, w.v(), ns@.take(i as int)),
        decreases ns.len() - i,
    {
        let mut es = ends_of(g, w, ns[i]);
        proof {
            seqs::lemma_take_last(ns@, i as int);
        }
        r.append(&mut es);
        i = i + 1;
    }
    assert(ns@.take(i as int) =~= ns@);
    r
}

proof fn lemma_all_ends_longer(g: Graph, w: WalkV, ns: Seq<u64>, i: int)
    requires
        0 <= i <= ns.len(),
    ensures
        all_ends(g, w, ns.take(i)).len() <= all_ends(g, w, ns).len(),
    decreases ns.len() - i,
{
    if i == ns.len() {
        assert(ns.take(i) =~= ns);
    } else {
        seqs::lemma_take_last(ns, i);
        lemma_all_ends_longer(g, w, ns, i + 1);
    }
}

/// Tallies the ends that some nodes reach.
pub fn tally_ends(g: &Graph, w: &Walk, ns: &Vec<u64>) -> (t: Tally)
    requires
        all_ends(*g, w.v(), ns@).len() <= i64::MAX,
    ensures
        t.of(all_ends(*g, w.v(), ns@)),
{
    let mut t = Tally::new();
    let ghost whole = all_ends(*g, w.v(), ns@);
    let mut i: usize = 0;
    assert(ns@.take(0) =~= Seq::empty());
    while i < ns.len()
        invariant
            i <= ns@.len(),
            whole == all_ends(*g, w.v(), ns@),
            whole.len() <= i64::MAX,
            t.of(all_ends(*g, w.v(), ns@.take(i as int))),
        decreases ns.len() - i,
    {
        let es = ends_of(g, w, ns[i]);
        let ghost base = all_ends(*g, w.v(), ns@.take(i as int));
        proof {
            seqs::lemma_take_last(ns@, i as int);
            lemma_all_ends_longer(*g, w.v(), ns@, i + 1);
        }
        let mut k: usize = 0;
        assert(base + es@.take(0) =~= base);
        while k < es.len()
            invariant
                k <= es@.len(),
                base.len() + es@.len() <= i64::MAX,
                t.of(base + es@.take(k as int)),
            decreases es.len() - k,
        {
            t.meet(es[k], Ghost(base + es@.take(k as int)));
            proof {
                seqs::lemma_take_last(es@, k as int);
                assert(base + es@.take(k + 1) =~= (base + es@.take(k as int)).push(es@[k as int]));
            }
            k = k + 1;
        }
        assert(es@.take(k as int) =~= es@);
        i = i + 1;
    }
    assert(ns@.take(i as int) =~= ns@);
    t
}

/// How often an end is reached by way of some nodes that are each reached a
/// number of times.
pub open spec fn rolled(g: Graph, w: WalkV, mids: Seq<u64>, first: Seq<u64>, x: u64) -> nat
    decreases mids.len(),
{
    if mids.len() == 0 {
        0
    } else {
        rolled(g, w, mids.drop_last(), first, x) + occurs(first, mids.last()) * occurs(
            ends(g, w, mids.last()),
            x,
        )
    }
}

proof fn lemma_rolled_none(g: Graph, w: WalkV, mids: Seq<u64>, x: u64)
    ensures
        rolled(g, w, mids, Seq::empty(), x) == 0,
    decreases mids.len(),
{
    if mids.len() > 0 {
        lemma_rolled_none(g, w, mids.drop_last(), x);
        let k = occurs(ends(g, w, mids.last()), x);
        assert(0nat * k == 0) by (nonlinear_arith);
    }
}

proof fn lemma_rolled_push(g: Graph, w: WalkV, mids: Seq<u64>, first: Seq<u64>, b: u64, x: u64)
    ensures
        rolled(g, w, mids, first.push(b), x) == rolled(g, w, mids, first, x) + occurs(mids, b)
            * occurs(ends(g, w, b), x),
    decreases mids.len(),
{
    let f = occurs(ends(g, w, b), x);
    if mids.len() == 0 {
        assert(0nat * f == 0) by (nonlinear_arith);
    } else {
        let p = mids.drop_last();
        let l = mids.last();
        lemma_rolled_push(g, w, p, first, b, x);
        assert(first.push(b).drop_last() =~= first);
        let fl = occurs(ends(g, w, l), x);
        let n = occurs(first, l);
        let k = occurs(p, b);
        if l == b {
            assert((n + 1) * fl == n * fl + fl) by (nonlinear_arith);
            assert((k + 1) * f == k * f + f) by (nonlinear_arith);
        }
    }
}

/// Counting the first hop by its ends and then rolling those counts up the
/// second hop counts every pair of relationships once: an end is reached as
/// often as it is met when each end of the first hop is followed on its own.
pub proof fn law_rollup_counts_rows(g: Graph, w: WalkV, mids: Seq<u64>, first: Seq<u64>, x: u64)
    requires
        mids.no_duplicates(),
        forall|b: u64| #[trigger] mids.contains(b) <==> first.contains(b),
    ensures
        rolled(g, w, mids, first, x) == occurs(all_ends(g, w, first), x),
{
    lemma_rolled_prefix(g, w, mids, first, x);
}

/// What is held once occurs once.
pub proof fn lemma_occurs_once(s: Seq<u64>, x: u64)
    requires
        s.no_duplicates(),
        s.contains(x),
    ensures
        occurs(s, x) == 1,
    decreases s.len(),
{
    let p = s.drop_last();
    assert(s =~= p.push(s.last()));
    assert forall|i: int, j: int| 0 <= i < p.len() && 0 <= j < p.len() && i != j implies p[i]
        != p[j] by {
        assert(s[i] != s[j]);
    }
    seqs::lemma_push_contains(p, s.last(), x);
    if p.contains(x) {
        let k = choose|k: int| 0 <= k < p.len() && p[k] == x;
        assert(s[k] != s[s.len() - 1]);
        lemma_occurs_once(p, x);
    } else {
        lemma_occurs_holds(p, x);
    }
}

proof fn lemma_rolled_prefix(g: Graph, w: WalkV, mids: Seq<u64>, first: Seq<u64>, x: u64)
    requires
        mids.no_duplicates(),
        forall|b: u64| #[trigger] first.contains(b) ==> mids.contains(b),
    ensures
        rolled(g, w, mids, first, x) == occurs(all_ends(g, w, first), x),
    decreases first.len(),
{
    if first.len() == 0 {
        assert(first =~= Seq::empty());
        lemma_rolled_none(g, w, mids, x);
    } else {
        let p = first.drop_last();
        let b = first.last();
        assert(first =~= p.push(b));
        assert forall|y: u64| #[trigger] p.contains(y) implies mids.contains(y) by {
            seqs::lemma_push_contains(p, b, y);
            assert(first.contains(y));
        }
        seqs::lemma_push_contains(p, b, b);
        assert(first.contains(b));
        lemma_rolled_prefix(g, w, mids, p, x);
        lemma_rolled_push(g, w, mids, p, b, x);
        lemma_occurs_once(mids, b);
        let f = occurs(ends(g, w, b), x);
        assert(1nat * f == f) by (nonlinear_arith);
        lemma_occurs_concat(all_ends(g, w, p), ends(g, w, b), x);
    }
}

/// Distinct ends and how often each is reached over two hops.
#[derive(Debug)]
pub struct Rolled {
    pub seen: Vec<u64>,
    pub counts: Vec<i64>,
}

/// The ids of a list, ascending.
pub fn ascending_of(ids: &Vec<u64>) -> (r: Vec<u64>)
    ensures
        ascending(r@),
        forall|x: u64| #[trigger] r@.contains(x) <==> ids@.contains(x),
{
    let mut r: Vec<u64> = Vec::new();
    let mut i: usize = 0;
    while i < ids.len()
        invariant
            i <= ids@.len(),
            ascending(r@),
            forall|x: u64| #[trigger] r@.contains(x) <==> ids@.take(i as int).contains(x),
        decreases ids.len() - i,
    {
        insert_ascending(&mut r, ids[i]);
        proof {
            seqs::lemma_take_last(ids@, i as int);
            assert forall|x: u64| #[trigger] r@.contains(x) <==> ids@.take(i + 1).contains(x) by {
                seqs::lemma_push_contains(ids@.take(i as int), ids@[i as int], x);
            }
        }
        i = i + 1;
    }
    assert(ids@.take(i as int) =~= ids@);
    r
}

/// An ascending list holds nothing twice.
pub proof fn lemma_ascending_distinct(s: Seq<u64>)
    requires
        ascending(s),
    ensures
        s.no_duplicates(),
{
    assert forall|i: int, j: int| 0 <= i < s.len() && 0 <= j < s.len() && i != j implies s[i]
        != s[j] by {
        if i < j {
            assert(s[i] < s[j]);
        } else {
            assert(s[j] < s[i]);
        }
    }
}

/// Tallies the ends of two hops: first those of one hop, then, from each
/// distinct one in ascending order, those of the next. The counts are as if
/// every end of the first hop had been followed on its own.
pub fn tally_two_hops(g: &Graph, w1: &Walk, w2: &Walk, ns: &Vec<u64>) -> (r: (Tally, Vec<u64>, Rolled))
    requires
        all_ends(*g, w1.v(), ns@).len() <= i64::MAX,
        all_ends(*g, w2.v(), all_ends(*g, w1.v(), ns@)).len() <= i64::MAX,
    ensures
        r.0.of(all_ends(*g, w1.v(), ns@)),
        ascending(r.1@),
        forall|x: u64| #[trigger] r.1@.contains(x) <==> all_ends(*g, w1.v(), ns@).contains(x),
        r.2.seen@ == first_seen(all_ends(*g, w2.v(), r.1@)),
        r.2.counts@.len() == r.2.seen@.len(),
        forall|i: int|
            0 <= i < r.2.seen@.len() ==> #[trigger] r.2.counts@[i] == occurs(
                all_ends(*g, w2.v(), all_ends(*g, w1.v(), ns@)),
                r.2.seen@[i],
            ),
{
    let ghost one = all_ends(*g, w1.v(), ns@);
    let ghost two = all_ends(*g, w2.v(), one);
    let t = tally_ends(g, w1, ns);
    let mids = ascending_of(&t.seen);
    proof {
        table::law_first_seen_same(one);
        lemma_ascending_distinct(mids@);
        lemma_all_ends_short(*g, w2.v(), mids@, one);
    }
    let mut seen: Vec<u64> = Vec::new();
    let mut sum: BTreeMap<u64, i64> = BTreeMap::new();
    let mut k: usize = 0;
    assert(mids@.take(0) =~= Seq::empty());
    assert(seen@ =~= first_seen(Seq::<u64>::empty()));
    while k < mids.len()
        invariant
            k <= mids@.len(),
            one == all_ends(*g, w1.v(), ns@),
            two == all_ends(*g, w2.v(), one),
            two.len() <= i64::MAX,
            t.of(one),
            mids@.no_duplicates(),
            forall|x: u64| #[trigger] mids@.contains(x) <==> one.contains(x),
            seen@ == first_seen(all_ends(*g, w2.v(), mids@.take(k as int))),
            sums(sum@, *g, w2.v(), mids@, one, k as int, Seq::empty()),
        decreases mids.len() - k,
    {
        let b = mids[k];
        let es = ends_of(g, w2, b);
        let c = t.get(b, Ghost(one));
        let ghost base = all_ends(*g, w2.v(), mids@.take(k as int));
        proof {
            seqs::lemma_take_last(mids@, k as int);
            assert(mids@[k as int] == b && mids@.contains(b));
            lemma_occurs_holds(one, b);
        }
        let mut j: usize = 0;
        assert(es@.take(0) =~= Seq::empty());
        assert(base + es@.take(0) =~= base);
        while j < es.len()
            invariant
                j <= es@.len(),
                k < mids@.len(),
                b == mids@[k as int],
                es@ == ends(*g, w2.v(), b),
                c == occurs(one, b),
                c > 0,
                one == all_ends(*g, w1.v(), ns@),
                two == all_ends(*g, w2.v(), one),
                two.len() <= i64::MAX,
                base == all_ends(*g, w2.v(), mids@.take(k as int)),
                mids@.no_duplicates(),
                forall|x: u64| #[trigger] mids@.contains(x) <==> one.contains(x),
                seen@ == first_seen(base + es@.take(j as int)),
                sums(sum@, *g, w2.v(), mids@, one, k as int, es@.take(j as int)),
            decreases es.len() - j,
        {
            let x = es[j];
            let ghost so_far = base + es@.take(j as int);
            let ghost sum0 = sum@;
            proof {
                seqs::lemma_take_last(es@, j as int);
                assert(base + es@.take(j + 1) =~= so_far.push(x));
                assert(so_far.push(x).drop_last() =~= so_far);
                table::law_first_seen_same(so_far);
                lemma_sum_fits(*g, w2.v(), mids@, one, k as int, j + 1, x);
            }
            let before: Option<i64> = match sum.get(&x) {
                Some(n) => Some(*n),
                None => None,
            };
            proof {
                lemma_sum_more(sum0, *g, w2.v(), mids@, one, k as int, es@.take(j as int), x);
            }
            match before {
                Some(n) => {
                    sum.insert(x, n + c);
                },
                None => {
                    seen.push(x);
                    sum.insert(x, c);
                },
            }
            j = j + 1;
        }
        proof {
            assert(es@.take(j as int) =~= es@);
            lemma_sum_next(sum@, *g, w2.v(), mids@, one, k as int);
        }
        k = k + 1;
    }
    assert(mids@.take(k as int) =~= mids@);
    proof {
        table::law_first_seen_same(all_ends(*g, w2.v(), mids@));
    }
    let mut counts: Vec<i64> = Vec::new();
    let mut i: usize = 0;
    while i < seen.len()
        invariant
            i <= seen@.len(),
            mids@.no_duplicates(),
            two == all_ends(*g, w2.v(), one),
            forall|x: u64| #[trigger] mids@.contains(x) <==> one.contains(x),
            sums(sum@, *g, w2.v(), mids@, one, mids@.len() as int, Seq::empty()),
            forall|x: u64| #[trigger]
                seen@.contains(x) <==> all_ends(*g, w2.v(), mids@).contains(x),
            counts@.len() == i,
            forall|j: int| 0 <= j < i ==> #[trigger] counts@[j] == occurs(two, seen@[j]),
        decreases seen.len() - i,
    {
        let x = seen[i];
        proof {
            assert(seen@.contains(seen@[i as int]));
            assert(mids@.take(mids@.len() as int) =~= mids@);
            assert(all_ends(*g, w2.v(), mids@) + Seq::empty() =~= all_ends(*g, w2.v(), mids@));
            law_rollup_counts_rows(*g, w2.v(), mids@, one, x);
            assert(sum@.contains_key(x));
            let c = occurs(one, mids@[mids@.len() as int]);
            assert(c * 0nat == 0) by (nonlinear_arith);
            assert(occurs(Seq::<u64>::empty(), x) == 0);
        }
        let n = match sum.get(&x) {
            Some(n) => *n,
            None => 0,
        };
        counts.push(n);
        i = i + 1;
    }
    (t, mids, Rolled { seen, counts })
}

/// Whether sums are those over the first `k` nodes and some ends of the next.
pub open spec fn sums(
    sum: Map<u64, i64>,
    g: Graph,
    w: WalkV,
    mids: Seq<u64>,
    first: Seq<u64>,
    k: int,
    es: Seq<u64>,
) -> bool {
    &&& forall|x: u64| #[trigger]
        sum.contains_key(x) <==> (all_ends(g, w, mids.take(k)) + es).contains(x)
    &&& forall|x: u64| #[trigger]
        sum.contains_key(x) ==> sum[x] == rolled(g, w, mids.take(k), first, x) + occurs(
            first,
            mids[k],
        ) * occurs(es, x)
}

proof fn lemma_rolled_holds(g: Graph, w: WalkV, mids: Seq<u64>, first: Seq<u64>, x: u64)
    requires
        !all_ends(g, w, mids).contains(x),
    ensures
        rolled(g, w, mids, first, x) == 0,
    decreases mids.len(),
{
    if mids.len() > 0 {
        let a = all_ends(g, w, mids.drop_last());
        let b = ends(g, w, mids.last());
        if a.contains(x) {
            let i = choose|i: int| 0 <= i < a.len() && a[i] == x;
            assert((a + b)[i] == x);
        }
        if b.contains(x) {
            let i = choose|i: int| 0 <= i < b.len() && b[i] == x;
            assert((a + b)[a.len() + i] == x);
        }
        lemma_rolled_holds(g, w, mids.drop_last(), first, x);
        lemma_occurs_holds(b, x);
        let c = occurs(first, mids.last());
        assert(c * 0nat == 0) by (nonlinear_arith);
    }
}

proof fn lemma_sum_fits(
    g: Graph,
    w: WalkV,
    mids: Seq<u64>,
    first: Seq<u64>,
    k: int,
    j: int,
    x: u64,
)
    requires
        0 <= k < mids.len(),
        0 <= j <= ends(g, w, mids[k]).len(),
        mids.no_duplicates(),
        forall|b: u64| #[trigger] mids.contains(b) <==> first.contains(b),
        all_ends(g, w, first).len() <= i64::MAX,
    ensures
        rolled(g, w, mids.take(k), first, x) + occurs(first, mids[k]) * occurs(
            ends(g, w, mids[k]).take(j),
            x,
        ) <= i64::MAX,
{
    let es = ends(g, w, mids[k]);
    law_rollup_counts_rows(g, w, mids, first, x);
    lemma_occurs_holds(all_ends(g, w, first), x);
    lemma_rolled_longer(g, w, mids, first, x, k + 1);
    seqs::lemma_take_last(mids, k);
    lemma_occurs_concat(es.take(j), es.skip(j), x);
    assert(es.take(j) + es.skip(j) =~= es);
    let c = occurs(first, mids[k]);
    let m = occurs(es.take(j), x);
    let n = occurs(es, x);
    assert(c * m <= c * n) by (nonlinear_arith)
        requires
            m <= n,
    ;
}

proof fn lemma_sum_more(
    sum: Map<u64, i64>,
    g: Graph,
    w: WalkV,
    mids: Seq<u64>,
    first: Seq<u64>,
    k: int,
    es: Seq<u64>,
    x: u64,
)
    requires
        sums(sum, g, w, mids, first, k, es),
    ensures
        ({
            let c = occurs(first, mids[k]) as int;
            let n = if sum.contains_key(x) {
                sum[x] + c
            } else {
                c
            };
            &&& n == rolled(g, w, mids.take(k), first, x) + c * occurs(es.push(x), x)
            &&& n <= i64::MAX ==> sums(sum.insert(x, n as i64), g, w, mids, first, k, es.push(x))
        }),
{
    let c = occurs(first, mids[k]) as int;
    let n = if sum.contains_key(x) {
        sum[x] + c
    } else {
        c
    };
    let base = all_ends(g, w, mids.take(k));
    let e2 = es.push(x);
    assert(e2.drop_last() =~= es);
    assert(base + e2 =~= (base + es).push(x));
    let o = occurs(es, x) as int;
    assert(c * (o + 1) == c * o + c) by (nonlinear_arith);
    if !sum.contains_key(x) {
        if base.contains(x) {
            let i = choose|i: int| 0 <= i < base.len() && base[i] == x;
            assert((base + es)[i] == x);
        }
        if es.contains(x) {
            let i = choose|i: int| 0 <= i < es.len() && es[i] == x;
            assert((base + es)[base.len() + i] == x);
        }
        lemma_rolled_holds(g, w, mids.take(k), first, x);
        lemma_occurs_holds(es, x);
        assert(c * 0 == 0) by (nonlinear_arith);
    }
    if n <= i64::MAX {
        let s2 = sum.insert(x, n as i64);
        assert forall|y: u64| #[trigger] s2.contains_key(y) <==> (base + e2).contains(y) by {
            seqs::lemma_push_contains(base + es, x, y);
            assert(sum.contains_key(y) <==> (base + es).contains(y));
        }
        assert forall|y: u64| #[trigger] s2.contains_key(y) implies s2[y] == rolled(
            g,
            w,
            mids.take(k),
            first,
            y,
        ) + occurs(first, mids[k]) * occurs(e2, y) by {
            if y != x {
                assert(sum.contains_key(y));
                assert(occurs(e2, y) == occurs(es, y));
            }
        }
    }
}

proof fn lemma_sum_next(
    sum: Map<u64, i64>,
    g: Graph,
    w: WalkV,
    mids: Seq<u64>,
    first: Seq<u64>,
    k: int,
)
    requires
        0 <= k < mids.len(),
        sums(sum, g, w, mids, first, k, ends(g, w, mids[k])),
    ensures
        sums(sum, g, w, mids, first, k + 1, Seq::empty()),
{
    seqs::lemma_take_last(mids, k);
    let next = all_ends(g, w, mids.take(k + 1));
    assert(next + Seq::empty() =~= next);
    assert forall|x: u64| #[trigger] sum.contains_key(x) implies sum[x] == rolled(
        g,
        w,
        mids.take(k + 1),
        first,
        x,
    ) + occurs(first, mids[k + 1]) * occurs(Seq::<u64>::empty(), x) by {
        let c = occurs(first, mids[k + 1]);
        assert(c * 0nat == 0) by (nonlinear_arith);
    }
}

proof fn lemma_rolled_longer(g: Graph, w: WalkV, mids: Seq<u64>, first: Seq<u64>, x: u64, i: int)
    requires
        0 <= i <= mids.len(),
    ensures
        rolled(g, w, mids.take(i), first, x) <= rolled(g, w, mids, first, x),
    decreases mids.len() - i,
{
    if i == mids.len() {
        assert(mids.take(i) =~= mids);
    } else {
        seqs::lemma_take_last(mids, i);
        lemma_rolled_longer(g, w, mids, first, x, i + 1);
    }
}

proof fn lemma_all_ends_remove(g: Graph, w: WalkV, s: Seq<u64>, i: int)
    requires
        0 <= i < s.len(),
    ensures
        all_ends(g, w, s).len() == all_ends(g, w, s.remove(i)).len() + ends(g, w, s[i]).len(),
    decreases s.len(),
{
    if i == s.len() - 1 {
        assert(s.remove(i) =~= s.drop_last());
    } else {
        lemma_all_ends_remove(g, w, s.drop_last(), i);
        assert(s.remove(i).drop_last() =~= s.drop_last().remove(i));
        assert(s.remove(i).last() == s.last());
    }
}

/// Distinct nodes reach no more ends than a list that holds them all.
proof fn lemma_all_ends_short(g: Graph, w: WalkV, mids: Seq<u64>, first: Seq<u64>)
    requires
        mids.no_duplicates(),
        forall|b: u64| #[trigger] mids.contains(b) ==> first.contains(b),
    ensures
        all_ends(g, w, mids).len() <= all_ends(g, w, first).len(),
    decreases mids.len(),
{
    if mids.len() > 0 {
        let p = mids.drop_last();
        let b = mids.last();
        assert(mids[mids.len() - 1] == b);
        assert(mids.contains(b));
        let i = choose|i: int| 0 <= i < first.len() && first[i] == b;
        let rest = first.remove(i);
        assert forall|i: int, j: int| 0 <= i < p.len() && 0 <= j < p.len() && i != j implies p[i]
            != p[j] by {
            assert(mids[i] != mids[j]);
        }
        assert forall|y: u64| #[trigger] p.contains(y) implies rest.contains(y) by {
            let k = choose|k: int| 0 <= k < p.len() && p[k] == y;
            assert(mids[k] == y && y != b);
            assert(mids.contains(y));
            let j = choose|j: int| 0 <= j < first.len() && first[j] == y;
            if j < i {
                assert(rest[j] == y);
            } else {
                assert(rest[j - 1] == y);
            }
        }
        lemma_all_ends_short(g, w, p, rest);
        lemma_all_ends_remove(g, w, first, i);
    }
}

/// Whether no relationship that a row has used keeps an expand from an edge.
pub open spec fn unbarred(g: Graph, h: HopV, row: RowV) -> bool {
    forall|j: int|
        0 <= j < g.adj(row.ids[h.src], h.dir, h.tokens).len() ==> !(h.track && chunk::base_of(
            row,
            h.track,
            h.reset,
        ).contains((#[trigger] g.adj(row.ids[h.src], h.dir, h.tokens)[j]).rel))
}

/// The ends of a hop, walked backwards, are what an expand adds to rows whose
/// used relationships do not keep it from an edge: tallying them counts the rows
/// of the hop.
pub proof fn law_ends_are_expanded(g: Graph, w: WalkV, h: HopV, rows: Seq<RowV>)
    requires
        w.backwards,
        h.dir == w.dir,
        h.tokens == w.tokens,
        h.members == w.members,
        !h.rel_col,
        forall|i: int| 0 <= i < rows.len() ==> unbarred(g, h, #[trigger] rows[i]),
    ensures
        all_ends(g, w, rows.map_values(|r: RowV| r.ids[h.src])) == chunk::expand_rows(
            g,
            h,
            rows,
        ).map_values(|r: RowV| r.ids.last()),
    decreases rows.len(),
{
    let f = |r: RowV| r.ids[h.src];
    let l = |r: RowV| r.ids.last();
    if rows.len() == 0 {
        assert(rows.map_values(f) =~= Seq::empty());
        assert(chunk::expand_rows(g, h, rows).map_values(l) =~= Seq::empty());
    } else {
        let p = rows.drop_last();
        let row = rows.last();
        assert forall|i: int| 0 <= i < p.len() implies unbarred(g, h, #[trigger] p[i]) by {
            assert(rows[i] == p[i]);
        }
        law_ends_are_expanded(g, w, h, p);
        assert(rows.map_values(f).drop_last() =~= p.map_values(f));
        assert(unbarred(g, h, rows[rows.len() - 1]));
        let way = g.adj(row.ids[h.src], h.dir, h.tokens);
        let es = way.reverse();
        let base = chunk::base_of(row, h.track, h.reset);
        let k1 = |e: Adj| chunk::expand_keeps(h, base, e);
        let k2 = |e: Adj| graph::is_member(w.members, e.peer);
        assert forall|j: int| 0 <= j < es.len() implies k1(#[trigger] es[j]) == k2(es[j]) by {
            assert(es[j] == way[way.len() - 1 - j]);
        }
        seqs::lemma_filter_same(es, k1, k2);
        assert(ends(g, w, row.ids[h.src]) =~= chunk::expand_row(g, h, row).map_values(l));
        assert(chunk::expand_rows(g, h, rows).map_values(l) =~= chunk::expand_rows(
            g,
            h,
            p,
        ).map_values(l) + chunk::expand_row(g, h, row).map_values(l));
    }
}

/// The ends of a hop are the same whichever way its edges are walked, but for
/// their order.
pub proof fn lemma_peers_reversed(es: Seq<Adj>, m: Option<Set<u64>>, x: u64)
    ensures
        occurs(peers(es.reverse(), m), x) == occurs(peers(es, m), x),
    decreases es.len(),
{
    let keep = |e: Adj| graph::is_member(m, e.peer);
    let make = |e: Adj| e.peer;
    if es.len() == 0 {
        assert(es.reverse() =~= es);
    } else {
        let p = es.drop_last();
        let e = es.last();
        lemma_peers_reversed(p, m, x);
        assert(es.reverse() =~= seq![e] + p.reverse());
        Seq::filter_distributes_over_add(seq![e], p.reverse(), keep);
        assert(peers(es.reverse(), m) =~= peers(seq![e], m) + peers(p.reverse(), m));
        lemma_occurs_concat(peers(seq![e], m), peers(p.reverse(), m), x);
        assert(es =~= p + seq![e]);
        Seq::filter_distributes_over_add(p, seq![e], keep);
        assert(peers(es, m) =~= peers(p, m) + peers(seq![e], m));
        lemma_occurs_concat(peers(p, m), peers(seq![e], m), x);
    }
}

/// Nodes reach each end equally often, whichever way their edges are walked.
pub proof fn law_way_does_not_count(g: Graph, w: WalkV, ns: Seq<u64>, x: u64)
    ensures
        occurs(all_ends(g, WalkV { backwards: true, ..w }, ns), x) == occurs(
            all_ends(g, WalkV { backwards: false, ..w }, ns),
            x,
        ),
    decreases ns.len(),
{
    if ns.len() > 0 {
        let n = ns.last();
        let b = WalkV { backwards: true, ..w };
        let f = WalkV { backwards: false, ..w };
        law_way_does_not_count(g, w, ns.drop_last(), x);
        lemma_peers_reversed(g.adj(n, w.dir, w.tokens), w.members, x);
        lemma_occurs_concat(all_ends(g, b, ns.drop_last()), ends(g, b, n), x);
        lemma_occurs_concat(all_ends(g, f, ns.drop_last()), ends(g, f, n), x);
    }
}

/// Nodes reach each end equally often, in whatever order they come.
pub proof fn law_order_does_not_count(g: Graph, w: WalkV, a: Seq<u64>, b: Seq<u64>, x: u64)
    requires
        forall|n: u64| #[trigger] occurs(a, n) == occurs(b, n),
    ensures
        occurs(all_ends(g, w, a), x) == occurs(all_ends(g, w, b), x),
{
    let mids = first_seen(a);
    table::law_first_seen_same(a);
    assert forall|n: u64| #[trigger] mids.contains(n) <==> b.contains(n) by {
        lemma_occurs_holds(a, n);
        lemma_occurs_holds(b, n);
        assert(occurs(a, n) == occurs(b, n));
    }
    law_rollup_counts_rows(g, w, mids, a, x);
    law_rollup_counts_rows(g, w, mids, b, x);
    lemma_rolled_same(g, w, mids, a, b, x);
}

proof fn lemma_rolled_same(g: Graph, w: WalkV, mids: Seq<u64>, a: Seq<u64>, b: Seq<u64>, x: u64)
    requires
        forall|n: u64| #[trigger] occurs(a, n) == occurs(b, n),
    ensures
        rolled(g, w, mids, a, x) == rolled(g, w, mids, b, x),
    decreases mids.len(),
{
    if mids.len() > 0 {
        lemma_rolled_same(g, w, mids.drop_last(), a, b, x);
        assert(occurs(a, mids.last()) == occurs(b, mids.last()));
    }
}

} // verus!
