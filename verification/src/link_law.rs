//! What the lists of a graph say: which nodes a relationship links, in a direction and
//! of a type, and what a search along such links finds.

use vstd::prelude::*;

use crate::chunk::{HopV, RowV};
use crate::graph;
use crate::graph::{Adj, Dir, Graph};
use crate::names;
use crate::operators::{reach, reach_edge, reach_edges, reach_from, reach_level, reach_rows, ReachV};
use crate::seqs;
use crate::tally;
use crate::tally::occurs;

verus! {

/// Whether a list holds a relationship to a node, of a type that is asked for; where no
/// types are asked for, of any type.
pub open spec fn lists(row: Seq<Adj>, to: u64, tokens: Option<Seq<u32>>) -> bool {
    exists|i: int|
        0 <= i < row.len() && (#[trigger] row[i]).peer == to && (tokens matches Some(t)
            ==> t.contains(row[i].typ))
}

/// Whether a relationship links two nodes: it leaves the first and enters the second, or
/// the other way, or either, as the direction asks.
pub open spec fn linked(g: Graph, a: u64, b: u64, dir: Dir, tokens: Option<Seq<u32>>) -> bool {
    ||| !(dir is In) && a < g.out@.len() && lists(g.out@[a as int]@, b, tokens)
    ||| !(dir is Out) && a < g.into@.len() && lists(g.into@[a as int]@, b, tokens)
}

/// What a filter keeps.
proof fn lemma_filter_has(row: Seq<Adj>, keep: spec_fn(Adj) -> bool, e: Adj)
    ensures
        row.filter(keep).contains(e) <==> row.contains(e) && keep(e),
{
    seqs::lemma_filter_contains(row, keep, e);
}

proof fn lemma_typed_lists(row: Seq<Adj>, to: u64, tokens: Option<Seq<u32>>)
    ensures
        (exists|i: int|
            0 <= i < graph::typed(row, tokens).len() && (#[trigger] graph::typed(row, tokens)[i]).peer
                == to) <==> lists(row, to, tokens),
{
    let keep = |e: Adj| graph::admits(tokens, e.typ);
    let s = graph::typed(row, tokens);
    assert(s == row.filter(keep));
    if exists|i: int| 0 <= i < s.len() && (#[trigger] s[i]).peer == to {
        let i = choose|i: int| 0 <= i < s.len() && (#[trigger] s[i]).peer == to;
        assert(s.contains(s[i]));
        lemma_filter_has(row, keep, s[i]);
        let k = choose|k: int| 0 <= k < row.len() && row[k] == s[i];
        assert(row[k].peer == to);
    }
    if lists(row, to, tokens) {
        let k = choose|k: int|
            0 <= k < row.len() && (#[trigger] row[k]).peer == to && (tokens matches Some(t)
                ==> t.contains(row[k].typ));
        assert(row.contains(row[k]));
        lemma_filter_has(row, keep, row[k]);
        let i = choose|i: int| 0 <= i < s.len() && s[i] == row[k];
        assert(s[i].peer == to);
    }
}

pub proof fn lemma_strip(row: Seq<Adj>, to: u64, r: u64, typ: u32)
    ensures
        graph::strip(row, to).contains((r, typ)) <==> row.contains(
            Adj { peer: to, rel: r, typ },
        ),
    decreases row.len(),
{
    if row.len() > 0 {
        let p = row.drop_last();
        lemma_strip(p, to, r, typ);
        let e = Adj { peer: to, rel: r, typ };
        assert(row =~= p.push(row.last()));
        seqs::lemma_push_contains(p, row.last(), e);
        let s = graph::strip(p, to);
        seqs::lemma_push_contains(s, (row.last().rel, row.last().typ), (r, typ));
    }
}

/// A relationship from a node to itself is listed on either side.
proof fn lemma_loop_lists(g: Graph, a: u64, tokens: Option<Seq<u32>>)
    requires
        g.wf(),
        lists(graph::row_of(g.into@, a), a, tokens),
    ensures
        lists(graph::row_of(g.out@, a), a, tokens),
{
    let n = graph::row_of(g.into@, a);
    let o = graph::row_of(g.out@, a);
    let k = choose|k: int|
        0 <= k < n.len() && (#[trigger] n[k]).peer == a && (tokens matches Some(t) ==> t.contains(
            n[k].typ,
        ));
    let e = n[k];
    assert(e == Adj { peer: a, rel: e.rel, typ: e.typ });
    assert(n.contains(e));
    lemma_strip(n, a, e.rel, e.typ);
    assert(graph::strip(o, a) == graph::strip(n, a));
    lemma_strip(o, a, e.rel, e.typ);
    let i = choose|i: int| 0 <= i < o.len() && o[i] == e;
    assert(o[i].peer == a);
}

/// The ends of the relationships that a node is visited along are the nodes that it is
/// linked to.
pub proof fn law_visits_follow_links(g: Graph, a: u64, b: u64, dir: Dir, tokens: Option<Seq<u32>>)
    requires
        g.wf(),
    ensures
        (exists|i: int|
            0 <= i < g.adj(a, dir, tokens).len() && (#[trigger] g.adj(a, dir, tokens)[i]).peer == b)
            <==> linked(g, a, b, dir, tokens),
{
    let o = graph::row_of(g.out@, a);
    let n = graph::row_of(g.into@, a);
    lemma_typed_lists(o, b, tokens);
    lemma_typed_lists(n, b, tokens);
    assert(lists(o, b, tokens) ==> a < g.out@.len() && o == g.out@[a as int]@);
    assert(lists(n, b, tokens) ==> a < g.into@.len() && n == g.into@[a as int]@);
    if dir is Out {
        assert(g.adj(a, dir, tokens) == graph::typed(o, tokens));
    } else if dir is In {
        assert(g.adj(a, dir, tokens) == graph::typed(n, tokens));
    } else {
        let x = graph::typed(o, tokens);
        let y = graph::typed(n, tokens);
        let keep = |e: Adj| e.peer != a;
        let z = y.filter(keep);
        let s = g.adj(a, dir, tokens);
        assert(s == x + z);
        if exists|i: int| 0 <= i < s.len() && (#[trigger] s[i]).peer == b {
            let i = choose|i: int| 0 <= i < s.len() && (#[trigger] s[i]).peer == b;
            if i < x.len() {
                assert(x[i].peer == b);
            } else {
                let e = z[i - x.len()];
                assert(z.contains(e));
                lemma_filter_has(y, keep, e);
                let k = choose|k: int| 0 <= k < y.len() && y[k] == e;
                assert(y[k].peer == b);
            }
        }
        if linked(g, a, b, dir, tokens) {
            if lists(n, b, tokens) && b == a {
                lemma_loop_lists(g, a, tokens);
            }
            if lists(o, b, tokens) {
                let i = choose|i: int| 0 <= i < x.len() && (#[trigger] x[i]).peer == b;
                assert(s[i].peer == b);
            } else {
                let k = choose|k: int| 0 <= k < y.len() && (#[trigger] y[k]).peer == b;
                assert(y.contains(y[k]));
                lemma_filter_has(y, keep, y[k]);
                let j = choose|j: int| 0 <= j < z.len() && z[j] == y[k];
                assert(s[x.len() + j].peer == b);
            }
        }
    }
}

/// How often a list holds an entry of a type that is asked for.
pub open spec fn listed_times(row: Seq<Adj>, e: Adj, tokens: Option<Seq<u32>>) -> nat {
    if tokens matches Some(t) ==> t.contains(e.typ) {
        occurs(row, e)
    } else {
        0
    }
}

pub proof fn lemma_filter_times<A>(s: Seq<A>, keep: spec_fn(A) -> bool, x: A)
    ensures
        occurs(s.filter(keep), x) == if keep(x) {
            occurs(s, x)
        } else {
            0
        },
    decreases s.len(),
{
    if s.len() == 0 {
        assert(s =~= Seq::empty());
        seqs::lemma_filter_empty(keep);
    } else {
        lemma_filter_times(s.drop_last(), keep, x);
        seqs::lemma_filter_last(s, keep);
        let p = s.drop_last().filter(keep);
        if keep(s.last()) {
            assert(p.push(s.last()).drop_last() =~= p);
        }
    }
}

/// Each relationship of a node is visited as often as it is listed in the direction that
/// is asked for, and one that leads back to the node only once where both are.
pub proof fn law_visits_each_relationship(
    g: Graph,
    a: u64,
    dir: Dir,
    tokens: Option<Seq<u32>>,
    e: Adj,
)
    requires
        a < g.out@.len(),
        a < g.into@.len(),
    ensures
        occurs(g.adj(a, dir, tokens), e) == (if dir is In {
            0
        } else {
            listed_times(g.out@[a as int]@, e, tokens)
        }) + (if dir is Out || (dir is Both && e.peer == a) {
            0
        } else {
            listed_times(g.into@[a as int]@, e, tokens)
        }),
{
    let o = g.out@[a as int]@;
    let n = g.into@[a as int]@;
    let keep = |e: Adj| graph::admits(tokens, e.typ);
    let other = |e: Adj| e.peer != a;
    lemma_filter_times(o, keep, e);
    lemma_filter_times(n, keep, e);
    lemma_filter_times(n.filter(keep), other, e);
    if dir is Both {
        tally::lemma_occurs_concat(o.filter(keep), n.filter(keep).filter(other), e);
    }
}

/// A node that has no lists is visited along nothing.
pub proof fn law_no_lists_no_visits(g: Graph, a: u64, dir: Dir, tokens: Option<Seq<u32>>)
    requires
        a >= g.out@.len(),
        a >= g.into@.len(),
    ensures
        g.adj(a, dir, tokens).len() == 0,
{
    let keep = |e: Adj| graph::admits(tokens, e.typ);
    let other = |e: Adj| e.peer != a;
    seqs::lemma_filter_empty(keep);
    seqs::lemma_filter_empty(other);
}

/// A relationship is asked for by the names of types exactly when no type is named, or
/// its own is.
pub proof fn law_types_are_asked_by_name(g: Graph, types: Seq<Seq<char>>, typ: u32)
    requires
        g.wf(),
        typ < g.types@.len(),
    ensures
        (g.type_tokens(types) matches Some(t) ==> t.contains(typ)) <==> types.len() == 0
            || types.contains(g.types@[typ as int]@),
{
    if types.len() > 0 {
        lemma_tokens(g, types, typ);
    }
}

proof fn lemma_tokens(g: Graph, types: Seq<Seq<char>>, typ: u32)
    requires
        g.wf(),
        typ < g.types@.len(),
    ensures
        g.tokens_of(types).contains(typ) <==> types.contains(g.types@[typ as int]@),
    decreases types.len(),
{
    if types.len() > 0 {
        let all = names::of(g.types@);
        let p = types.drop_last();
        let x = types.last();
        lemma_tokens(g, p, typ);
        names::lemma_position(all, x);
        assert(types =~= p.push(x));
        let name = g.types@[typ as int]@;
        assert(all[typ as int] == name);
        seqs::lemma_push_contains(p, x, name);
        match names::position(all, x) {
            Some(i) => {
                seqs::lemma_push_contains(g.tokens_of(p), i as u32, typ);
                assert(all[i] == x);
                if x == name {
                    assert(i == typ as int);
                }
            },
            None => {
                if x == name {
                    assert(all.contains(x));
                }
            },
        }
    }
}

/// Whether a walk of so many relationships leads from one node to another.
pub open spec fn walk(g: Graph, h: HopV, a: u64, b: u64, n: nat) -> bool
    decreases n,
{
    if n == 0 {
        a == b
    } else {
        exists|m: u64|
            walk(g, h, a, m, (n - 1) as nat) && #[trigger] linked(g, m, b, h.dir, h.tokens)
    }
}

/// Whether a walk of one up to so many relationships leads from one node to another.
pub open spec fn within(g: Graph, h: HopV, a: u64, b: u64, n: nat) -> bool {
    exists|k: nat| 1 <= k <= n && #[trigger] walk(g, h, a, b, k)
}

/// Whether a node may be found: where ends are held to members, it is one.
pub open spec fn may_end(m: Option<Set<u64>>, v: u64) -> bool {
    m matches Some(s) ==> s.contains(v)
}

/// A search that met some nodes.
spec fn grew(s: ReachV, t: ReachV, more: bool, m: Option<Set<u64>>, new: spec_fn(u64) -> bool) -> bool {
    &&& forall|v: u64| #[trigger] t.seen.contains(v) <==> s.seen.contains(v) || new(v)
    &&& forall|v: u64| #[trigger]
        t.next.contains(v) <==> s.next.contains(v) || (more && new(v) && !s.seen.contains(v))
    &&& forall|v: u64| #[trigger]
        t.found.contains(v) <==> s.found.contains(v) || (may_end(m, v) && new(v)
            && !s.seen.contains(v))
    &&& tidy(s) ==> tidy(t)
}

/// What is found was seen, and is found once.
spec fn tidy(s: ReachV) -> bool {
    s.found.no_duplicates() && forall|v: u64| #[trigger] s.found.contains(v) ==> s.seen.contains(v)
}

proof fn lemma_grew_twice(
    s: ReachV,
    t: ReachV,
    u: ReachV,
    more: bool,
    m: Option<Set<u64>>,
    a: spec_fn(u64) -> bool,
    b: spec_fn(u64) -> bool,
    c: spec_fn(u64) -> bool,
)
    requires
        grew(s, t, more, m, a),
        grew(t, u, more, m, b),
        forall|v: u64| #[trigger] c(v) <==> a(v) || b(v),
    ensures
        grew(s, u, more, m, c),
{
    assert forall|v: u64| #[trigger] u.seen.contains(v) <==> s.seen.contains(v) || c(v) by {
        assert(t.seen.contains(v) <==> s.seen.contains(v) || a(v));
    }
    assert forall|v: u64| #[trigger] u.next.contains(v) <==> s.next.contains(v) || (more && c(v)
        && !s.seen.contains(v)) by {
        assert(t.seen.contains(v) <==> s.seen.contains(v) || a(v));
        assert(t.next.contains(v) <==> s.next.contains(v) || (more && a(v) && !s.seen.contains(v)));
    }
    assert forall|v: u64| #[trigger] u.found.contains(v) <==> s.found.contains(v) || (may_end(m, v)
        && c(v) && !s.seen.contains(v)) by {
        assert(t.seen.contains(v) <==> s.seen.contains(v) || a(v));
        assert(t.found.contains(v) <==> s.found.contains(v) || (may_end(m, v) && a(v)
            && !s.seen.contains(v)));
    }
}

proof fn lemma_edge(s: ReachV, e: Adj, more: bool, m: Option<Set<u64>>)
    ensures
        grew(s, reach_edge(s, e, more, m), more, m, |v: u64| v == e.peer),
{
    let t = reach_edge(s, e, more, m);
    let x = e.peer;
    assert forall|v: u64| #[trigger] t.next.contains(v) <==> s.next.contains(v) || (more && v == x
        && !s.seen.contains(v)) by {
        seqs::lemma_push_contains(s.next, x, v);
    }
    assert forall|v: u64| #[trigger] t.found.contains(v) <==> s.found.contains(v) || (may_end(m, v)
        && v == x && !s.seen.contains(v)) by {
        seqs::lemma_push_contains(s.found, x, v);
    }
    if tidy(s) {
        if t.found != s.found {
            assert(!s.found.contains(x));
            assert(t.found.no_duplicates());
        }
        assert forall|v: u64| #[trigger] t.found.contains(v) implies t.seen.contains(v) by {
            assert(s.found.contains(v) || v == x);
        }
    }
}

/// Whether one of some edges leads to a node.
spec fn leads(es: Seq<Adj>) -> spec_fn(u64) -> bool {
    |v: u64| exists|i: int| 0 <= i < es.len() && (#[trigger] es[i]).peer == v
}

proof fn lemma_edges(s: ReachV, es: Seq<Adj>, more: bool, m: Option<Set<u64>>)
    ensures
        grew(s, reach_edges(s, es, more, m), more, m, leads(es)),
    decreases es.len(),
{
    if es.len() == 0 {
        assert forall|v: u64| !#[trigger] leads(es)(v) by {}
    } else {
        let p = es.drop_last();
        let e = es.last();
        let t = reach_edges(s, p, more, m);
        lemma_edges(s, p, more, m);
        lemma_edge(t, e, more, m);
        let b = |v: u64| v == e.peer;
        assert forall|v: u64| #[trigger] leads(es)(v) <==> leads(p)(v) || b(v) by {
            if leads(es)(v) {
                let i = choose|i: int| 0 <= i < es.len() && (#[trigger] es[i]).peer == v;
                if i < p.len() {
                    assert(p[i].peer == v);
                }
            }
            if leads(p)(v) {
                let i = choose|i: int| 0 <= i < p.len() && (#[trigger] p[i]).peer == v;
                assert(es[i].peer == v);
            }
            if b(v) {
                assert(es[es.len() - 1].peer == v);
            }
        }
        lemma_grew_twice(s, t, reach_edge(t, e, more, m), more, m, leads(p), b, leads(es));
    }
}

/// Whether one of some nodes is linked to a node.
spec fn next_to(g: Graph, h: HopV, us: Seq<u64>) -> spec_fn(u64) -> bool {
    |v: u64| exists|i: int| 0 <= i < us.len() && linked(g, #[trigger] us[i], v, h.dir, h.tokens)
}

proof fn lemma_level(
    g: Graph,
    h: HopV,
    produced: nat,
    s: ReachV,
    us: Seq<u64>,
    more: bool,
)
    requires
        g.wf(),
        reach_level(g, h, produced, s, us, more) is Some,
    ensures
        grew(
            s,
            reach_level(g, h, produced, s, us, more)->0,
            more,
            h.members,
            next_to(g, h, us),
        ),
    decreases us.len(),
{
    if us.len() == 0 {
        assert forall|v: u64| !#[trigger] next_to(g, h, us)(v) by {}
    } else {
        let p = us.drop_last();
        let u = us.last();
        lemma_level(g, h, produced, s, p, more);
        let t = reach_level(g, h, produced, s, p, more)->0;
        let es = g.adj(u, h.dir, h.tokens);
        lemma_edges(t, es, more, h.members);
        assert forall|v: u64| #[trigger] next_to(g, h, us)(v) <==> next_to(g, h, p)(v) || leads(es)(
            v,
        ) by {
            law_visits_follow_links(g, u, v, h.dir, h.tokens);
            if next_to(g, h, us)(v) {
                let i = choose|i: int|
                    0 <= i < us.len() && linked(g, #[trigger] us[i], v, h.dir, h.tokens);
                if i < p.len() {
                    assert(linked(g, p[i], v, h.dir, h.tokens));
                }
            }
            if next_to(g, h, p)(v) {
                let i = choose|i: int|
                    0 <= i < p.len() && linked(g, #[trigger] p[i], v, h.dir, h.tokens);
                assert(linked(g, us[i], v, h.dir, h.tokens));
            }
            if leads(es)(v) {
                assert(linked(g, us[us.len() - 1], v, h.dir, h.tokens));
            }
        }
        lemma_grew_twice(
            s,
            t,
            reach_edges(t, es, more, h.members),
            more,
            h.members,
            next_to(g, h, p),
            leads(es),
            next_to(g, h, us),
        );
    }
}

/// What a search has done after so many levels: it has seen what is within them, has
/// still to visit what was not within fewer, and has found the ends that it has seen.
spec fn searched(
    g: Graph,
    h: HopV,
    src: u64,
    d: nat,
    seen: Set<u64>,
    found: Seq<u64>,
    frontier: Seq<u64>,
) -> bool {
    &&& forall|v: u64| #[trigger] seen.contains(v) <==> within(g, h, src, v, d)
    &&& forall|v: u64| #[trigger]
        found.contains(v) <==> may_end(h.members, v) && within(g, h, src, v, d)
    &&& found.no_duplicates()
    &&& forall|v: u64| #[trigger]
        frontier.contains(v) <==> walk(g, h, src, v, d) && (d == 0 || !within(
            g,
            h,
            src,
            v,
            (d - 1) as nat,
        ))
}

/// What is within one more relationship is within as many, or is linked to what was
/// first within as many.
proof fn lemma_one_more(g: Graph, h: HopV, src: u64, d: nat, us: Seq<u64>, v: u64)
    requires
        forall|u: u64| #[trigger]
            us.contains(u) <==> walk(g, h, src, u, d) && (d == 0 || !within(
                g,
                h,
                src,
                u,
                (d - 1) as nat,
            )),
    ensures
        within(g, h, src, v, d + 1) <==> within(g, h, src, v, d) || next_to(g, h, us)(v),
        within(g, h, src, v, d + 1) && !within(g, h, src, v, d) ==> walk(g, h, src, v, d + 1),
{
    if within(g, h, src, v, d) {
        let k = choose|k: nat| 1 <= k <= d && #[trigger] walk(g, h, src, v, k);
        assert(1 <= k <= d + 1);
    }
    if next_to(g, h, us)(v) {
        let i = choose|i: int| 0 <= i < us.len() && linked(g, #[trigger] us[i], v, h.dir, h.tokens);
        assert(us.contains(us[i]));
        assert(walk(g, h, src, us[i], d));
        assert(walk(g, h, src, v, d + 1)) by {
            assert(walk(g, h, src, us[i], (d + 1 - 1) as nat));
        }
    }
    if within(g, h, src, v, d + 1) && !within(g, h, src, v, d) {
        let k = choose|k: nat| 1 <= k <= d + 1 && #[trigger] walk(g, h, src, v, k);
        assert(k == d + 1);
        let u = choose|u: u64|
            walk(g, h, src, u, (k - 1) as nat) && #[trigger] linked(g, u, v, h.dir, h.tokens);
        if d > 0 && within(g, h, src, u, (d - 1) as nat) {
            let j = choose|j: nat| 1 <= j <= d - 1 && #[trigger] walk(g, h, src, u, j);
            assert(walk(g, h, src, v, j + 1)) by {
                assert(walk(g, h, src, u, (j + 1 - 1) as nat));
            }
            assert(within(g, h, src, v, d));
        } else {
            assert(us.contains(u));
            let i = choose|i: int| 0 <= i < us.len() && us[i] == u;
            assert(linked(g, us[i], v, h.dir, h.tokens));
        }
    }
}

proof fn lemma_searched(
    g: Graph,
    h: HopV,
    produced: nat,
    src: u64,
    seen: Set<u64>,
    found: Seq<u64>,
    frontier: Seq<u64>,
    d: nat,
    max: nat,
)
    requires
        g.wf(),
        d <= max,
        searched(g, h, src, d, seen, found, frontier),
        reach_from(g, h, produced, seen, found, frontier, d, max) is Some,
    ensures
        ({
            let out = reach_from(g, h, produced, seen, found, frontier, d, max)->0;
            &&& forall|v: u64| #[trigger]
                out.contains(v) <==> may_end(h.members, v) && within(g, h, src, v, max)
            &&& out.no_duplicates()
        }),
    decreases max - d,
{
    if d < max {
        let s = ReachV { seen, next: Seq::empty(), found };
        let more = d + 1 < max;
        assert forall|v: u64| (within(g, h, src, v, d + 1) <==> #[trigger] within(g, h, src, v, d)
            || next_to(g, h, frontier)(v)) && (within(g, h, src, v, d + 1) && !within(
            g,
            h,
            src,
            v,
            d,
        ) ==> walk(g, h, src, v, d + 1)) by {
            lemma_one_more(g, h, src, d, frontier, v);
        }
        if frontier.len() == 0 {
            assert forall|v: u64| #[trigger] frontier.contains(v) <==> walk(g, h, src, v, d + 1)
                && !within(g, h, src, v, d) by {
                assert(!next_to(g, h, frontier)(v));
                if walk(g, h, src, v, d + 1) {
                    assert(within(g, h, src, v, d + 1));
                }
                assert(within(g, h, src, v, d) || !within(g, h, src, v, d));
            }
            assert forall|v: u64| within(g, h, src, v, d + 1) <==> #[trigger] within(
                g,
                h,
                src,
                v,
                d,
            ) by {
                assert(!next_to(g, h, frontier)(v));
            }
            assert forall|v: u64| #[trigger] seen.contains(v) <==> within(g, h, src, v, d + 1) by {
                assert(within(g, h, src, v, d) || !within(g, h, src, v, d));
            }
            assert forall|v: u64| #[trigger] found.contains(v) <==> may_end(h.members, v) && within(
                g,
                h,
                src,
                v,
                d + 1,
            ) by {
                assert(within(g, h, src, v, d) || !within(g, h, src, v, d));
            }
            assert(searched(g, h, src, d + 1, seen, found, frontier));
            lemma_searched(g, h, produced, src, seen, found, frontier, d + 1, max);
        } else {
            assert(tidy(s)) by {
                assert forall|v: u64| #[trigger] s.found.contains(v) implies s.seen.contains(v) by {
                    assert(found.contains(v));
                }
            }
            lemma_level(g, h, produced, s, frontier, more);
            let t = reach_level(g, h, produced, s, frontier, more)->0;
            assert forall|v: u64| #[trigger] t.seen.contains(v) <==> within(
                g,
                h,
                src,
                v,
                d + 1,
            ) by {
                assert(s.seen.contains(v) <==> within(g, h, src, v, d));
            }
            assert forall|v: u64| #[trigger] t.found.contains(v) <==> may_end(h.members, v)
                && within(g, h, src, v, d + 1) by {
                assert(s.seen.contains(v) <==> within(g, h, src, v, d));
                assert(s.found.contains(v) <==> may_end(h.members, v) && within(g, h, src, v, d));
            }
            if more {
                assert forall|v: u64| #[trigger] t.next.contains(v) <==> walk(g, h, src, v, d + 1)
                    && !within(g, h, src, v, d) by {
                    assert(s.seen.contains(v) <==> within(g, h, src, v, d));
                    if walk(g, h, src, v, d + 1) {
                        assert(within(g, h, src, v, d + 1));
                    }
                }
                assert(searched(g, h, src, d + 1, t.seen, t.found, t.next));
                lemma_searched(g, h, produced, src, t.seen, t.found, t.next, d + 1, max);
            } else {
                assert(d + 1 == max);
            }
        }
    }
}

/// What a node reaches: a node is found from it exactly when a walk of one up to so many
/// relationships leads there and it may be an end, whatever lies between, and it is
/// found once.
pub open spec fn reaches(g: Graph, h: HopV, src: u64, max: nat, found: Seq<u64>) -> bool {
    &&& forall|v: u64| #[trigger]
        found.contains(v) <==> may_end(h.members, v) && within(g, h, src, v, max)
    &&& found.no_duplicates()
}

proof fn lemma_reach(g: Graph, h: HopV, produced: nat, src: u64, max: nat)
    requires
        g.wf(),
        reach(g, h, produced, src, max) is Some,
    ensures
        reaches(g, h, src, max, reach(g, h, produced, src, max)->0),
{
    let frontier = seq![src];
    assert forall|v: u64| #[trigger] frontier.contains(v) <==> walk(g, h, src, v, 0) by {
        assert(frontier[0] == src);
    }
    assert forall|v: u64| !#[trigger] within(g, h, src, v, 0) by {}
    assert(searched(g, h, src, 0, Set::empty(), Seq::empty(), frontier)) by {
        let seen = Set::<u64>::empty();
        assert forall|v: u64| #[trigger] seen.contains(v) <==> within(g, h, src, v, 0) by {}
        let found = Seq::<u64>::empty();
        assert forall|v: u64| #[trigger] found.contains(v) <==> may_end(h.members, v) && within(
            g,
            h,
            src,
            v,
            0,
        ) by {}
    }
    lemma_searched(g, h, produced, src, Set::empty(), Seq::empty(), frontier, 0, max);
}

/// The rows of one row and what it reaches: a new column, and nothing else but the
/// relationships that were used, which are forgotten.
pub open spec fn reached_rows(row: RowV, found: Seq<u64>) -> Seq<RowV> {
    Seq::new(
        found.len(),
        |i: int|
            RowV {
                ids: row.ids.push(found[i]),
                used: Seq::empty(),
                prov: row.prov,
                weight: row.weight,
            },
    )
}

/// Rows, each with what it reaches, one after the other.
pub open spec fn rows_reached(rows: Seq<RowV>, finds: Seq<Seq<u64>>) -> Seq<RowV>
    decreases rows.len(),
{
    if rows.len() == 0 {
        Seq::empty()
    } else {
        rows_reached(rows.drop_last(), finds.drop_last()) + reached_rows(rows.last(), finds.last())
    }
}

/// A variable-length hop makes of each row one row for each node that its source
/// reaches.
pub proof fn law_hop_finds_what_is_reached(
    g: Graph,
    h: HopV,
    max: nat,
    rows: Seq<RowV>,
)
    requires
        g.wf(),
        reach_rows(g, h, max, rows) is Some,
    ensures
        exists|finds: Seq<Seq<u64>>|
            finds.len() == rows.len() && (forall|i: int|
                0 <= i < rows.len() ==> reaches(
                    g,
                    h,
                    rows[i].ids[h.src],
                    max,
                    #[trigger] finds[i],
                )) && reach_rows(g, h, max, rows) == Some(#[trigger] rows_reached(rows, finds)),
    decreases rows.len(),
{
    if rows.len() == 0 {
        let finds = Seq::<Seq<u64>>::empty();
        assert(reach_rows(g, h, max, rows) == Some(rows_reached(rows, finds)));
    } else {
        let p = rows.drop_last();
        let row = rows.last();
        law_hop_finds_what_is_reached(g, h, max, p);
        let fs = choose|fs: Seq<Seq<u64>>|
            fs.len() == p.len() && (forall|i: int|
                0 <= i < p.len() ==> reaches(g, h, p[i].ids[h.src], max, #[trigger] fs[i]))
                && reach_rows(g, h, max, p) == Some(#[trigger] rows_reached(p, fs));
        let made = reach_rows(g, h, max, p)->0;
        let src = row.ids[h.src];
        lemma_reach(g, h, made.len(), src, max);
        let found = reach(g, h, made.len(), src, max)->0;
        let finds = fs.push(found);
        assert(finds.drop_last() =~= fs);
        assert forall|i: int| 0 <= i < rows.len() implies reaches(
            g,
            h,
            rows[i].ids[h.src],
            max,
            #[trigger] finds[i],
        ) by {
            if i < p.len() {
                assert(p[i] == rows[i] && fs[i] == finds[i]);
            } else {
                assert(rows[i] == row);
            }
        }
        assert(reach_rows(g, h, max, rows)->0 =~= rows_reached(rows, finds));
    }
}

/// A variable-length hop is refused only by a budget.
pub proof fn law_no_budget_no_refusal(g: Graph, h: HopV, max: nat, rows: Seq<RowV>)
    requires
        g.row_budget is None,
    ensures
        reach_rows(g, h, max, rows) is Some,
    decreases rows.len(),
{
    if rows.len() > 0 {
        law_no_budget_no_refusal(g, h, max, rows.drop_last());
        lemma_unrefused(
            g,
            h,
            reach_rows(g, h, max, rows.drop_last())->0.len(),
            Set::empty(),
            Seq::empty(),
            seq![rows.last().ids[h.src]],
            0,
            max,
        );
    }
}

proof fn lemma_level_unrefused(
    g: Graph,
    h: HopV,
    produced: nat,
    s: ReachV,
    us: Seq<u64>,
    more: bool,
)
    requires
        g.row_budget is None,
    ensures
        reach_level(g, h, produced, s, us, more) is Some,
    decreases us.len(),
{
    if us.len() > 0 {
        lemma_level_unrefused(g, h, produced, s, us.drop_last(), more);
    }
}

proof fn lemma_unrefused(
    g: Graph,
    h: HopV,
    produced: nat,
    seen: Set<u64>,
    found: Seq<u64>,
    frontier: Seq<u64>,
    d: nat,
    max: nat,
)
    requires
        g.row_budget is None,
    ensures
        reach_from(g, h, produced, seen, found, frontier, d, max) is Some,
    decreases max - d,
{
    if d < max && frontier.len() > 0 {
        let s = ReachV { seen, next: Seq::empty(), found };
        lemma_level_unrefused(g, h, produced, s, frontier, d + 1 < max);
        let t = reach_level(g, h, produced, s, frontier, d + 1 < max)->0;
        lemma_unrefused(g, h, produced, t.seen, t.found, t.next, d + 1, max);
    }
}

} // verus!
