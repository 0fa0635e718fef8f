//! Entries read off an index are what expanding and filtering finds.


use vstd::prelude::*;

use crate::chain_rows::seed_rows;
use crate::chunk;
use crate::chunk::{HopV, RowV};
use crate::degree_law;
use crate::graph;
use crate::graph::{Adj, Dir, Graph};
use crate::names;
use crate::names::position;
use crate::ordered;
use crate::ordered::{all_recent, entries_at, entries_of, indexed, list_of, owned, recent, sorted, Msg};
use crate::seqs;
use crate::tally;
use crate::tally::{lemma_occurs_concat, lemma_occurs_holds, occurs, unbarred};
use crate::window::{window_row, window_rows, within, Span};

verus! {

/// Nodes that make entries, with their dates and numbers.
pub struct MakersV {
    pub ns: Seq<u64>,
    pub dates: Seq<Option<i64>>,
    pub ids: Seq<Option<i64>>,
}

impl MakersV {
    /// Each node has a date and a number, or none, and comes once.
    pub open spec fn wf(self) -> bool {
        &&& self.ns.no_duplicates()
        &&& self.dates.len() == self.ns.len()
        &&& self.ids.len() == self.ns.len()
    }

    /// The date of a node.
    pub open spec fn date(self, n: u64) -> Option<i64> {
        match position(self.ns, n) {
            Some(i) => self.dates[i],
            None => None,
        }
    }

    /// The number of a node; one without a number of its own goes by its id.
    pub open spec fn number(self, n: u64) -> i64 {
        match self.ids[position(self.ns, n)->0] {
            Some(k) => k,
            None => n as i64,
        }
    }

    /// The entry that a node with a date makes in the list of an owner.
    pub open spec fn entry(self, owner: u64, n: u64) -> Msg {
        Msg { date: self.date(n)->0, id: self.number(n), owner, node: n }
    }

    /// All entries of the nodes.
    pub open spec fn entries(self, g: Graph, t: Option<Seq<u32>>) -> Seq<Msg> {
        entries_of(g, t, self.ns, self.dates, self.ids, self.ns.len())
    }
}

proof fn lemma_occurs_filter<A>(s: Seq<A>, p: spec_fn(A) -> bool, x: A)
    ensures
        occurs(s.filter(p), x) == if p(x) {
            occurs(s, x)
        } else {
            0
        },
    decreases s.len(),
{
    if s.len() == 0 {
        seqs::lemma_filter_empty(p);
        assert(s =~= Seq::empty());
    } else {
        lemma_occurs_filter(s.drop_last(), p, x);
        seqs::lemma_filter_last(s, p);
        if p(s.last()) {
            assert(s.drop_last().filter(p).push(s.last()).drop_last() =~= s.drop_last().filter(p));
        }
    }
}

/// How often a value is made: as often as the one element that makes it occurs.
proof fn lemma_occurs_map<A, B>(s: Seq<A>, f: spec_fn(A) -> B, y: B, a: A)
    requires
        f(a) == y,
        forall|i: int| 0 <= i < s.len() && f(#[trigger] s[i]) == y ==> s[i] == a,
    ensures
        occurs(s.map_values(f), y) == occurs(s, a),
    decreases s.len(),
{
    if s.len() > 0 {
        let p = s.drop_last();
        assert forall|i: int| 0 <= i < p.len() && f(#[trigger] p[i]) == y implies p[i] == a by {
            assert(s[i] == p[i]);
        }
        lemma_occurs_map(p, f, y, a);
        assert(s.map_values(f).drop_last() =~= p.map_values(f));
        assert(s[s.len() - 1] == s.last());
    }
}

pub proof fn lemma_occurs_unmade<A, B>(s: Seq<A>, f: spec_fn(A) -> B, y: B)
    requires
        forall|i: int| 0 <= i < s.len() ==> f(#[trigger] s[i]) != y,
    ensures
        occurs(s.map_values(f), y) == 0,
    decreases s.len(),
{
    if s.len() > 0 {
        let p = s.drop_last();
        assert forall|i: int| 0 <= i < p.len() implies f(#[trigger] p[i]) != y by {
            assert(s[i] == p[i]);
        }
        lemma_occurs_unmade(p, f, y);
        assert(s.map_values(f).drop_last() =~= p.map_values(f));
        assert(f(s[s.len() - 1]) != y);
    }
}

/// Sorting neither loses nor adds an entry.
pub proof fn law_sorted_occurs(s: Seq<Msg>, m: Msg)
    ensures
        occurs(sorted(s), m) == occurs(s, m),
    decreases s.len(),
{
    if s.len() > 0 {
        let p = s.drop_last();
        law_sorted_occurs(p, m);
        ordered::law_sorted(p);
        ordered::lemma_placed(sorted(p), s.last());
        let q = sorted(p);
        let k = ordered::slot(q, s.last());
        lemma_slot_in(q, s.last());
        assert(q.insert(k, s.last()) =~= q.take(k) + seq![s.last()] + q.skip(k));
        lemma_occurs_concat(q.take(k) + seq![s.last()], q.skip(k), m);
        lemma_occurs_concat(q.take(k), seq![s.last()], m);
        lemma_occurs_concat(q.take(k), q.skip(k), m);
        assert(q.take(k) + q.skip(k) =~= q);
        assert(seq![s.last()].drop_last() =~= Seq::empty());
        reveal_with_fuel(occurs, 2);
    }
}

proof fn lemma_slot_in(s: Seq<Msg>, m: Msg)
    ensures
        0 <= ordered::slot(s, m) <= s.len(),
    decreases s.len(),
{
    if s.len() > 0 {
        lemma_slot_in(s.drop_last(), m);
    }
}

/// How often a node makes an entry: once for each relationship to its owner.
proof fn lemma_entries_at(g: Graph, t: Option<Seq<u32>>, n: u64, date: Option<i64>, id: Option<i64>, es: Seq<Adj>, m: Msg)
    ensures
        occurs(
            es.map_values(
                |e: Adj|
                    Msg {
                        date: date->0,
                        id: match id {
                            Some(i) => i,
                            None => n as i64,
                        },
                        owner: e.peer,
                        node: n,
                    },
            ),
            m,
        ) == if m.node == n && m.date == date->0 && m.id == (match id {
            Some(i) => i,
            None => n as i64,
        }) {
            graph::closing(es, m.owner, Seq::empty())
        } else {
            0
        },
    decreases es.len(),
{
    let f = |e: Adj|
        Msg {
            date: date->0,
            id: match id {
                Some(i) => i,
                None => n as i64,
            },
            owner: e.peer,
            node: n,
        };
    if es.len() > 0 {
        lemma_entries_at(g, t, n, date, id, es.drop_last(), m);
        assert(es.map_values(f).drop_last() =~= es.drop_last().map_values(f));
        assert(es.map_values(f).last() == f(es.last()));
    }
}

/// How often an entry is among those of the first `k` nodes.
proof fn lemma_entries(g: Graph, t: Option<Seq<u32>>, v: MakersV, k: nat, m: Msg)
    requires
        v.wf(),
        k <= v.ns.len(),
    ensures
        occurs(entries_of(g, t, v.ns, v.dates, v.ids, k), m) == if v.ns.take(k as int).contains(
            m.node,
        ) && v.date(m.node) is Some && m == v.entry(m.owner, m.node) {
            graph::closing(g.adj(m.node, Dir::Out, t), m.owner, Seq::empty())
        } else {
            0
        },
    decreases k,
{
    if k > 0 {
        let p = (k - 1) as nat;
        let n = v.ns[k - 1];
        lemma_entries(g, t, v, p, m);
        lemma_occurs_concat(
            entries_of(g, t, v.ns, v.dates, v.ids, p),
            entries_at(g, t, n, v.dates[k - 1], v.ids[k - 1]),
            m,
        );
        seqs::lemma_take_last(v.ns, k - 1);
        seqs::lemma_push_contains(v.ns.take(k - 1), n, m.node);
        names::lemma_position(v.ns, n);
        assert(v.ns.contains(n));
        assert(position(v.ns, n) == Some(k - 1));
        assert(!v.ns.take(k - 1).contains(n)) by {
            if v.ns.take(k - 1).contains(n) {
                let less = v.ns.take(k - 1);
                let q = choose|q: int| 0 <= q < less.len() && less[q] == n;
                assert(v.ns[q] != v.ns[k - 1]);
            }
        }
        lemma_entries_at(
            g,
            t,
            n,
            v.dates[k - 1],
            v.ids[k - 1],
            g.adj(n, Dir::Out, t),
            m,
        );
    }
}

/// What a list holds: each entry of its owner as often as relationships lead there.
proof fn lemma_list(g: Graph, t: Option<Seq<u32>>, v: MakersV, index: Map<u64, Vec<Msg>>, x: u64, m: Msg)
    requires
        v.wf(),
        indexed(index, v.entries(g, t)),
    ensures
        occurs(list_of(index, x), m) == if m.owner == x && v.ns.contains(m.node) && v.date(m.node) is Some
            && m == v.entry(x, m.node) {
            graph::closing(g.adj(m.node, Dir::Out, t), x, Seq::empty())
        } else {
            0
        },
{
    let s = v.entries(g, t);
    assert(list_of(index, x) == sorted(owned(s, x)));
    law_sorted_occurs(owned(s, x), m);
    lemma_occurs_filter(s, |e: Msg| e.owner == x, m);
    lemma_entries(g, t, v, v.ns.len(), m);
    assert(v.ns.take(v.ns.len() as int) =~= v.ns);
}

/// Whether the nodes that make entries are those that a hop may end at.
pub open spec fn makes_for(g: Graph, v: MakersV, members: Option<Set<u64>>) -> bool {
    forall|n: u64|
        n < g.labels@.len() ==> (#[trigger] v.ns.contains(n) <==> graph::is_member(members, n))
}

/// How often a hop reaches a node from another.
proof fn lemma_reached(es: Seq<Adj>, members: Option<Set<u64>>, n: u64)
    ensures
        occurs(tally::peers(es, members), n) == if graph::is_member(members, n) {
            graph::closing(es, n, Seq::empty())
        } else {
            0
        },
    decreases es.len(),
{
    let keep = |e: Adj| graph::is_member(members, e.peer);
    let make = |e: Adj| e.peer;
    if es.len() == 0 {
        seqs::lemma_filter_empty(keep);
        assert(es =~= Seq::empty());
        assert(tally::peers(es, members) =~= Seq::empty());
    } else {
        let p = es.drop_last();
        lemma_reached(p, members, n);
        seqs::lemma_filter_last(es, keep);
        if keep(es.last()) {
            assert(tally::peers(es, members) =~= tally::peers(p, members).push(es.last().peer));
            assert(tally::peers(p, members).push(es.last().peer).drop_last() =~= tally::peers(
                p,
                members,
            ));
        } else {
            assert(tally::peers(es, members) =~= tally::peers(p, members));
        }
    }
}

/// The ends that an expand of one row binds.
pub open spec fn ends_in(rows: Seq<RowV>) -> Seq<u64> {
    rows.map_values(|r: RowV| r.ids.last())
}

/// How often an expand of a row binds an end, and what its rows hold.
pub proof fn lemma_expand_binds(g: Graph, h: HopV, row: RowV, n: u64)
    requires
        !h.rel_col,
        unbarred(g, h, row),
    ensures
        occurs(ends_in(chunk::expand_row(g, h, row)), n) == if graph::is_member(h.members, n) {
            graph::closing(g.adj(row.ids[h.src], h.dir, h.tokens), n, Seq::empty())
        } else {
            0
        },
        forall|i: int|
            0 <= i < chunk::expand_row(g, h, row).len() ==> (#[trigger] chunk::expand_row(
                g,
                h,
                row,
            )[i]).ids == row.ids.push(chunk::expand_row(g, h, row)[i].ids.last()),
{
    let w = tally::WalkV {
        dir: h.dir,
        tokens: h.tokens,
        members: h.members,
        backwards: true,
    };
    let x = row.ids[h.src];
    let rows = seq![row];
    assert(rows.drop_last() =~= Seq::empty());
    reveal_with_fuel(chunk::expand_rows, 2);
    reveal_with_fuel(tally::all_ends, 2);
    assert(chunk::expand_rows(g, h, rows) =~= chunk::expand_row(g, h, row));
    tally::law_ends_are_expanded(g, w, h, rows);
    let f = |r: RowV| r.ids[h.src];
    assert(rows.map_values(f) =~= seq![x]);
    assert(seq![x].drop_last() =~= Seq::empty());
    assert(tally::all_ends(g, w, seq![x]) =~= tally::ends(g, w, x));
    assert(ends_in(chunk::expand_row(g, h, row)) == tally::ends(g, w, x));
    let es = g.adj(x, h.dir, h.tokens);
    tally::lemma_peers_reversed(es, h.members, n);
    lemma_reached(es, h.members, n);
    let base = chunk::base_of(row, h.track, h.reset);
    let keep = |e: Adj| chunk::expand_keeps(h, base, e);
    let make = |e: Adj| chunk::expand_makes(h, row, base, e);
    assert forall|i: int| 0 <= i < chunk::expand_row(g, h, row).len() implies (
    #[trigger] chunk::expand_row(g, h, row)[i]).ids == row.ids.push(
        chunk::expand_row(g, h, row)[i].ids.last(),
    ) by {
        let e = seqs::lemma_keep_map_at(es.reverse(), keep, make, i);
        assert(row.ids.push(e.peer).last() == e.peer);
    }
}

/// How often an expand against the way of its relationships binds an end.
proof fn lemma_expand_reaches(g: Graph, h: HopV, row: RowV, n: u64)
    requires
        g.wf(),
        h.dir == Dir::In,
        !h.rel_col,
        unbarred(g, h, row),
    ensures
        occurs(ends_in(chunk::expand_row(g, h, row)), n) == if graph::is_member(h.members, n) {
            graph::closing(g.adj(n, Dir::Out, h.tokens), row.ids[h.src], Seq::empty())
        } else {
            0
        },
        forall|i: int|
            0 <= i < chunk::expand_row(g, h, row).len() ==> (#[trigger] chunk::expand_row(
                g,
                h,
                row,
            )[i]).ids == row.ids.push(chunk::expand_row(g, h, row)[i].ids.last()),
{
    lemma_expand_binds(g, h, row, n);
    graph::law_bound_probe(g, row.ids[h.src], n, h.dir, h.tokens, Seq::empty());
}

/// What an entry is found as often as: the relationships that a hop takes.
proof fn lemma_list_is_hop(g: Graph, h: HopV, v: MakersV, index: Map<u64, Vec<Msg>>, row: RowV, n: u64)
    requires
        g.wf(),
        g.labels@.len() <= u64::MAX,
        h.dir == Dir::In,
        !h.rel_col,
        unbarred(g, h, row),
        v.wf(),
        makes_for(g, v, h.members),
        indexed(index, v.entries(g, h.tokens)),
        v.date(n) is Some,
    ensures
        occurs(list_of(index, row.ids[h.src]), v.entry(row.ids[h.src], n)) == occurs(
            ends_in(chunk::expand_row(g, h, row)),
            n,
        ),
{
    let x = row.ids[h.src];
    lemma_list(g, h.tokens, v, index, x, v.entry(x, n));
    lemma_expand_reaches(g, h, row, n);
    names::lemma_position(v.ns, n);
    if n >= g.labels@.len() {
        lemma_no_node(g, n, h.tokens);
    } else {
        assert(v.ns.contains(n) <==> graph::is_member(h.members, n));
    }
}

/// What is no node has no relationships.
proof fn lemma_no_node(g: Graph, n: u64, t: Option<Seq<u32>>)
    requires
        g.wf(),
        n >= g.labels@.len(),
    ensures
        g.adj(n, Dir::Out, t).len() == 0,
{
    assert(graph::row_of(g.out@, n) =~= Seq::empty());
    seqs::lemma_filter_empty(|e: Adj| graph::admits(t, e.typ));
}

/// The rows that an expand makes of a row whose end has a date within a span.
pub open spec fn dated_row(g: Graph, h: HopV, v: MakersV, s: Span, row: RowV) -> Seq<Seq<u64>> {
    seqs::keep_map(
        chunk::expand_row(g, h, row),
        |r: RowV| v.date(r.ids.last()) matches Some(d) && within(s, d),
        |r: RowV| r.ids,
    )
}

/// The rows that an expand makes whose ends have a date within a span, row by row.
pub open spec fn dated_rows(g: Graph, h: HopV, v: MakersV, s: Span, rows: Seq<RowV>) -> Seq<Seq<u64>>
    decreases rows.len(),
{
    if rows.len() == 0 {
        Seq::empty()
    } else {
        dated_rows(g, h, v, s, rows.drop_last()) + dated_row(g, h, v, s, rows.last())
    }
}

proof fn lemma_push_differs(a: Seq<u64>, x: u64, y: u64)
    requires
        a.push(x) == a.push(y),
    ensures
        x == y,
{
    assert(a.push(x)[a.len() as int] == x);
    assert(a.push(y)[a.len() as int] == y);
}

/// The rows of one driving row within a window.
proof fn lemma_window_row(
    g: Graph,
    h: HopV,
    v: MakersV,
    index: Map<u64, Vec<Msg>>,
    s: Span,
    row: RowV,
    y: Seq<u64>,
)
    requires
        g.wf(),
        g.labels@.len() <= u64::MAX,
        h.dir == Dir::In,
        !h.rel_col,
        unbarred(g, h, row),
        v.wf(),
        makes_for(g, v, h.members),
        indexed(index, v.entries(g, h.tokens)),
    ensures
        occurs(window_row(index, h.src, s, row), y) == occurs(dated_row(g, h, v, s, row), y),
{
    let x = row.ids[h.src];
    let list = list_of(index, x);
    let out = chunk::expand_row(g, h, row);
    let lk = |m: Msg| within(s, m.date);
    let lf = |m: Msg| row.ids.push(m.node);
    let ok = |r: RowV| v.date(r.ids.last()) matches Some(d) && within(s, d);
    let of = |r: RowV| r.ids;
    let lists = list.filter(lk);
    let rows = out.filter(ok);
    lemma_expand_reaches(g, h, row, 0);
    assert forall|m: Msg| #[trigger] list.contains(m) implies v.date(m.node) is Some && m == v.entry(
        x,
        m.node,
    ) by {
        lemma_occurs_holds(list, m);
        lemma_list(g, h.tokens, v, index, x, m);
    }
    assert forall|i: int| 0 <= i < lists.len() implies list.contains(#[trigger] lists[i]) && lk(
        lists[i],
    ) by {
        assert(lists.contains(lists[i]));
        seqs::lemma_filter_contains(list, lk, lists[i]);
    }
    assert forall|i: int| 0 <= i < rows.len() implies out.contains(#[trigger] rows[i]) && ok(
        rows[i],
    ) by {
        assert(rows.contains(rows[i]));
        seqs::lemma_filter_contains(out, ok, rows[i]);
    }
    let made = y.len() > 0 && y == row.ids.push(y.last());
    let n = y.last();
    if made && (v.date(n) matches Some(d) && within(s, d)) {
        let m0 = v.entry(x, n);
        assert forall|i: int| 0 <= i < lists.len() && lf(#[trigger] lists[i]) == y implies lists[i]
            == m0 by {
            lemma_push_differs(row.ids, lists[i].node, n);
        }
        lemma_occurs_map(lists, lf, y, m0);
        lemma_occurs_filter(list, lk, m0);
        lemma_list_is_hop(g, h, v, index, row, n);
        lemma_rows_at(out, ok, row.ids, n);
    } else {
        assert forall|i: int| 0 <= i < lists.len() implies lf(#[trigger] lists[i]) != y by {
            if lf(lists[i]) == y {
                assert(y.last() == lists[i].node);
            }
        }
        lemma_occurs_unmade(lists, lf, y);
        assert forall|i: int| 0 <= i < rows.len() implies of(#[trigger] rows[i]) != y by {
            if of(rows[i]) == y {
                let k = choose|k: int| 0 <= k < out.len() && out[k] == rows[i];
                assert(out[k].ids == row.ids.push(out[k].ids.last()));
            }
        }
        lemma_occurs_unmade(rows, of, y);
    }
}

/// Rows that go on from one row: how often one is kept is how often its end is bound.
pub proof fn lemma_rows_at(out: Seq<RowV>, ok: spec_fn(RowV) -> bool, ids: Seq<u64>, n: u64)
    requires
        forall|i: int| 0 <= i < out.len() ==> (#[trigger] out[i]).ids == ids.push(out[i].ids.last()),
        forall|r: RowV| r.ids == ids.push(n) ==> #[trigger] ok(r),
    ensures
        occurs(out.filter(ok).map_values(|r: RowV| r.ids), ids.push(n)) == occurs(ends_in(out), n),
    decreases out.len(),
{
    let of = |r: RowV| r.ids;
    if out.len() == 0 {
        seqs::lemma_filter_empty(ok);
        assert(out =~= Seq::empty());
        assert(out.filter(ok).map_values(of) =~= Seq::empty());
    } else {
        let p = out.drop_last();
        let r = out.last();
        assert forall|i: int| 0 <= i < p.len() implies (#[trigger] p[i]).ids == ids.push(
            p[i].ids.last(),
        ) by {
            assert(out[i] == p[i]);
        }
        lemma_rows_at(p, ok, ids, n);
        seqs::lemma_filter_last(out, ok);
        assert(ends_in(out).drop_last() =~= ends_in(p));
        assert(out[out.len() - 1] == r);
        assert(ends_in(out).last() == r.ids.last());
        assert(r.ids == ids.push(r.ids.last()));
        if r.ids == ids.push(n) {
            lemma_push_differs(ids, r.ids.last(), n);
        }
        if ok(r) {
            assert(out.filter(ok).map_values(of) =~= p.filter(ok).map_values(of).push(r.ids));
            assert(p.filter(ok).map_values(of).push(r.ids).drop_last() =~= p.filter(ok).map_values(
                of,
            ));
        }
    }
}

/// A window read off an index is what expanding and filtering finds: each row as
/// often as the hop makes it, of those whose end has a date within the span.
pub proof fn law_window_is_filtered_expand(
    g: Graph,
    h: HopV,
    v: MakersV,
    index: Map<u64, Vec<Msg>>,
    s: Span,
    rows: Seq<RowV>,
    y: Seq<u64>,
)
    requires
        g.wf(),
        g.labels@.len() <= u64::MAX,
        h.dir == Dir::In,
        !h.rel_col,
        forall|i: int| 0 <= i < rows.len() ==> unbarred(g, h, #[trigger] rows[i]),
        v.wf(),
        makes_for(g, v, h.members),
        indexed(index, v.entries(g, h.tokens)),
    ensures
        occurs(window_rows(index, h.src, s, rows), y) == occurs(dated_rows(g, h, v, s, rows), y),
    decreases rows.len(),
{
    if rows.len() > 0 {
        let p = rows.drop_last();
        assert forall|i: int| 0 <= i < p.len() implies unbarred(g, h, #[trigger] p[i]) by {
            assert(rows[i] == p[i]);
        }
        law_window_is_filtered_expand(g, h, v, index, s, p, y);
        assert(unbarred(g, h, rows[rows.len() - 1]));
        lemma_window_row(g, h, v, index, s, rows.last(), y);
        lemma_occurs_concat(
            window_rows(index, h.src, s, p),
            window_row(index, h.src, s, rows.last()),
            y,
        );
        lemma_occurs_concat(dated_rows(g, h, v, s, p), dated_row(g, h, v, s, rows.last()), y);
    }
}

/// The entries of rows that bind an owner and then a node, as far as they are not
/// newer than a bound.
pub open spec fn row_entries(v: MakersV, at: int, bound: i64, rows: Seq<RowV>) -> Seq<Msg> {
    seqs::keep_map(
        rows,
        |r: RowV| v.date(r.ids.last()) matches Some(d) && d <= bound,
        |r: RowV| v.entry(r.ids[at], r.ids.last()),
    )
}

proof fn lemma_row_entries_add(v: MakersV, at: int, bound: i64, a: Seq<RowV>, b: Seq<RowV>)
    ensures
        row_entries(v, at, bound, a + b) == row_entries(v, at, bound, a) + row_entries(
            v,
            at,
            bound,
            b,
        ),
{
    let ok = |r: RowV| v.date(r.ids.last()) matches Some(d) && d <= bound;
    let f = |r: RowV| v.entry(r.ids[at], r.ids.last());
    Seq::filter_distributes_over_add(a, b, ok);
    assert(row_entries(v, at, bound, a + b) =~= row_entries(v, at, bound, a) + row_entries(
        v,
        at,
        bound,
        b,
    ));
}

/// The entries of one row's expand.
proof fn lemma_recent_row(
    g: Graph,
    h: HopV,
    v: MakersV,
    index: Map<u64, Vec<Msg>>,
    bound: i64,
    row: RowV,
    m: Msg,
)
    requires
        g.wf(),
        g.labels@.len() <= u64::MAX,
        h.dir == Dir::In,
        !h.rel_col,
        0 <= h.src < row.ids.len(),
        unbarred(g, h, row),
        v.wf(),
        makes_for(g, v, h.members),
        indexed(index, v.entries(g, h.tokens)),
    ensures
        occurs(row_entries(v, h.src, bound, chunk::expand_row(g, h, row)), m) == occurs(
            recent(list_of(index, row.ids[h.src]), bound),
            m,
        ),
{
    let x = row.ids[h.src];
    let out = chunk::expand_row(g, h, row);
    let ok = |r: RowV| v.date(r.ids.last()) matches Some(d) && d <= bound;
    let f = |r: RowV| v.entry(r.ids[h.src], r.ids.last());
    let rows = out.filter(ok);
    let n = m.node;
    lemma_expand_reaches(g, h, row, n);
    lemma_occurs_filter(list_of(index, x), |e: Msg| e.date <= bound, m);
    lemma_list(g, h.tokens, v, index, x, m);
    assert forall|i: int| 0 <= i < rows.len() implies out.contains(#[trigger] rows[i]) && ok(
        rows[i],
    ) && rows[i].ids[h.src] == x by {
        assert(rows.contains(rows[i]));
        seqs::lemma_filter_contains(out, ok, rows[i]);
        let k = choose|k: int| 0 <= k < out.len() && out[k] == rows[i];
        assert(out[k].ids == row.ids.push(out[k].ids.last()));
    }
    if v.date(n) is Some && m == v.entry(x, n) && m.date <= bound {
        lemma_list_is_hop(g, h, v, index, row, n);
        assert forall|r: RowV| r.ids == row.ids.push(n) implies #[trigger] ok(r) by {
            assert(r.ids.last() == n);
        }
        lemma_entries_at_rows(v, h.src, out, ok, row.ids, n, m);
    } else {
        assert forall|i: int| 0 <= i < rows.len() implies f(#[trigger] rows[i]) != m by {}
        lemma_occurs_unmade(rows, f, m);
    }
}

/// Rows that go on from one row: how often an entry is made is how often its node is
/// bound.
proof fn lemma_entries_at_rows(
    v: MakersV,
    at: int,
    out: Seq<RowV>,
    ok: spec_fn(RowV) -> bool,
    ids: Seq<u64>,
    n: u64,
    m: Msg,
)
    requires
        0 <= at < ids.len(),
        m == v.entry(ids[at], n),
        forall|i: int| 0 <= i < out.len() ==> (#[trigger] out[i]).ids == ids.push(out[i].ids.last()),
        forall|r: RowV| r.ids == ids.push(n) ==> #[trigger] ok(r),
    ensures
        occurs(
            out.filter(ok).map_values(|r: RowV| v.entry(r.ids[at], r.ids.last())),
            m,
        ) == occurs(ends_in(out), n),
    decreases out.len(),
{
    let f = |r: RowV| v.entry(r.ids[at], r.ids.last());
    if out.len() == 0 {
        seqs::lemma_filter_empty(ok);
        assert(out =~= Seq::empty());
        assert(out.filter(ok).map_values(f) =~= Seq::empty());
    } else {
        let p = out.drop_last();
        let r = out.last();
        assert forall|i: int| 0 <= i < p.len() implies (#[trigger] p[i]).ids == ids.push(
            p[i].ids.last(),
        ) by {
            assert(out[i] == p[i]);
        }
        lemma_entries_at_rows(v, at, p, ok, ids, n, m);
        seqs::lemma_filter_last(out, ok);
        assert(ends_in(out).drop_last() =~= ends_in(p));
        assert(out[out.len() - 1] == r);
        assert(r.ids == ids.push(r.ids.last()));
        assert(r.ids[at] == ids[at]);
        assert(ends_in(out).last() == r.ids.last());
        if r.ids.last() == n {
            assert(ok(r));
        }
        if ok(r) {
            assert(out.filter(ok).map_values(f) =~= p.filter(ok).map_values(f).push(f(r)));
            assert(p.filter(ok).map_values(f).push(f(r)).drop_last() =~= p.filter(ok).map_values(f));
        }
    }
}

/// The entries of lists, taken owner by owner: each as often as its owner is named.
proof fn lemma_all_recent(
    g: Graph,
    t: Option<Seq<u32>>,
    v: MakersV,
    index: Map<u64, Vec<Msg>>,
    owners: Seq<u64>,
    bound: i64,
    m: Msg,
)
    requires
        v.wf(),
        indexed(index, v.entries(g, t)),
    ensures
        occurs(all_recent(index, owners, bound), m) == occurs(owners, m.owner) * occurs(
            recent(list_of(index, m.owner), bound),
            m,
        ),
    decreases owners.len(),
{
    let c = occurs(recent(list_of(index, m.owner), bound), m);
    if owners.len() == 0 {
        assert(0nat * c == 0) by (nonlinear_arith);
    } else {
        let p = owners.drop_last();
        let x = owners.last();
        lemma_all_recent(g, t, v, index, p, bound, m);
        lemma_occurs_concat(
            all_recent(index, p, bound),
            recent(list_of(index, x), bound),
            m,
        );
        let k = occurs(p, m.owner);
        if x == m.owner {
            assert((k + 1) * c == k * c + c) by (nonlinear_arith);
        } else {
            lemma_occurs_filter(list_of(index, x), |e: Msg| e.date <= bound, m);
            lemma_list(g, t, v, index, x, m);
        }
    }
}

/// The entries of the rows that a hop makes of rows, row by row.
proof fn lemma_rows_recent(
    g: Graph,
    h: HopV,
    v: MakersV,
    index: Map<u64, Vec<Msg>>,
    bound: i64,
    rows: Seq<RowV>,
    m: Msg,
)
    requires
        g.wf(),
        g.labels@.len() <= u64::MAX,
        h.dir == Dir::In,
        !h.rel_col,
        0 <= h.src,
        forall|i: int|
            0 <= i < rows.len() ==> unbarred(g, h, #[trigger] rows[i]) && h.src < rows[i].ids.len(),
        v.wf(),
        makes_for(g, v, h.members),
        indexed(index, v.entries(g, h.tokens)),
    ensures
        occurs(row_entries(v, h.src, bound, chunk::expand_rows(g, h, rows)), m) == occurs(
            all_recent(index, rows.map_values(|r: RowV| r.ids[h.src]), bound),
            m,
        ),
    decreases rows.len(),
{
    let f = |r: RowV| r.ids[h.src];
    if rows.len() == 0 {
        assert(rows.map_values(f) =~= Seq::empty());
        seqs::lemma_filter_empty(
            |r: RowV| v.date(r.ids.last()) matches Some(d) && d <= bound,
        );
        assert(row_entries(v, h.src, bound, chunk::expand_rows(g, h, rows)) =~= Seq::empty());
    } else {
        let p = rows.drop_last();
        let r = rows.last();
        assert forall|i: int| 0 <= i < p.len() implies unbarred(g, h, #[trigger] p[i]) && h.src
            < p[i].ids.len() by {
            assert(rows[i] == p[i]);
        }
        lemma_rows_recent(g, h, v, index, bound, p, m);
        assert(rows[rows.len() - 1] == r);
        lemma_recent_row(g, h, v, index, bound, r, m);
        lemma_row_entries_add(
            v,
            h.src,
            bound,
            chunk::expand_rows(g, h, p),
            chunk::expand_row(g, h, r),
        );
        lemma_occurs_concat(
            row_entries(v, h.src, bound, chunk::expand_rows(g, h, p)),
            row_entries(v, h.src, bound, chunk::expand_row(g, h, r)),
            m,
        );
        assert(rows.map_values(f).drop_last() =~= p.map_values(f));
        assert(rows.map_values(f).last() == r.ids[h.src]);
        lemma_occurs_concat(
            all_recent(index, p.map_values(f), bound),
            recent(list_of(index, r.ids[h.src]), bound),
            m,
        );
    }
}

/// An ordered read is what expanding, filtering and ordering finds: the entries that
/// it takes the first of are in order, and each is among them as often as the two
/// hops make its row, of those that are not newer than the bound.
pub proof fn law_ordered_read_is_expand(
    g: Graph,
    one: HopV,
    two: HopV,
    types: (Seq<Seq<char>>, Seq<Seq<char>>),
    v: MakersV,
    index: Map<u64, Vec<Msg>>,
    start: u64,
    owners: Seq<u64>,
    bound: i64,
    m: Msg,
)
    requires
        g.wf(),
        g.labels@.len() <= u64::MAX,
        one.tokens == g.type_tokens(types.0),
        two.tokens == g.type_tokens(types.1),
        types.0.len() == 1,
        types.1.len() == 1,
        types.0 != types.1,
        one.src == 0,
        two.src == 1,
        two.dir == Dir::In,
        !one.rel_col,
        !two.rel_col,
        v.wf(),
        makes_for(g, v, two.members),
        indexed(index, v.entries(g, two.tokens)),
        forall|x: u64| #[trigger]
            occurs(owners, x) == occurs(
                ends_in(chunk::expand_rows(g, one, seed_rows(seq![start]))),
                x,
            ),
    ensures
        ordered::in_order(sorted(all_recent(index, owners, bound))),
        occurs(sorted(all_recent(index, owners, bound)), m) == occurs(
            row_entries(
                v,
                1,
                bound,
                chunk::expand_rows(
                    g,
                    two,
                    chunk::expand_rows(g, one, seed_rows(seq![start])),
                ),
            ),
            m,
        ),
{
    let from = seed_rows(seq![start]);
    let mid = chunk::expand_rows(g, one, from);
    let mine = mid.map_values(|r: RowV| r.ids[two.src]);
    ordered::law_sorted(all_recent(index, owners, bound));
    law_sorted_occurs(all_recent(index, owners, bound), m);
    assert forall|i: int| 0 <= i < mid.len() implies unbarred(g, two, #[trigger] mid[i])
        && mid[i].ids.len() == 2 by {
        let q = degree_law::lemma_expanded(g, one, from, i);
        assert(from[q].ids.len() == 1 && from[q].used.len() == 0);
        degree_law::lemma_second_hop(g, one, two, types.0, types.1, from, i);
    }
    assert(mine =~= ends_in(mid));
    lemma_rows_recent(g, two, v, index, bound, mid, m);
    lemma_all_recent(g, two.tokens, v, index, owners, bound, m);
    lemma_all_recent(g, two.tokens, v, index, mine, bound, m);
    assert(occurs(owners, m.owner) == occurs(ends_in(mid), m.owner));
}

} // verus!
