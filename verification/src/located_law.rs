//! A read that ends at a known place is what expanding and filtering finds.

use vstd::prelude::*;

use crate::chain_rows::seed_rows;
use crate::chunk;
use crate::chunk::{HopV, RowV};
use crate::degree_law;
use crate::entry_law;
use crate::entry_law::ends_in;
use crate::graph;
use crate::graph::{Adj, Dir, Graph};
use crate::located::{below_rows, copies, found, found_over, found_row, is_below, located_member, Columns, Found};
use crate::seqs;
use crate::tally::{lemma_occurs_concat, lemma_occurs_holds, occurs, unbarred};

verus! {

/// The columns of a start, of the node and the relationship that lead on from it,
/// and of the place.
pub open spec fn in_turn() -> Columns {
    Columns { start: 0, rel: 2, node: 1, place: 3 }
}

/// Whether a hop may end at one chosen place only.
pub open spec fn only_place(two: HopV, chosen: spec_fn(u64) -> bool, place: u64) -> bool {
    forall|p: u64| #![trigger chosen(p)] (graph::is_member(two.members, p) && chosen(p)) == (p == place)
}

/// The rows of two hops that end at a place and whose relationship has a value below
/// a bound.
pub open spec fn rows_below(
    g: Graph,
    two: HopV,
    chosen: spec_fn(u64) -> bool,
    val: spec_fn(u64) -> Option<i64>,
    bound: i64,
    mid: Seq<RowV>,
) -> Seq<Seq<u64>> {
    seqs::keep_map(
        chunk::expand_rows(g, two, mid),
        |r: RowV| chosen(r.ids[3]) && is_below(val(r.ids[2]), bound),
        |r: RowV| r.ids,
    )
}

proof fn lemma_rows_below_add(
    g: Graph,
    two: HopV,
    chosen: spec_fn(u64) -> bool,
    val: spec_fn(u64) -> Option<i64>,
    bound: i64,
    a: Seq<RowV>,
    b: Seq<RowV>,
    y: Seq<u64>,
)
    ensures
        occurs(rows_below(g, two, chosen, val, bound, a + b), y) == occurs(
            rows_below(g, two, chosen, val, bound, a),
            y,
        ) + occurs(rows_below(g, two, chosen, val, bound, b), y),
{
    let ok = |r: RowV| chosen(r.ids[3]) && is_below(val(r.ids[2]), bound);
    let x = chunk::expand_rows(g, two, a);
    let z = chunk::expand_rows(g, two, b);
    chunk::law_expand_slices(g, two, a, b);
    Seq::filter_distributes_over_add(x, z, ok);
    assert(rows_below(g, two, chosen, val, bound, a + b) =~= rows_below(
        g,
        two,
        chosen,
        val,
        bound,
        a,
    ) + rows_below(g, two, chosen, val, bound, b));
    lemma_occurs_concat(
        rows_below(g, two, chosen, val, bound, a),
        rows_below(g, two, chosen, val, bound, b),
        y,
    );
}

/// The rows of one row's second hop.
proof fn lemma_one_mid(
    g: Graph,
    two: HopV,
    chosen: spec_fn(u64) -> bool,
    val: spec_fn(u64) -> Option<i64>,
    bound: i64,
    place: u64,
    row: RowV,
    y: Seq<u64>,
)
    requires
        !two.rel_col,
        two.src == 1,
        row.ids.len() == 3,
        unbarred(g, two, row),
        only_place(two, chosen, place),
    ensures
        occurs(rows_below(g, two, chosen, val, bound, seq![row]), y) == if y == row.ids.push(place)
            && is_below(val(row.ids[2]), bound) {
            graph::closing(g.adj(row.ids[1], two.dir, two.tokens), place, Seq::empty())
        } else {
            0
        },
{
    let ok = |r: RowV| chosen(r.ids[3]) && is_below(val(r.ids[2]), bound);
    let of = |r: RowV| r.ids;
    let out = chunk::expand_row(g, two, row);
    reveal_with_fuel(chunk::expand_rows, 2);
    assert(seq![row].drop_last() =~= Seq::empty());
    assert(chunk::expand_rows(g, two, seq![row]) =~= out);
    entry_law::lemma_expand_binds(g, two, row, place);
    let rows = out.filter(ok);
    assert forall|i: int| 0 <= i < rows.len() implies out.contains(#[trigger] rows[i]) && ok(
        rows[i],
    ) && rows[i].ids == row.ids.push(rows[i].ids.last()) by {
        assert(rows.contains(rows[i]));
        seqs::lemma_filter_contains(out, ok, rows[i]);
        let k = choose|k: int| 0 <= k < out.len() && out[k] == rows[i];
        assert(out[k].ids == row.ids.push(out[k].ids.last()));
    }
    if y == row.ids.push(place) && is_below(val(row.ids[2]), bound) {
        assert(chosen(place));
        assert forall|r: RowV| r.ids == row.ids.push(place) implies #[trigger] ok(r) by {
            assert(r.ids[3] == place && r.ids[2] == row.ids[2]);
        }
        entry_law::lemma_rows_at(out, ok, row.ids, place);
    } else {
        assert forall|i: int| 0 <= i < rows.len() implies of(#[trigger] rows[i]) != y by {
            if of(rows[i]) == y {
                let n = rows[i].ids.last();
                assert(rows[i].ids[3] == n);
                assert(rows[i].ids[2] == row.ids[2]);
                entry_law::lemma_expand_binds(g, two, row, n);
                let k = choose|k: int| 0 <= k < out.len() && out[k] == rows[i];
                assert(ends_in(out)[k] == n);
                lemma_occurs_holds(ends_in(out), n);
                assert(graph::is_member(two.members, n) && chosen(n));
            }
        }
        entry_law::lemma_occurs_unmade(rows, of, y);
    }
}

proof fn lemma_occurs_copies(m: Found, k: nat, x: Found)
    ensures
        occurs(copies(m, k), x) == if x == m {
            k
        } else {
            0
        },
    decreases k,
{
    if k > 0 {
        lemma_occurs_copies(m, (k - 1) as nat, x);
        assert(copies(m, k).drop_last() =~= copies(m, (k - 1) as nat));
    }
}

/// What a hop makes of a start over edges.
spec fn mids(one: HopV, row: RowV, base: Seq<u64>, es: Seq<Adj>) -> Seq<RowV>
    decreases es.len(),
{
    if es.len() == 0 {
        Seq::empty()
    } else {
        mids(one, row, base, es.drop_last()) + if chunk::expand_keeps(one, base, es.last()) {
            seq![chunk::expand_makes(one, row, base, es.last())]
        } else {
            Seq::empty()
        }
    }
}

/// Where the rows come edge by edge, in either order, each second hop finds the same.
proof fn lemma_mids(
    g: Graph,
    one: HopV,
    two: HopV,
    chosen: spec_fn(u64) -> bool,
    val: spec_fn(u64) -> Option<i64>,
    bound: i64,
    row: RowV,
    base: Seq<u64>,
    es: Seq<Adj>,
    y: Seq<u64>,
)
    ensures
        occurs(
            rows_below(
                g,
                two,
                chosen,
                val,
                bound,
                seqs::keep_map(
                    es.reverse(),
                    |e: Adj| chunk::expand_keeps(one, base, e),
                    |e: Adj| chunk::expand_makes(one, row, base, e),
                ),
            ),
            y,
        ) == occurs(rows_below(g, two, chosen, val, bound, mids(one, row, base, es)), y),
    decreases es.len(),
{
    let keep = |e: Adj| chunk::expand_keeps(one, base, e);
    let make = |e: Adj| chunk::expand_makes(one, row, base, e);
    if es.len() == 0 {
        assert(es.reverse() =~= Seq::empty());
        seqs::lemma_filter_empty(keep);
        assert(seqs::keep_map(es.reverse(), keep, make) =~= Seq::empty());
    } else {
        let p = es.drop_last();
        let e = es.last();
        lemma_mids(g, one, two, chosen, val, bound, row, base, p, y);
        assert(es.reverse() =~= seq![e] + p.reverse());
        Seq::filter_distributes_over_add(seq![e], p.reverse(), keep);
        seqs::lemma_filter_last(seq![e], keep);
        assert(seq![e].drop_last() =~= Seq::empty());
        seqs::lemma_filter_empty(keep);
        let last = if keep(e) {
            seq![make(e)]
        } else {
            Seq::empty()
        };
        let rest = seqs::keep_map(p.reverse(), keep, make);
        assert(seq![e].filter(keep).map_values(make) =~= last);
        assert(seqs::keep_map(es.reverse(), keep, make) =~= last + rest);
        lemma_rows_below_add(g, two, chosen, val, bound, last, rest, y);
        lemma_rows_below_add(
            g,
            two,
            chosen,
            val,
            bound,
            mids(one, row, base, p),
            last,
            y,
        );
    }
}

/// What is found over edges of a start.
proof fn lemma_found_over(
    g: Graph,
    one: HopV,
    two: HopV,
    types: (Seq<Seq<char>>, Seq<Seq<char>>),
    chosen: spec_fn(u64) -> bool,
    val: spec_fn(u64) -> Option<i64>,
    bound: i64,
    place: u64,
    set: Set<u64>,
    row: RowV,
    es: Seq<Adj>,
    m: Found,
)
    requires
        plain_hops(g, one, two, types),
        row.ids.len() == 1,
        row.used.len() == 0,
        only_place(two, chosen, place),
        forall|n: u64| #[trigger]
            set.contains(n) <==> graph::is_member(one.members, n) && graph::closing(
                g.adj(n, Dir::Out, two.tokens),
                place,
                Seq::empty(),
            ) > 0,
        forall|i: int| 0 <= i < es.len() ==> g.rel_typed((#[trigger] es[i]).rel, one.tokens),
    ensures
        occurs(
            rows_below(
                g,
                two,
                chosen,
                val,
                bound,
                mids(one, row, chunk::base_of(row, one.track, one.reset), es),
            ),
            found_row(4, in_turn(), place, m),
        ) == if m.start == row.ids[0] && is_below(val(m.rel), bound) {
            occurs(found_over(g, two.tokens, set, place, row.ids[0], es), m)
        } else {
            0
        },
    decreases es.len(),
{
    let base = chunk::base_of(row, one.track, one.reset);
    let y = found_row(4, in_turn(), place, m);
    let start = row.ids[0];
    if es.len() == 0 {
        let none = Seq::<RowV>::empty();
        assert(chunk::expand_rows(g, two, none) =~= Seq::empty());
        seqs::lemma_filter_empty(|r: RowV| chosen(r.ids[3]) && is_below(val(r.ids[2]), bound));
        assert(rows_below(g, two, chosen, val, bound, none) =~= Seq::empty());
    } else {
        let p = es.drop_last();
        let e = es.last();
        assert forall|i: int| 0 <= i < p.len() implies g.rel_typed((#[trigger] p[i]).rel, one.tokens) by {
            assert(es[i] == p[i]);
        }
        lemma_found_over(g, one, two, types, chosen, val, bound, place, set, row, p, m);
        let made = chunk::expand_makes(one, row, base, e);
        let last = if chunk::expand_keeps(one, base, e) {
            seq![made]
        } else {
            Seq::empty()
        };
        lemma_rows_below_add(g, two, chosen, val, bound, mids(one, row, base, p), last, y);
        let k = graph::closing(g.adj(e.peer, Dir::Out, two.tokens), place, Seq::empty());
        let f = Found { start, rel: e.rel, node: e.peer };
        let more = if set.contains(e.peer) {
            copies(f, k)
        } else {
            Seq::empty()
        };
        lemma_occurs_concat(found_over(g, two.tokens, set, place, start, p), more, m);
        lemma_occurs_copies(f, k, m);
        assert(!base.contains(e.rel));
        if chunk::expand_keeps(one, base, e) {
            assert(made.ids =~= seq![start, e.peer, e.rel]);
            assert(es[es.len() - 1] == e);
            lemma_made_unbarred(g, one, two, types, row, e);
            lemma_one_mid(g, two, chosen, val, bound, place, made, y);
            assert(y =~= seq![m.start, m.node, m.rel, place]);
            if y == made.ids.push(place) {
                assert(y[0] == start && y[1] == e.peer && y[2] == e.rel);
                assert(m == f);
            }
            if m == f {
                assert(y =~= made.ids.push(place));
            }
        } else {
            let none = Seq::<RowV>::empty();
            assert(chunk::expand_rows(g, two, none) =~= Seq::empty());
            seqs::lemma_filter_empty(|r: RowV| chosen(r.ids[3]) && is_below(val(r.ids[2]), bound));
            assert(rows_below(g, two, chosen, val, bound, none) =~= Seq::empty());
        }
    }
}

/// Two hops of one path, from a start over a relationship to a node and from there to
/// a place, over different types.
pub open spec fn plain_hops(
    g: Graph,
    one: HopV,
    two: HopV,
    types: (Seq<Seq<char>>, Seq<Seq<char>>),
) -> bool {
    &&& g.wf()
    &&& one.tokens == g.type_tokens(types.0)
    &&& two.tokens == g.type_tokens(types.1)
    &&& types.0.len() == 1
    &&& types.1.len() == 1
    &&& types.0 != types.1
    &&& one.src == 0
    &&& one.rel_col
    &&& two.src == 1
    &&& two.dir == Dir::Out
    &&& !two.rel_col
}

proof fn lemma_made_unbarred(
    g: Graph,
    one: HopV,
    two: HopV,
    types: (Seq<Seq<char>>, Seq<Seq<char>>),
    row: RowV,
    e: Adj,
)
    requires
        plain_hops(g, one, two, types),
        row.used.len() == 0,
        g.rel_typed(e.rel, one.tokens),
    ensures
        unbarred(
            g,
            two,
            chunk::expand_makes(one, row, chunk::base_of(row, one.track, one.reset), e),
        ),
{
    let made = chunk::expand_makes(one, row, chunk::base_of(row, one.track, one.reset), e);
    let way = g.adj(made.ids[two.src], two.dir, two.tokens);
    let base = chunk::base_of(made, two.track, two.reset);
    assert forall|j: int| 0 <= j < way.len() implies !(two.track && base.contains(
        (#[trigger] way[j]).rel,
    )) by {
        if two.track && base.contains(way[j].rel) {
            let k = choose|k: int| 0 <= k < base.len() && base[k] == way[j].rel;
            assert(made.used[k] == e.rel);
            degree_law::lemma_types_apart(g, types.0, types.1, e.rel);
            assert(way.reverse()[way.len() - 1 - j] == way[j]);
            degree_law::lemma_adj_typed(g, made.ids[two.src], two, way[j]);
            assert(false);
        }
    }
}

/// Which of what was found has a value below a bound.
proof fn lemma_below(
    place: u64,
    ms: Seq<Found>,
    vals: Seq<Option<i64>>,
    val: spec_fn(u64) -> Option<i64>,
    bound: i64,
    n: nat,
    m: Found,
)
    requires
        n <= ms.len() == vals.len(),
        forall|i: int| 0 <= i < ms.len() ==> #[trigger] vals[i] == val(ms[i].rel),
    ensures
        occurs(
            below_rows(4, in_turn(), place, ms, vals, bound, n),
            found_row(4, in_turn(), place, m),
        ) == if is_below(val(m.rel), bound) {
            occurs(ms.take(n as int), m)
        } else {
            0
        },
    decreases n,
{
    if n == 0 {
        assert(ms.take(0) =~= Seq::empty());
    } else {
        lemma_below(place, ms, vals, val, bound, (n - 1) as nat, m);
        seqs::lemma_take_last(ms, n - 1);
        let f = ms[n - 1];
        let s = below_rows(4, in_turn(), place, ms, vals, bound, (n - 1) as nat);
        let y = found_row(4, in_turn(), place, m);
        let z = found_row(4, in_turn(), place, f);
        assert(vals[n - 1] == val(f.rel));
        assert(y[0] == m.start && y[1] == m.node && y[2] == m.rel);
        assert(z[0] == f.start && z[1] == f.node && z[2] == f.rel);
        assert(y == z <==> m == f);
        assert(s.push(z).drop_last() =~= s);
    }
}

/// A read that ends at a known place is what expanding and filtering finds: a row of
/// what was found comes as often as the two hops make it from the starts, of the rows
/// that end at a chosen place and whose relationship has a value below the bound,
/// where one place is chosen.
pub proof fn law_located_read_is_expand(
    g: Graph,
    one: HopV,
    two: HopV,
    types: (Seq<Seq<char>>, Seq<Seq<char>>),
    chosen: spec_fn(u64) -> bool,
    val: spec_fn(u64) -> Option<i64>,
    bound: i64,
    place: u64,
    set: Set<u64>,
    starts: Seq<u64>,
    vals: Seq<Option<i64>>,
    m: Found,
)
    requires
        plain_hops(g, one, two, types),
        only_place(two, chosen, place),
        forall|n: u64| #[trigger]
            set.contains(n) <==> graph::is_member(one.members, n) && graph::closing(
                g.adj(n, Dir::Out, two.tokens),
                place,
                Seq::empty(),
            ) > 0,
        ({
            let ms = found(g, one.dir, one.tokens, two.tokens, set, place, starts);
            vals.len() == ms.len() && forall|i: int|
                0 <= i < ms.len() ==> #[trigger] vals[i] == val(ms[i].rel)
        }),
    ensures
        ({
            let ms = found(g, one.dir, one.tokens, two.tokens, set, place, starts);
            occurs(
                below_rows(4, in_turn(), place, ms, vals, bound, ms.len()),
                found_row(4, in_turn(), place, m),
            ) == occurs(
                rows_below(
                    g,
                    two,
                    chosen,
                    val,
                    bound,
                    chunk::expand_rows(g, one, seed_rows(starts)),
                ),
                found_row(4, in_turn(), place, m),
            )
        }),
{
    let ms = found(g, one.dir, one.tokens, two.tokens, set, place, starts);
    lemma_below(place, ms, vals, val, bound, ms.len(), m);
    assert(ms.take(ms.len() as int) =~= ms);
    lemma_starts(g, one, two, types, chosen, val, bound, place, set, starts, m);
}

proof fn lemma_starts(
    g: Graph,
    one: HopV,
    two: HopV,
    types: (Seq<Seq<char>>, Seq<Seq<char>>),
    chosen: spec_fn(u64) -> bool,
    val: spec_fn(u64) -> Option<i64>,
    bound: i64,
    place: u64,
    set: Set<u64>,
    starts: Seq<u64>,
    m: Found,
)
    requires
        plain_hops(g, one, two, types),
        only_place(two, chosen, place),
        forall|n: u64| #[trigger]
            set.contains(n) <==> graph::is_member(one.members, n) && graph::closing(
                g.adj(n, Dir::Out, two.tokens),
                place,
                Seq::empty(),
            ) > 0,
    ensures
        occurs(
            rows_below(
                g,
                two,
                chosen,
                val,
                bound,
                chunk::expand_rows(g, one, seed_rows(starts)),
            ),
            found_row(4, in_turn(), place, m),
        ) == if is_below(val(m.rel), bound) {
            occurs(found(g, one.dir, one.tokens, two.tokens, set, place, starts), m)
        } else {
            0
        },
    decreases starts.len(),
{
    let y = found_row(4, in_turn(), place, m);
    let rows = seed_rows(starts);
    if starts.len() == 0 {
        assert(rows =~= Seq::empty());
        let none = Seq::<RowV>::empty();
        assert(chunk::expand_rows(g, one, none) =~= Seq::empty());
        assert(chunk::expand_rows(g, two, none) =~= Seq::empty());
        seqs::lemma_filter_empty(|r: RowV| chosen(r.ids[3]) && is_below(val(r.ids[2]), bound));
        assert(rows_below(g, two, chosen, val, bound, none) =~= Seq::empty());
    } else {
        let p = starts.drop_last();
        let x = starts.last();
        let row = rows.last();
        lemma_starts(g, one, two, types, chosen, val, bound, place, set, p, m);
        assert(rows.drop_last() =~= seed_rows(p));
        assert(row.ids =~= seq![x]);
        let es = g.adj(x, one.dir, one.tokens);
        let base = chunk::base_of(row, one.track, one.reset);
        lemma_rows_below_add(
            g,
            two,
            chosen,
            val,
            bound,
            chunk::expand_rows(g, one, seed_rows(p)),
            chunk::expand_row(g, one, row),
            y,
        );
        lemma_mids(g, one, two, chosen, val, bound, row, base, es, y);
        assert forall|i: int| 0 <= i < es.len() implies g.rel_typed(
            (#[trigger] es[i]).rel,
            one.tokens,
        ) by {
            assert(es.reverse()[es.len() - 1 - i] == es[i]);
            degree_law::lemma_adj_typed(g, x, one, es[i]);
        }
        lemma_found_over(g, one, two, types, chosen, val, bound, place, set, row, es, m);
        let mine = found_over(g, two.tokens, set, place, x, es);
        lemma_occurs_concat(
            found(g, one.dir, one.tokens, two.tokens, set, place, p),
            mine,
            m,
        );
        if m.start != x {
            lemma_found_start(g, two.tokens, set, place, x, es, m);
        }
    }
}

/// What is found over edges of a start has that start.
proof fn lemma_found_start(
    g: Graph,
    at: Option<Seq<u32>>,
    set: Set<u64>,
    place: u64,
    start: u64,
    es: Seq<Adj>,
    m: Found,
)
    requires
        m.start != start,
    ensures
        occurs(found_over(g, at, set, place, start, es), m) == 0,
    decreases es.len(),
{
    if es.len() > 0 {
        let e = es.last();
        lemma_found_start(g, at, set, place, start, es.drop_last(), m);
        let k = graph::closing(g.adj(e.peer, Dir::Out, at), place, Seq::empty());
        let f = Found { start, rel: e.rel, node: e.peer };
        lemma_occurs_copies(f, k, m);
        let more = if set.contains(e.peer) {
            copies(f, k)
        } else {
            Seq::empty()
        };
        lemma_occurs_concat(found_over(g, at, set, place, start, es.drop_last()), more, m);
    }
}

/// The nodes that are located at the one chosen place are those that a relationship
/// leads from to it.
pub proof fn law_nodes_at_place(
    g: Graph,
    t: Option<Seq<u32>>,
    places: Seq<u64>,
    chosen: Seq<bool>,
    members: Option<Set<u64>>,
    k: int,
    n: u64,
)
    requires
        g.wf(),
        chosen.len() == places.len(),
        0 <= k < places.len(),
        forall|i: int| 0 <= i < chosen.len() ==> (#[trigger] chosen[i] <==> i == k),
    ensures
        located_member(g, t, places, chosen, members, n) <==> graph::is_member(members, n)
            && graph::closing(g.adj(n, Dir::Out, t), places[k], Seq::empty()) > 0,
{
    let es = g.adj(places[k], Dir::In, t);
    graph::law_bound_probe(g, places[k], n, Dir::In, t, Seq::empty());
    lemma_closing_holds(es, n);
    if graph::closing(es, n, Seq::empty()) > 0 {
        let j = choose|j: int| 0 <= j < es.len() && (#[trigger] es[j]).peer == n;
        assert(chosen[k]);
        assert(g.adj(places[k], Dir::In, t)[j].peer == n);
    }
}

proof fn lemma_closing_holds(es: Seq<Adj>, n: u64)
    ensures
        graph::closing(es, n, Seq::empty()) > 0 <==> exists|j: int|
            0 <= j < es.len() && (#[trigger] es[j]).peer == n,
    decreases es.len(),
{
    if es.len() > 0 {
        let p = es.drop_last();
        lemma_closing_holds(p, n);
        if exists|j: int| 0 <= j < p.len() && (#[trigger] p[j]).peer == n {
            let j = choose|j: int| 0 <= j < p.len() && (#[trigger] p[j]).peer == n;
            assert(es[j].peer == n);
        }
        if exists|j: int| 0 <= j < es.len() && (#[trigger] es[j]).peer == n {
            let j = choose|j: int| 0 <= j < es.len() && (#[trigger] es[j]).peer == n;
            if j < p.len() {
                assert(p[j].peer == n);
            }
        }
        assert(es[es.len() - 1] == es.last());
    }
}

} // verus!
