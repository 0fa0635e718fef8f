//! What hops make of rows: one row for each relationship that may be taken, as the lists
//! of the graph have it; and what a left join makes of rows that no hop can go on from.

use vstd::prelude::*;

use crate::chunk;
use crate::chunk::{HopV, RowV};
use crate::graph::{Adj, Dir, Graph, NULL_ID};
use crate::link_law;
use crate::link_law::listed_times;
use crate::optional;
use crate::optional::{left_join_rows, steps_rows, StepV};
use crate::seqs;
use crate::tally;
use crate::tally::occurs;

verus! {

/// How often a node's lists have an entry, in a direction and of the types that are
/// asked for. A relationship from a node to itself counts once.
pub open spec fn times(g: Graph, a: u64, dir: Dir, tokens: Option<Seq<u32>>, e: Adj) -> nat {
    (if dir is In {
        0
    } else {
        listed_times(g.out@[a as int]@, e, tokens)
    }) + (if dir is Out || (dir is Both && e.peer == a) {
        0
    } else {
        listed_times(g.into@[a as int]@, e, tokens)
    })
}

/// Whether a row may take a relationship: it is not one of those that its path took.
pub open spec fn may_take(h: HopV, row: RowV, e: Adj) -> bool {
    !(h.track && !h.reset && row.used.contains(e.rel))
}

/// The relationships that a row's path took, once it takes one more: a hop that starts a
/// path forgets the others, and one that does not look keeps none.
pub open spec fn taken(h: HopV, row: RowV, e: Adj) -> Seq<u64> {
    if !h.track {
        Seq::empty()
    } else if h.reset {
        seq![e.rel]
    } else {
        row.used.push(e.rel)
    }
}

proof fn lemma_reverse_times<A>(s: Seq<A>, x: A)
    ensures
        occurs(s.reverse(), x) == occurs(s, x),
    decreases s.len(),
{
    if s.len() == 0 {
        assert(s.reverse() =~= s);
    } else {
        let p = s.drop_last();
        lemma_reverse_times(p, x);
        assert(s.reverse() =~= seq![s.last()] + p.reverse());
        tally::lemma_occurs_concat(seq![s.last()], p.reverse(), x);
        assert(seq![s.last()].drop_last() =~= Seq::empty());
        reveal_with_fuel(occurs, 2);
    }
}

/// Whether an expand makes a row of each of some relationships: it binds the end, and the
/// relationship where that has a name, and keeps what the row had.
pub open spec fn expanded_from(h: HopV, row: RowV, es: Seq<Adj>, out: Seq<RowV>) -> bool {
    &&& out.len() == es.len()
    &&& forall|i: int|
        0 <= i < out.len() ==> (#[trigger] out[i]).ids == (if h.rel_col {
            row.ids.push(es[i].peer).push(es[i].rel)
        } else {
            row.ids.push(es[i].peer)
        }) && out[i].used == taken(h, row, es[i]) && out[i].prov == row.prov && out[i].weight
            == row.weight
}

/// Whether relationships are those of a node that something holds of, each as often as
/// it is listed.
pub open spec fn each_listed(
    g: Graph,
    a: u64,
    dir: Dir,
    tokens: Option<Seq<u32>>,
    es: Seq<Adj>,
    ok: spec_fn(Adj) -> bool,
) -> bool {
    forall|e: Adj| #[trigger]
        occurs(es, e) == if ok(e) {
            times(g, a, dir, tokens, e)
        } else {
            0
        }
}

proof fn lemma_each_listed(
    g: Graph,
    a: u64,
    dir: Dir,
    tokens: Option<Seq<u32>>,
    ok: spec_fn(Adj) -> bool,
)
    requires
        a < g.out@.len(),
        a < g.into@.len(),
    ensures
        each_listed(g, a, dir, tokens, g.adj(a, dir, tokens).reverse().filter(ok), ok),
{
    let s = g.adj(a, dir, tokens);
    assert forall|e: Adj| #[trigger] occurs(s.reverse().filter(ok), e) == if ok(e) {
        times(g, a, dir, tokens, e)
    } else {
        0
    } by {
        link_law::lemma_filter_times(s.reverse(), ok, e);
        lemma_reverse_times(s, e);
        link_law::law_visits_each_relationship(g, a, dir, tokens, e);
    }
}

/// Whether an expand may take a relationship of a row: its end is a member, and the path
/// did not take it.
pub open spec fn expands_to(h: HopV, row: RowV) -> spec_fn(Adj) -> bool {
    |e: Adj| (h.members matches Some(m) ==> m.contains(e.peer)) && may_take(h, row, e)
}

/// An expand makes of a row one row for each relationship of its source that goes the
/// way of the hop, has its types, leads to a member and was not taken.
pub proof fn law_expand_takes_each_relationship(g: Graph, h: HopV, row: RowV)
    requires
        row.ids[h.src] < g.out@.len(),
        row.ids[h.src] < g.into@.len(),
    ensures
        exists|es: Seq<Adj>| #[trigger]
            expanded_from(h, row, es, chunk::expand_row(g, h, row)) && each_listed(
                g,
                row.ids[h.src],
                h.dir,
                h.tokens,
                es,
                expands_to(h, row),
            ),
{
    let a = row.ids[h.src];
    let base = chunk::base_of(row, h.track, h.reset);
    let keep = |e: Adj| chunk::expand_keeps(h, base, e);
    let ok = expands_to(h, row);
    let all = g.adj(a, h.dir, h.tokens).reverse();
    assert forall|i: int| 0 <= i < all.len() implies #[trigger] keep(all[i]) == ok(all[i]) by {}
    seqs::lemma_filter_same(all, keep, ok);
    lemma_each_listed(g, a, h.dir, h.tokens, ok);
    let es = all.filter(ok);
    let out = chunk::expand_row(g, h, row);
    assert(out.len() == es.len());
    assert forall|i: int| 0 <= i < out.len() implies (#[trigger] out[i]).ids == (if h.rel_col {
        row.ids.push(es[i].peer).push(es[i].rel)
    } else {
        row.ids.push(es[i].peer)
    }) && out[i].used == taken(h, row, es[i]) && out[i].prov == row.prov && out[i].weight
        == row.weight by {
        assert(out[i] == chunk::expand_makes(h, row, base, es[i]));
        if h.track && h.reset {
            assert(base.push(es[i].rel) =~= seq![es[i].rel]);
        }
    }
    assert(expanded_from(h, row, es, out));
}

/// A hop makes rows of a batch row by row, in its order.
pub open spec fn row_by_row(rows: Seq<RowV>, blocks: Seq<Seq<RowV>>) -> Seq<RowV>
    decreases rows.len(),
{
    if rows.len() == 0 {
        Seq::empty()
    } else {
        row_by_row(rows.drop_last(), blocks.drop_last()) + blocks.last()
    }
}

/// An expand of a batch expands each row.
pub proof fn law_expand_goes_row_by_row(g: Graph, h: HopV, rows: Seq<RowV>)
    ensures
        chunk::expand_rows(g, h, rows) == row_by_row(
            rows,
            Seq::new(rows.len(), |k: int| chunk::expand_row(g, h, rows[k])),
        ),
    decreases rows.len(),
{
    if rows.len() > 0 {
        let p = rows.drop_last();
        law_expand_goes_row_by_row(g, h, p);
        let bs = Seq::new(rows.len(), |k: int| chunk::expand_row(g, h, rows[k]));
        assert(bs.drop_last() =~= Seq::new(p.len(), |k: int| chunk::expand_row(g, h, p[k])));
    }
}

/// Whether a close makes a row of each of some relationships: it binds the relationship
/// where that has a name, and keeps what the row had.
pub open spec fn closed_from(h: HopV, row: RowV, es: Seq<Adj>, out: Seq<RowV>) -> bool {
    &&& out.len() == es.len()
    &&& forall|i: int|
        0 <= i < out.len() ==> (#[trigger] out[i]).ids == (if h.rel_col {
            row.ids.push(es[i].rel)
        } else {
            row.ids
        }) && out[i].prov == row.prov && out[i].weight == row.weight
}

/// Whether a close may take a relationship of a row: it ends at what is bound, and the
/// path did not take it.
pub open spec fn closes_to(h: HopV, tgt: int, row: RowV) -> spec_fn(Adj) -> bool {
    |e: Adj| e.peer == row.ids[tgt] && may_take(h, row, e)
}

/// A close makes of a row one row for each relationship of its source that goes the way
/// of the hop, has its types, leads to what is bound and was not taken.
pub proof fn law_close_takes_each_relationship(g: Graph, h: HopV, tgt: int, row: RowV)
    requires
        row.ids[h.src] < g.out@.len(),
        row.ids[h.src] < g.into@.len(),
    ensures
        exists|es: Seq<Adj>| #[trigger]
            closed_from(h, row, es, chunk::close_row(g, h, tgt, row)) && each_listed(
                g,
                row.ids[h.src],
                h.dir,
                h.tokens,
                es,
                closes_to(h, tgt, row),
            ),
{
    let a = row.ids[h.src];
    let base = chunk::base_of(row, h.track, h.reset);
    let keep = |e: Adj| chunk::close_keeps(h, row.ids[tgt], base, e);
    let ok = closes_to(h, tgt, row);
    let all = g.adj(a, h.dir, h.tokens).reverse();
    assert forall|i: int| 0 <= i < all.len() implies #[trigger] keep(all[i]) == ok(all[i]) by {}
    seqs::lemma_filter_same(all, keep, ok);
    lemma_each_listed(g, a, h.dir, h.tokens, ok);
    let es = all.filter(ok);
    let out = chunk::close_row(g, h, tgt, row);
    assert forall|i: int| 0 <= i < out.len() implies (#[trigger] out[i]).ids == (if h.rel_col {
        row.ids.push(es[i].rel)
    } else {
        row.ids
    }) && out[i].prov == row.prov && out[i].weight == row.weight by {
        assert(out[i] == chunk::close_makes(h, row, base, es[i]));
    }
    assert(closed_from(h, row, es, out));
}

/// A close of a batch closes each row.
pub proof fn law_close_goes_row_by_row(g: Graph, h: HopV, tgt: int, rows: Seq<RowV>)
    ensures
        chunk::close_rows(g, h, tgt, rows) == row_by_row(
            rows,
            Seq::new(rows.len(), |k: int| chunk::close_row(g, h, tgt, rows[k])),
        ),
    decreases rows.len(),
{
    if rows.len() > 0 {
        let p = rows.drop_last();
        law_close_goes_row_by_row(g, h, tgt, p);
        let bs = Seq::new(rows.len(), |k: int| chunk::close_row(g, h, tgt, rows[k]));
        assert(bs.drop_last() =~= Seq::new(p.len(), |k: int| chunk::close_row(g, h, tgt, p[k])));
    }
}

/// What an optional match finds from a row: what its steps make that a condition passes.
pub open spec fn found_from(
    g: Graph,
    ss: Seq<StepV>,
    p: spec_fn(Seq<u64>) -> bool,
    row: RowV,
) -> Seq<RowV> {
    steps_rows(g, ss, ss.len(), seq![row]).filter(|r: RowV| p(r.ids))
}

/// Whether rows are what an optional match makes of a row: what it finds, or the row
/// with nothing in the new columns where it finds nothing.
pub open spec fn matches_or_nulls(
    width: nat,
    row: RowV,
    found: Seq<RowV>,
    out: Seq<RowV>,
) -> bool {
    if found.len() > 0 {
        &&& out.len() == found.len()
        &&& forall|i: int|
            0 <= i < out.len() ==> (#[trigger] out[i]).ids == found[i].ids && out[i].weight
                == found[i].weight
    } else {
        &&& out.len() == 1 && out[0].weight == row.weight
        &&& row.ids.len() <= width ==> out[0].ids.len() == width && forall|c: int|
            0 <= c < width ==> #[trigger] out[0].ids[c] == if c < row.ids.len() {
                row.ids[c]
            } else {
                NULL_ID
            }
    }
}

/// An optional match keeps every row: each goes on with what the match finds from it,
/// and one from which it finds nothing stays, once, with nothing in the new columns.
pub proof fn law_optional_match_finds_or_nulls(
    g: Graph,
    ss: Seq<StepV>,
    p: spec_fn(Seq<u64>) -> bool,
    width: nat,
    rows: Seq<RowV>,
)
    ensures
        exists|bs: Seq<Seq<RowV>>|
            bs.len() == rows.len() && left_join_rows(g, ss, p, width, rows) == #[trigger] row_by_row(
                rows,
                bs,
            ) && forall|k: int|
                0 <= k < rows.len() ==> matches_or_nulls(
                    width,
                    rows[k],
                    found_from(g, ss, p, rows[k]),
                    #[trigger] bs[k],
                ),
    decreases rows.len(),
{
    if rows.len() == 0 {
        let bs = Seq::<Seq<RowV>>::empty();
        assert(left_join_rows(g, ss, p, width, rows) == row_by_row(rows, bs));
    } else {
        let d = rows.drop_last();
        let row = rows.last();
        law_optional_match_finds_or_nulls(g, ss, p, width, d);
        let ds = choose|bs: Seq<Seq<RowV>>|
            bs.len() == d.len() && left_join_rows(g, ss, p, width, d) == #[trigger] row_by_row(
                d,
                bs,
            ) && forall|k: int|
                0 <= k < d.len() ==> matches_or_nulls(
                    width,
                    d[k],
                    found_from(g, ss, p, d[k]),
                    #[trigger] bs[k],
                );
        let own = optional::joined_row(g, ss, p, width, row);
        let bs = ds.push(own);
        assert(bs.drop_last() =~= ds);
        assert forall|k: int| 0 <= k < rows.len() implies matches_or_nulls(
            width,
            rows[k],
            found_from(g, ss, p, rows[k]),
            #[trigger] bs[k],
        ) by {
            if k < d.len() {
                assert(rows[k] == d[k] && bs[k] == ds[k]);
            } else {
                assert(rows[k] == row && bs[k] == own);
            }
        }
        assert(row_by_row(rows, bs) == row_by_row(d, ds) + own);
        assert(left_join_rows(g, ss, p, width, rows) == row_by_row(rows, bs));
    }
}

} // verus!
