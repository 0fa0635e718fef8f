//! What steps do to rows, whatever the graph: they nest, a path uses no
//! relationship twice, and steps that do not depend on each other commute.

use vstd::prelude::*;

use crate::chunk;
use crate::chunk::{base_of, close_rows, expand_row, expand_rows, HopV, RowV};
use crate::graph::{Adj, Graph};
use crate::seqs;

verus! {

/// The rows that each row becomes, one after the other.
pub open spec fn each(rows: Seq<RowV>, f: spec_fn(RowV) -> Seq<RowV>) -> Seq<RowV>
    decreases rows.len(),
{
    if rows.len() == 0 {
        Seq::empty()
    } else {
        each(rows.drop_last(), f) + f(rows.last())
    }
}

/// Chained steps nest: the rows of two steps are, row by row, what the second
/// step makes of what the first makes of that row. A row's edges are taken from
/// last to first at every step.
pub proof fn law_steps_nest(g: Graph, first: HopV, second: HopV, rows: Seq<RowV>)
    ensures
        expand_rows(g, second, expand_rows(g, first, rows)) == each(
            rows,
            |row: RowV| expand_rows(g, second, expand_row(g, first, row)),
        ),
    decreases rows.len(),
{
    let f = |row: RowV| expand_rows(g, second, expand_row(g, first, row));
    if rows.len() > 0 {
        law_steps_nest(g, first, second, rows.drop_last());
        chunk::law_expand_slices(
            g,
            second,
            expand_rows(g, first, rows.drop_last()),
            expand_row(g, first, rows.last()),
        );
        assert(f(rows.last()) == expand_rows(g, second, expand_row(g, first, rows.last())));
    }
}

/// No row has used a relationship twice.
pub open spec fn used_once(rows: Seq<RowV>) -> bool {
    forall|i: int| 0 <= i < rows.len() ==> (#[trigger] rows[i]).used.no_duplicates()
}

proof fn lemma_push_once(base: Seq<u64>, rel: u64)
    requires
        base.no_duplicates(),
        !base.contains(rel),
    ensures
        base.push(rel).no_duplicates(),
{
    let s = base.push(rel);
    assert forall|i: int, j: int| 0 <= i < s.len() && 0 <= j < s.len() && i != j implies s[i]
        != s[j] by {
        if i == base.len() {
            assert(base.contains(base[j]));
        } else if j == base.len() {
            assert(base.contains(base[i]));
        }
    }
}

/// A path that keeps its relationships apart uses none twice, whether a step
/// expands or closes.
pub proof fn law_path_uses_once(g: Graph, h: HopV, tgt: int, rows: Seq<RowV>)
    requires
        used_once(rows),
    ensures
        used_once(expand_rows(g, h, rows)),
        used_once(close_rows(g, h, tgt, rows)),
    decreases rows.len(),
{
    if rows.len() > 0 {
        let rest = rows.drop_last();
        let row = rows.last();
        assert forall|i: int| 0 <= i < rest.len() implies (#[trigger] rest[i]).used.no_duplicates() by {
            assert(rest[i] == rows[i]);
        }
        law_path_uses_once(g, h, tgt, rest);
        assert(rows[rows.len() - 1].used.no_duplicates());
        let base = base_of(row, h.track, h.reset);
        let es = g.adj(row.ids[h.src], h.dir, h.tokens).reverse();
        let a = expand_rows(g, h, rest);
        let out = expand_rows(g, h, rows);
        assert forall|i: int| 0 <= i < out.len() implies (#[trigger] out[i]).used.no_duplicates() by {
            if i < a.len() {
                assert(out[i] == a[i]);
            } else {
                let e = seqs::lemma_keep_map_at(
                    es,
                    |e: Adj| chunk::expand_keeps(h, base, e),
                    |e: Adj| chunk::expand_makes(h, row, base, e),
                    i - a.len(),
                );
                if h.track {
                    lemma_push_once(base, e.rel);
                }
            }
        }
        let b = close_rows(g, h, tgt, rest);
        let closed = close_rows(g, h, tgt, rows);
        assert forall|i: int| 0 <= i < closed.len() implies (
        #[trigger] closed[i]).used.no_duplicates() by {
            if i < b.len() {
                assert(closed[i] == b[i]);
            } else {
                let e = seqs::lemma_keep_map_at(
                    es,
                    |e: Adj| chunk::close_keeps(h, row.ids[tgt], base, e),
                    |e: Adj| chunk::close_makes(h, row, base, e),
                    i - b.len(),
                );
                if h.track {
                    lemma_push_once(base, e.rel);
                }
            }
        }
    }
}

/// A step that starts a path does not regard what an earlier path used.
pub proof fn law_reset_forgets(g: Graph, h: HopV, row: RowV, used: Seq<u64>)
    requires
        h.reset || !h.track,
    ensures
        expand_row(g, h, RowV { used, ..row }) == expand_row(g, h, row),
{
    let other = RowV { used, ..row };
    let base = base_of(row, h.track, h.reset);
    let es = g.adj(row.ids[h.src], h.dir, h.tokens).reverse();
    let keep = |e: Adj| chunk::expand_keeps(h, base, e);
    assert(expand_row(g, h, other) =~= expand_row(g, h, row)) by {
        assert forall|i: int| 0 <= i < es.filter(keep).len() implies chunk::expand_makes(
            h,
            other,
            base,
            es.filter(keep)[i],
        ) == chunk::expand_makes(h, row, base, es.filter(keep)[i]) by {}
    }
}

proof fn lemma_same_len(g: Graph, h: HopV, rows: Seq<RowV>, n: nat)
    requires
        forall|i: int| 0 <= i < rows.len() ==> expand_row(g, h, #[trigger] rows[i]).len() == n,
    ensures
        expand_rows(g, h, rows).len() == rows.len() * n,
    decreases rows.len(),
{
    if rows.len() > 0 {
        let rest = rows.drop_last();
        assert forall|i: int| 0 <= i < rest.len() implies expand_row(
            g,
            h,
            #[trigger] rest[i],
        ).len() == n by {
            assert(rest[i] == rows[i]);
        }
        lemma_same_len(g, h, rest, n);
        assert(expand_row(g, h, rows[rows.len() - 1]).len() == n);
        assert((rest.len() + 1) * n == rest.len() * n + n) by (nonlinear_arith);
    } else {
        assert(0 * n == 0) by (nonlinear_arith);
    }
}

proof fn lemma_len_kept(g: Graph, h: HopV, first: HopV, row: RowV, i: int)
    requires
        0 <= h.src < row.ids.len(),
        h.reset || !h.track,
        0 <= i < expand_row(g, first, row).len(),
    ensures
        expand_row(g, h, expand_row(g, first, row)[i]).len() == expand_row(g, h, row).len(),
{
    let base = base_of(row, first.track, first.reset);
    let e = seqs::lemma_keep_map_at(
        g.adj(row.ids[first.src], first.dir, first.tokens).reverse(),
        |e: Adj| chunk::expand_keeps(first, base, e),
        |e: Adj| chunk::expand_makes(first, row, base, e),
        i,
    );
    let made = expand_row(g, first, row)[i];
    assert(made.ids[h.src] == row.ids[h.src]);
    assert(base_of(made, h.track, h.reset) == base_of(row, h.track, h.reset));
}

/// Two steps that each start a path at a variable bound before both may be taken
/// in either order: both orders make as many rows of a row, one for each pair of
/// an edge of the one and an edge of the other.
pub proof fn law_independent_steps_commute(g: Graph, a: HopV, b: HopV, row: RowV)
    requires
        0 <= a.src < row.ids.len(),
        0 <= b.src < row.ids.len(),
        a.reset || !a.track,
        b.reset || !b.track,
    ensures
        expand_rows(g, b, expand_row(g, a, row)).len() == expand_row(g, a, row).len() * expand_row(
            g,
            b,
            row,
        ).len(),
        expand_rows(g, b, expand_row(g, a, row)).len() == expand_rows(
            g,
            a,
            expand_row(g, b, row),
        ).len(),
{
    let xa = expand_row(g, a, row);
    let xb = expand_row(g, b, row);
    assert forall|i: int| 0 <= i < xa.len() implies expand_row(g, b, #[trigger] xa[i]).len()
        == xb.len() by {
        lemma_len_kept(g, b, a, row, i);
    }
    assert forall|i: int| 0 <= i < xb.len() implies expand_row(g, a, #[trigger] xb[i]).len()
        == xa.len() by {
        lemma_len_kept(g, a, b, row, i);
    }
    lemma_same_len(g, b, xa, xb.len());
    lemma_same_len(g, a, xb, xa.len());
    assert(xa.len() * xb.len() == xb.len() * xa.len()) by (nonlinear_arith);
}

} // verus!
