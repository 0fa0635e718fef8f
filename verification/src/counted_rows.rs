//! The rows of a counted chain stand for the rows of the chain itself.

use vstd::prelude::*;

use crate::chain_rows;
use crate::chain_rows::{built, fold_of, seed_of, settle, step, BuildV, Built, StageV};
use crate::chunk;
use crate::chunk::{HopV, RowV};
use crate::fold_build;
use crate::fold_law;
use crate::fold_law::{edge_bound, edge_taken, edge_walks_kept, edge_weighted_kept, orderly, step_orderly, tells_uncounted, walks_kept, weighted_kept};
use crate::fold_model;
use crate::fold_model::{hop_base, hop_count, is_folded, used_below, FoldV};
use crate::fold_run;
use crate::fold_run::{row_bind, weight_sum};
use crate::graph::{Adj, Graph};
use crate::hop;
use crate::hop::Hop;
use crate::layout;
use crate::layout::{laid_out, runnable, width_at};
use crate::names;
use crate::ready;
use crate::seeds;
use crate::select;
use crate::select::Filter;
use crate::seqs;

verus! {

/// A chain whose steps have a fixed length, bind nodes only and test nothing
/// themselves.
pub open spec fn plain_chain(b: BuildV) -> bool {
    &&& b.cap is None
    &&& b.hops.len() < usize::MAX / 2
    &&& forall|k: int|
        0 <= k < b.hops.len() ==> (#[trigger] b.hops[k]).varlen is None && b.hops[k].rel_var is None
            && b.hops[k].inline@.len() == 0
}

/// A step that is taken row by row.
pub open spec fn uncounted_step(h: Hop) -> Hop {
    Hop { fold: false, ..h }
}

/// A chain whose every step is taken row by row.
pub open spec fn uncounted(b: BuildV) -> BuildV {
    BuildV { hops: b.hops.map_values(|h: Hop| uncounted_step(h)), ..b }
}

/// The sum of a measure over rows.
spec fn total(rows: Seq<RowV>, f: spec_fn(RowV) -> nat) -> nat
    decreases rows.len(),
{
    if rows.len() == 0 {
        0
    } else {
        total(rows.drop_last(), f) + f(rows.last())
    }
}

proof fn lemma_total_add(a: Seq<RowV>, b: Seq<RowV>, f: spec_fn(RowV) -> nat)
    ensures
        total(a + b, f) == total(a, f) + total(b, f),
    decreases b.len(),
{
    if b.len() == 0 {
        assert(a + b =~= a);
    } else {
        assert((a + b).drop_last() =~= a + b.drop_last());
        lemma_total_add(a, b.drop_last(), f);
    }
}

proof fn lemma_total_same(rows: Seq<RowV>, f: spec_fn(RowV) -> nat, g: spec_fn(RowV) -> nat)
    requires
        forall|i: int| 0 <= i < rows.len() ==> f(#[trigger] rows[i]) == g(rows[i]),
    ensures
        total(rows, f) == total(rows, g),
    decreases rows.len(),
{
    if rows.len() > 0 {
        assert forall|i: int| 0 <= i < rows.drop_last().len() implies f(
            #[trigger] rows.drop_last()[i],
        ) == g(rows.drop_last()[i]) by {
            assert(rows.drop_last()[i] == rows[i]);
        }
        lemma_total_same(rows.drop_last(), f, g);
        assert(f(rows[rows.len() - 1]) == g(rows[rows.len() - 1]));
    }
}

/// A measure of a step's rows, edge by edge from last to first.
spec fn edge_total(
    es: Seq<Adj>,
    keep: spec_fn(Adj) -> bool,
    make: spec_fn(Adj) -> RowV,
    f: spec_fn(RowV) -> nat,
) -> nat
    decreases es.len(),
{
    if es.len() == 0 {
        0
    } else {
        edge_total(es.drop_last(), keep, make, f) + if keep(es.last()) {
            f(make(es.last()))
        } else {
            0
        }
    }
}

proof fn lemma_edge_total(
    es: Seq<Adj>,
    keep: spec_fn(Adj) -> bool,
    make: spec_fn(Adj) -> RowV,
    f: spec_fn(RowV) -> nat,
)
    ensures
        total(seqs::keep_map(es.reverse(), keep, make), f) == edge_total(es, keep, make, f),
    decreases es.len(),
{
    let out = seqs::keep_map(es.reverse(), keep, make);
    if es.len() == 0 {
        assert(es.reverse() =~= Seq::empty());
        seqs::lemma_filter_empty(keep);
        assert(out =~= Seq::empty());
    } else {
        let e = es.last();
        let rest = es.drop_last();
        lemma_edge_total(rest, keep, make, f);
        assert(es.reverse() =~= seq![e] + rest.reverse());
        Seq::filter_distributes_over_add(seq![e], rest.reverse(), keep);
        let tail = seqs::keep_map(rest.reverse(), keep, make);
        assert(seq![e].filter(keep) =~= if keep(e) {
            seq![e]
        } else {
            Seq::empty()
        }) by {
            seqs::lemma_filter_last(seq![e], keep);
            assert(seq![e].drop_last() =~= Seq::empty());
            seqs::lemma_filter_empty(keep);
        }
        if keep(e) {
            assert(out =~= seq![make(e)] + tail);
            lemma_total_add(seq![make(e)], tail, f);
            assert(seq![make(e)].drop_last() =~= Seq::empty());
            assert(total(seq![make(e)], f) == f(make(e))) by {
                reveal_with_fuel(total, 2);
            }
        } else {
            assert(out =~= tail);
        }
    }
}

/// What a row holds, and what more is bound once a step has taken an edge.
proof fn lemma_bind(p: FoldV, k: int, row: RowV, peer: u64, ids: Seq<u64>, e: Adj)
    requires
        p.hops[k].tgt is None,
        p.hops[k].end == Some(row.ids.len() as int),
        row.ids.len() < p.width,
        ids == row.ids.push(peer),
        e.peer == peer,
    ensures
        row_bind(p, RowV { ids, ..row }) == edge_bound(p, k, row_bind(p, row), e),
{
    assert(row_bind(p, RowV { ids, ..row }) =~= edge_bound(p, k, row_bind(p, row), e));
}

/// The steps of a chain, as counting and as building read them.
spec fn same_chain(b: BuildV, p: FoldV) -> bool {
    &&& plain_chain(b)
    &&& p == chain_rows::count_view(b.g, b.hops, p.width)
    &&& orderly(p)
    &&& laid_out(hop::steps_v(b.hops), 1)
    &&& width_at(hop::steps_v(b.hops), 1, b.hops.len() as int) <= p.width
}

spec fn view_of(b: BuildV, k: int) -> HopV {
    hop::hop_view(
        b.hops[k],
        b.g.type_tokens(names::of(b.hops[k].types@)),
        seeds::end_members(b.g, names::of(b.hops[k].labels@)),
    )
}

/// The rows that a step makes of one row.
spec fn row_steps(b: BuildV, k: int, row: RowV) -> Seq<RowV> {
    match b.hops[k].tgt {
        None => chunk::expand_row(b.g, view_of(b, k), row),
        Some(t) => chunk::close_row(b.g, view_of(b, k), t as int, row),
    }
}

/// A measure of rows over the steps from `k` on.
spec fn from_step(p: FoldV, k: int, counted: bool, keep: spec_fn(Seq<u64>) -> bool) -> spec_fn(RowV) -> nat {
    |row: RowV|
        if counted {
            row.weight as nat * weighted_kept(p, k, row_bind(p, row), row.used, keep)
        } else {
            walks_kept(p, k, row_bind(p, row), row.used, keep)
        }
}

/// What comes after a step does not depend on what a step that closes records.
proof fn lemma_used_free(p: FoldV, k: int, bind: Seq<u64>, u: Seq<u64>, w: Seq<u64>, keep: spec_fn(Seq<u64>) -> bool)
    requires
        orderly(p),
        0 < k <= p.hops.len(),
        p.hops[k - 1].tgt is Some,
    ensures
        walks_kept(p, k, bind, u, keep) == walks_kept(p, k, bind, w, keep),
{
    if k < p.hops.len() {
        assert(step_orderly(p, k));
    }
}

proof fn lemma_used_free_weighted(p: FoldV, k: int, bind: Seq<u64>, u: Seq<u64>, w: Seq<u64>, keep: spec_fn(Seq<u64>) -> bool)
    requires
        orderly(p),
        0 < k <= p.hops.len(),
        p.hops[k - 1].tgt is Some,
        !p.hops[k - 1].fold,
    ensures
        weighted_kept(p, k, bind, u, keep) == weighted_kept(p, k, bind, w, keep),
    decreases p.hops.len() - k,
{
    if k < p.hops.len() {
        assert(step_orderly(p, k));
        lemma_weighted_used(p, k, bind, u, w, keep);
    }
}

/// What is recorded before a step that starts a path does not matter from there on.
proof fn lemma_weighted_used(p: FoldV, k: int, bind: Seq<u64>, u: Seq<u64>, w: Seq<u64>, keep: spec_fn(Seq<u64>) -> bool)
    requires
        orderly(p),
        0 <= k < p.hops.len(),
        !(p.hops[k].track && !p.hops[k].reset) || (p.hops[k].fold && is_folded(p, p.hops[k].src)),
    ensures
        weighted_kept(p, k, bind, u, keep) == weighted_kept(p, k, bind, w, keep),
    decreases p.hops.len() - k,
{
    let h = p.hops[k];
    assert(step_orderly(p, k));
    if h.fold {
        if !is_folded(p, h.src) {
            assert(hop_base(h, u) == hop_base(h, w));
            assert(hop_count(p, k, bind, u, bind[h.src]) == hop_count(p, k, bind, w, bind[h.src]));
        }
        if k + 1 < p.hops.len() {
            let n = p.hops[k + 1];
            assert(step_orderly(p, k + 1));
            if n.track && !n.reset {
                assert(h.tgt is None && h.end == Some(n.src));
                assert(is_folded(p, n.src));
                assert(n.fold);
            }
            lemma_weighted_used(p, k + 1, bind, u, w, keep);
        } else {
            assert(weighted_kept(p, k + 1, bind, u, keep) == weighted_kept(p, k + 1, bind, w, keep));
        }
    }
}

/// A step keeps the measure of a row.
proof fn lemma_row_step(b: BuildV, p: FoldV, k: int, row: RowV, counted: bool, keep: spec_fn(Seq<u64>) -> bool)
    requires
        same_chain(b, p),
        0 <= k < b.hops.len(),
        counted ==> !b.hops[k].fold,
        row.ids.len() == width_at(hop::steps_v(b.hops), 1, k),
    ensures
        from_step(p, k, counted, keep)(row) == total(row_steps(b, k, row), from_step(p, k + 1, counted, keep)),
{
    let h = p.hops[k];
    let v = view_of(b, k);
    let ss = hop::steps_v(b.hops);
    assert(ss[k] == b.hops[k].v());
    assert(layout::step_laid(ss, 1, k));
    assert(step_orderly(p, k));
    layout::lemma_width(ss, 1, k, b.hops.len() as int);
    layout::lemma_width(ss, 1, k + 1, b.hops.len() as int);
    let bind = row_bind(p, row);
    let base = chunk::base_of(row, v.track, v.reset);
    assert(base == hop_base(h, row.used));
    let node = row.ids[v.src];
    assert(bind[h.src] == node);
    let es = b.g.adj(node, v.dir, v.tokens);
    let f = from_step(p, k + 1, counted, keep);
    match b.hops[k].tgt {
        None => {
            let takes = |e: Adj| chunk::expand_keeps(v, base, e);
            let make = |e: Adj| chunk::expand_makes(v, row, base, e);
            lemma_edge_total(es, takes, make, f);
            lemma_edges_expand(b, p, k, row, counted, es, keep);
        },
        Some(t) => {
            let takes = |e: Adj| chunk::close_keeps(v, row.ids[t as int], base, e);
            let make = |e: Adj| chunk::close_makes(v, row, base, e);
            lemma_edge_total(es, takes, make, f);
            lemma_edges_close(b, p, k, row, counted, es, keep);
        },
    }
}

spec fn edge_measure(
    p: FoldV,
    k: int,
    counted: bool,
    row: RowV,
    base: Seq<u64>,
    es: Seq<Adj>, keep: spec_fn(Seq<u64>) -> bool) -> nat {
    if counted {
        row.weight as nat * edge_weighted_kept(p, k, row_bind(p, row), base, es, keep)
    } else {
        edge_walks_kept(p, k, row_bind(p, row), base, es, keep)
    }
}

proof fn lemma_edges_expand(
    b: BuildV,
    p: FoldV,
    k: int,
    row: RowV,
    counted: bool,
    es: Seq<Adj>, keep: spec_fn(Seq<u64>) -> bool)
    requires
        same_chain(b, p),
        0 <= k < b.hops.len(),
        b.hops[k].tgt is None,
        counted ==> !b.hops[k].fold,
        row.ids.len() == width_at(hop::steps_v(b.hops), 1, k),
    ensures
        ({
            let v = view_of(b, k);
            let base = chunk::base_of(row, v.track, v.reset);
            edge_measure(p, k, counted, row, base, es, keep) == edge_total(
                es,
                |e: Adj| chunk::expand_keeps(v, base, e),
                |e: Adj| chunk::expand_makes(v, row, base, e),
                from_step(p, k + 1, counted, keep),
            )
        }),
    decreases es.len(),
{
    let h = p.hops[k];
    let v = view_of(b, k);
    let ss = hop::steps_v(b.hops);
    let base = chunk::base_of(row, v.track, v.reset);
    let bind = row_bind(p, row);
    assert(ss[k] == b.hops[k].v());
    assert(layout::step_laid(ss, 1, k));
    assert(step_orderly(p, k));
    layout::lemma_width(ss, 1, k, b.hops.len() as int);
    assert(h.preds.len() == 0);
    if es.len() == 0 {
        assert(row.weight as nat * 0 == 0) by (nonlinear_arith);
    } else {
        lemma_edges_expand(b, p, k, row, counted, es.drop_last(), keep);
        let e = es.last();
        assert(edge_taken(p, k, bind, base, e) == chunk::expand_keeps(v, base, e));
        let x = edge_weighted_kept(p, k, bind, base, es.drop_last(), keep);
        let w = row.weight as nat;
        if edge_taken(p, k, bind, base, e) {
            let made = chunk::expand_makes(v, row, base, e);
            lemma_bind(p, k, row, e.peer, made.ids, e);
            assert(row_bind(p, made) =~= row_bind(p, RowV { ids: made.ids, ..row }));
            assert(made.used == used_below(h, base, e));
            let y = weighted_kept(p, k + 1, edge_bound(p, k, bind, e), used_below(h, base, e), keep);
            assert(w * (x + y) == w * x + w * y) by (nonlinear_arith);
        }
    }
}

proof fn lemma_edges_close(
    b: BuildV,
    p: FoldV,
    k: int,
    row: RowV,
    counted: bool,
    es: Seq<Adj>, keep: spec_fn(Seq<u64>) -> bool)
    requires
        same_chain(b, p),
        0 <= k < b.hops.len(),
        b.hops[k].tgt is Some,
        counted ==> !b.hops[k].fold,
        row.ids.len() == width_at(hop::steps_v(b.hops), 1, k),
    ensures
        ({
            let v = view_of(b, k);
            let base = chunk::base_of(row, v.track, v.reset);
            edge_measure(p, k, counted, row, base, es, keep) == edge_total(
                es,
                |e: Adj| chunk::close_keeps(v, row.ids[b.hops[k].tgt->0 as int], base, e),
                |e: Adj| chunk::close_makes(v, row, base, e),
                from_step(p, k + 1, counted, keep),
            )
        }),
    decreases es.len(),
{
    let h = p.hops[k];
    let v = view_of(b, k);
    let ss = hop::steps_v(b.hops);
    let base = chunk::base_of(row, v.track, v.reset);
    let bind = row_bind(p, row);
    assert(ss[k] == b.hops[k].v());
    assert(layout::step_laid(ss, 1, k));
    assert(step_orderly(p, k));
    layout::lemma_width(ss, 1, k, b.hops.len() as int);
    let t = b.hops[k].tgt->0 as int;
    assert(bind[t] == row.ids[t]);
    if es.len() == 0 {
        assert(row.weight as nat * 0 == 0) by (nonlinear_arith);
    } else {
        lemma_edges_close(b, p, k, row, counted, es.drop_last(), keep);
        let e = es.last();
        assert(edge_taken(p, k, bind, base, e) == chunk::close_keeps(v, row.ids[t], base, e));
        let x = edge_weighted_kept(p, k, bind, base, es.drop_last(), keep);
        let w = row.weight as nat;
        if edge_taken(p, k, bind, base, e) {
            let made = chunk::close_makes(v, row, base, e);
            assert(row_bind(p, made) =~= bind);
            lemma_used_free(p, k + 1, bind, made.used, used_below(h, base, e), keep);
            if counted {
                lemma_used_free_weighted(p, k + 1, bind, made.used, used_below(h, base, e), keep);
            }
            let y = weighted_kept(p, k + 1, bind, used_below(h, base, e), keep);
            assert(w * (x + y) == w * x + w * y) by (nonlinear_arith);
        }
    }
}

/// A step keeps the measure of rows.
proof fn lemma_rows_step(b: BuildV, p: FoldV, k: int, rows: Seq<RowV>, counted: bool, keep: spec_fn(Seq<u64>) -> bool)
    requires
        same_chain(b, p),
        0 <= k < b.hops.len(),
        counted ==> !b.hops[k].fold,
        forall|i: int|
            0 <= i < rows.len() ==> (#[trigger] rows[i]).ids.len() == width_at(
                hop::steps_v(b.hops),
                1,
                k,
            ),
    ensures
        hop::hop_rows(
            b.g,
            b.hops[k],
            b.g.type_tokens(names::of(b.hops[k].types@)),
            seeds::end_members(b.g, names::of(b.hops[k].labels@)),
            rows,
        ) matches Some(out) ==> total(out, from_step(p, k + 1, counted, keep)) == total(
            rows,
            from_step(p, k, counted, keep),
        ),
{
    match b.hops[k].tgt {
        None => {
            lemma_expand_total(b, p, k, rows, counted, keep);
        },
        Some(t) => {
            lemma_close_total(b, p, k, rows, counted, keep);
        },
    }
}

proof fn lemma_expand_total(b: BuildV, p: FoldV, k: int, rows: Seq<RowV>, counted: bool, keep: spec_fn(Seq<u64>) -> bool)
    requires
        same_chain(b, p),
        0 <= k < b.hops.len(),
        b.hops[k].tgt is None,
        counted ==> !b.hops[k].fold,
        forall|i: int|
            0 <= i < rows.len() ==> (#[trigger] rows[i]).ids.len() == width_at(
                hop::steps_v(b.hops),
                1,
                k,
            ),
    ensures
        total(chunk::expand_rows(b.g, view_of(b, k), rows), from_step(p, k + 1, counted, keep)) == total(
            rows,
            from_step(p, k, counted, keep),
        ),
    decreases rows.len(),
{
    if rows.len() > 0 {
        let rest = rows.drop_last();
        assert forall|i: int| 0 <= i < rest.len() implies (#[trigger] rest[i]).ids.len()
            == width_at(hop::steps_v(b.hops), 1, k) by {
            assert(rest[i] == rows[i]);
        }
        lemma_expand_total(b, p, k, rest, counted, keep);
        assert(rows[rows.len() - 1] == rows.last());
        lemma_row_step(b, p, k, rows.last(), counted, keep);
        lemma_total_add(
            chunk::expand_rows(b.g, view_of(b, k), rest),
            chunk::expand_row(b.g, view_of(b, k), rows.last()),
            from_step(p, k + 1, counted, keep),
        );
    }
}

proof fn lemma_close_total(b: BuildV, p: FoldV, k: int, rows: Seq<RowV>, counted: bool, keep: spec_fn(Seq<u64>) -> bool)
    requires
        same_chain(b, p),
        0 <= k < b.hops.len(),
        b.hops[k].tgt is Some,
        counted ==> !b.hops[k].fold,
        forall|i: int|
            0 <= i < rows.len() ==> (#[trigger] rows[i]).ids.len() == width_at(
                hop::steps_v(b.hops),
                1,
                k,
            ),
    ensures
        total(
            chunk::close_rows(b.g, view_of(b, k), b.hops[k].tgt->0 as int, rows),
            from_step(p, k + 1, counted, keep),
        ) == total(rows, from_step(p, k, counted, keep)),
    decreases rows.len(),
{
    let t = b.hops[k].tgt->0 as int;
    if rows.len() > 0 {
        let rest = rows.drop_last();
        assert forall|i: int| 0 <= i < rest.len() implies (#[trigger] rest[i]).ids.len()
            == width_at(hop::steps_v(b.hops), 1, k) by {
            assert(rest[i] == rows[i]);
        }
        lemma_close_total(b, p, k, rest, counted, keep);
        assert(rows[rows.len() - 1] == rows.last());
        lemma_row_step(b, p, k, rows.last(), counted, keep);
        lemma_total_add(
            chunk::close_rows(b.g, view_of(b, k), t, rest),
            chunk::close_row(b.g, view_of(b, k), t, rows.last()),
            from_step(p, k + 1, counted, keep),
        );
    }
}

/// A counted step that starts at a bound variable keeps the measure of rows.
proof fn lemma_live_total(p: FoldV, k: int, rows: Seq<RowV>, before: nat, keep: spec_fn(Seq<u64>) -> bool)
    requires
        orderly(p),
        0 <= k < p.hops.len(),
        p.hops[k].fold,
        !is_folded(p, p.hops[k].src),
        forall|i: int|
            0 <= i < rows.len() ==> p.hops[k].src < (#[trigger] rows[i]).ids.len() <= p.width,
    ensures
        fold_run::fold_live(p, k, None, before, rows) matches Some((out, _)) ==> total(
            out,
            from_step(p, k + 1, true, keep),
        ) == total(rows, from_step(p, k, true, keep)),
    decreases rows.len(),
{
    if rows.len() > 0 {
        let rest = rows.drop_last();
        assert forall|i: int| 0 <= i < rest.len() implies p.hops[k].src < (
        #[trigger] rest[i]).ids.len() <= p.width by {
            assert(rest[i] == rows[i]);
        }
        lemma_live_total(p, k, rest, before, keep);
        let row = rows.last();
        assert(rows[rows.len() - 1] == row);
        assert(step_orderly(p, k));
        let bind = row_bind(p, row);
        let node = row.ids[p.hops[k].src];
        assert(bind[p.hops[k].src] == node);
        fold_model::law_count_is_exact(p, k, bind, row.used, node);
        match fold_run::fold_live(p, k, None, before, rows) {
            Some((out, _)) => {
                let (kept, t) = fold_run::fold_live(p, k, None, before, rest)->0;
                let w = fold_run::row_count(p, k, row)->0;
                let y = weighted_kept(p, k + 1, bind, row.used, keep);
                let m = row.weight as nat;
                assert(w == hop_count(p, k, bind, row.used, node));
                assert(weighted_kept(p, k, bind, row.used, keep) == w * y);
                assert(m * (w * y) == (m * w) * y) by (nonlinear_arith);
                if w == 0 {
                    assert((m * 0) * y == 0) by (nonlinear_arith);
                } else {
                    let made = RowV { weight: (row.weight * w) as u64, ..row };
                    assert(out == kept.push(made));
                    assert(out.drop_last() =~= kept);
                    assert(row_bind(p, made) =~= bind);
                    assert(made.weight as nat == m * w);
                }
            },
            None => {},
        }
    }
}

/// What is left open for a counted variable changes no binding.
proof fn lemma_padded_total(b: BuildV, p: FoldV, k: int, rows: Seq<RowV>, keep: spec_fn(Seq<u64>) -> bool)
    requires
        same_chain(b, p),
        0 <= k < b.hops.len(),
        b.hops[k].fold,
        forall|i: int|
            0 <= i < rows.len() ==> (#[trigger] rows[i]).ids.len() == width_at(
                hop::steps_v(b.hops),
                1,
                k,
            ),
    ensures
        total(fold_run::folded_rows(b.hops[k], rows), from_step(p, k + 1, true, keep)) == total(
            rows,
            from_step(p, k + 1, true, keep),
        ),
    decreases rows.len(),
{
    let h = b.hops[k];
    let f = from_step(p, k + 1, true, keep);
    let out = fold_run::folded_rows(h, rows);
    assert(h.rel_var is None);
    if rows.len() > 0 {
        let rest = rows.drop_last();
        assert forall|i: int| 0 <= i < rest.len() implies (#[trigger] rest[i]).ids.len()
            == width_at(hop::steps_v(b.hops), 1, k) by {
            assert(rest[i] == rows[i]);
        }
        lemma_padded_total(b, p, k, rest, keep);
        assert(out.drop_last() =~= fold_run::folded_rows(h, rest));
        assert(rows[rows.len() - 1] == rows.last());
        assert(row_bind(p, out.last()) =~= row_bind(p, rows.last()));
    } else {
        assert(out =~= rows);
    }
}

/// A counted step below another keeps the measure of rows.
proof fn lemma_below_total(p: FoldV, k: int, rows: Seq<RowV>, keep: spec_fn(Seq<u64>) -> bool)
    requires
        0 <= k < p.hops.len(),
        p.hops[k].fold,
        is_folded(p, p.hops[k].src),
    ensures
        total(rows, from_step(p, k + 1, true, keep)) == total(rows, from_step(p, k, true, keep)),
{
    lemma_total_same(rows, from_step(p, k + 1, true, keep), from_step(p, k, true, keep));
}

/// The names that are bound after `k` steps.
pub open spec fn names_upto(b: BuildV, var: Seq<char>, k: int) -> Seq<Seq<char>>
    decreases k,
{
    if k <= 0 {
        seq![var]
    } else if b.hops[k - 1].tgt is None {
        names_upto(b, var, k - 1).push(b.hops[k - 1].var@)
    } else {
        names_upto(b, var, k - 1)
    }
}

/// Whether a binding passes every condition of a chain.
pub open spec fn passes(b: BuildV, var: Seq<char>) -> spec_fn(Seq<u64>) -> bool {
    |bind: Seq<u64>|
        forall|i: int|
            0 <= i < b.filters.len() ==> (#[trigger] b.filters[i]).holds(
                b.g,
                names_upto(b, var, b.hops.len() as int),
                bind,
            )
}

/// How many names are bound, and that later steps leave them.
pub proof fn lemma_names(b: BuildV, var: Seq<char>, k: int, n: int)
    requires
        plain_chain(b),
        0 <= k <= n <= b.hops.len(),
    ensures
        names_upto(b, var, k).len() == width_at(hop::steps_v(b.hops), 1, k),
        names_upto(b, var, k).len() <= names_upto(b, var, n).len(),
        names_upto(b, var, k) == names_upto(b, var, n).take(names_upto(b, var, k).len() as int),
    decreases n,
{
    let ss = hop::steps_v(b.hops);
    if n > k {
        lemma_names(b, var, k, n - 1);
        let w = names_upto(b, var, k).len() as int;
        assert(names_upto(b, var, n).take(w) =~= names_upto(b, var, n - 1).take(w));
    } else {
        assert(names_upto(b, var, k) =~= names_upto(b, var, n).take(
            names_upto(b, var, k).len() as int,
        ));
        if k > 0 {
            lemma_names(b, var, k - 1, k - 1);
            assert(ss[k - 1] == b.hops[k - 1].v());
        }
    }
}

/// A condition says the same of a binding as of the row that it goes on from.
proof fn lemma_holds_kept(g: Graph, f: Filter, less: Seq<Seq<char>>, more: Seq<Seq<char>>, a: Seq<u64>, z: Seq<u64>)
    requires
        f.bound(less),
        less.len() <= more.len(),
        less == more.take(less.len() as int),
        less.len() <= a.len(),
        less.len() <= z.len(),
        forall|c: int| 0 <= c < less.len() ==> a[c] == #[trigger] z[c],
    ensures
        f.holds(g, less, a) == f.holds(g, more, z),
{
    assert forall|x: Seq<char>| less.contains(x) implies #[trigger] select::column(less, x)
        == select::column(more, x) && 0 <= select::column(less, x) < less.len() by {
        names::lemma_position(less, x);
        let i = names::position(less, x)->0;
        assert forall|j: int| 0 <= j < i implies more[j] != x by {
            assert(less[j] == more[j]);
        }
        assert(more[i] == less[i]);
        names::lemma_first_is_position(more, x, i);
    }
    match f {
        Filter::Property { var, verdicts } => {
            let c = select::column(less, var@);
            assert(a[c] == z[c]);
        },
        Filter::Identity { var, other, ne } => {
            let c = select::column(less, var@);
            let d = select::column(less, other@);
            assert(a[c] == z[c] && a[d] == z[d]);
        },
        Filter::Edge { src, dst, .. } => {
            let c = select::column(less, src@);
            let d = select::column(less, dst@);
            assert(a[c] == z[c] && a[d] == z[d]);
        },
    }
}

/// Nothing that agrees with a binding on its first `w` variables is kept.
spec fn lost(p: FoldV, keep: spec_fn(Seq<u64>) -> bool, bind: Seq<u64>, w: nat) -> bool {
    forall|z: Seq<u64>|
        z.len() == p.width && (forall|c: int| 0 <= c < w ==> bind[c] == #[trigger] z[c])
            ==> !#[trigger] keep(z)
}

/// The steps from `k` on bind nothing before `w`.
spec fn binds_past(p: FoldV, k: int, w: nat) -> bool {
    forall|j: int|
        k <= j < p.hops.len() && (#[trigger] p.hops[j]).tgt is None ==> p.hops[j].end is Some
            && w <= p.hops[j].end->0 < p.width
}

proof fn lemma_lost(
    p: FoldV,
    k: int,
    bind: Seq<u64>,
    used: Seq<u64>,
    keep: spec_fn(Seq<u64>) -> bool,
    w: nat,
)
    requires
        0 <= k,
        bind.len() == p.width,
        binds_past(p, k, w),
        lost(p, keep, bind, w),
    ensures
        weighted_kept(p, k, bind, used, keep) == 0,
        walks_kept(p, k, bind, used, keep) == 0,
    decreases p.hops.len() - k, 1nat, 0nat,
{
    if k >= p.hops.len() {
        assert(!keep(bind));
    } else {
        let h = p.hops[k];
        assert(binds_past(p, k + 1, w)) by {
            assert forall|j: int|
                k + 1 <= j < p.hops.len() && (#[trigger] p.hops[j]).tgt is None implies p.hops[j].end is Some
                && w <= p.hops[j].end->0 < p.width by {
                assert(k <= j);
            }
        }
        lemma_lost_edges(
            p,
            k,
            bind,
            hop_base(h, used),
            p.g.adj(bind[h.src], h.dir, h.tokens),
            keep,
            w,
        );
        lemma_lost(p, k + 1, bind, used, keep, w);
        let c = hop_count(p, k, bind, used, bind[h.src]);
        assert(c * 0 == 0) by (nonlinear_arith);
    }
}

proof fn lemma_lost_edges(
    p: FoldV,
    k: int,
    bind: Seq<u64>,
    base: Seq<u64>,
    es: Seq<Adj>,
    keep: spec_fn(Seq<u64>) -> bool,
    w: nat,
)
    requires
        0 <= k < p.hops.len(),
        bind.len() == p.width,
        binds_past(p, k, w),
        binds_past(p, k + 1, w),
        lost(p, keep, bind, w),
    ensures
        edge_weighted_kept(p, k, bind, base, es, keep) == 0,
        edge_walks_kept(p, k, bind, base, es, keep) == 0,
    decreases p.hops.len() - k, 0nat, es.len(),
{
    if es.len() > 0 {
        lemma_lost_edges(p, k, bind, base, es.drop_last(), keep, w);
        let e = es.last();
        let to = edge_bound(p, k, bind, e);
        assert(p.hops[k].tgt is None ==> w <= p.hops[k].end->0 < p.width);
        assert(lost(p, keep, to, w)) by {
            assert forall|z: Seq<u64>|
                z.len() == p.width && (forall|c: int| 0 <= c < w ==> to[c] == #[trigger] z[c]) implies !#[trigger] keep(
                z,
            ) by {
                assert forall|c: int| 0 <= c < w implies bind[c] == #[trigger] z[c] by {
                    assert(to[c] == z[c]);
                }
            }
        }
        lemma_lost(p, k + 1, to, used_below(p.hops[k], base, e), keep, w);
    }
}

/// Rows without a measure may be dropped.
proof fn lemma_total_filter(rows: Seq<RowV>, pass: spec_fn(RowV) -> bool, f: spec_fn(RowV) -> nat)
    requires
        forall|i: int| 0 <= i < rows.len() && !pass(#[trigger] rows[i]) ==> f(rows[i]) == 0,
    ensures
        total(rows.filter(pass), f) == total(rows, f),
    decreases rows.len(),
{
    if rows.len() == 0 {
        assert(rows =~= Seq::empty());
        seqs::lemma_filter_empty(pass);
    } else {
        let rest = rows.drop_last();
        assert forall|i: int| 0 <= i < rest.len() && !pass(#[trigger] rest[i]) implies f(rest[i])
            == 0 by {
            assert(rows[i] == rest[i]);
        }
        lemma_total_filter(rest, pass, f);
        seqs::lemma_filter_last(rows, pass);
        assert(rows[rows.len() - 1] == rows.last());
        if pass(rows.last()) {
            assert(rest.filter(pass).push(rows.last()).drop_last() =~= rest.filter(pass));
        }
    }
}

/// Conditions that are applied keep the measure of rows.
proof fn lemma_applied_total(
    g: Graph,
    fs: Seq<Filter>,
    st: StageV,
    n: nat,
    w: nat,
    f: spec_fn(RowV) -> nat,
)
    requires
        n <= st.pending.len(),
        forall|j: int| 0 <= j < st.pending.len() ==> 0 <= #[trigger] st.pending[j] < fs.len(),
        forall|i: int| 0 <= i < st.rows.len() ==> (#[trigger] st.rows[i]).ids.len() == w,
        forall|row: RowV, j: int|
            #![trigger f(row), fs[j]]
            0 <= j < fs.len() && row.ids.len() == w && fs[j].bound(st.vars) && !fs[j].holds(
                g,
                st.vars,
                row.ids,
            ) ==> f(row) == 0,
    ensures
        chain_rows::apply_first(g, fs, st, n) matches Some(rows) ==> {
            &&& total(rows, f) == total(st.rows, f)
            &&& forall|i: int|
                0 <= i < rows.len() ==> (#[trigger] rows[i]).ids.len() == w && st.rows.contains(
                    rows[i],
                )
            &&& forall|i: int, m: int|
                #![trigger rows[i], st.pending[m]]
                0 <= i < rows.len() && 0 <= m < n && fs[st.pending[m]].bound(st.vars)
                    ==> fs[st.pending[m]].holds(g, st.vars, rows[i].ids)
        },
    decreases n,
{
    if n > 0 {
        lemma_applied_total(g, fs, st, (n - 1) as nat, w, f);
        match chain_rows::apply_first(g, fs, st, (n - 1) as nat) {
            Some(rows) => {
                let j = st.pending[n - 1];
                if fs[j].bound(st.vars) {
                    let pass = |row: RowV| fs[j].holds(g, st.vars, row.ids);
                    assert forall|i: int| 0 <= i < rows.len() && !pass(#[trigger] rows[i]) implies f(
                        rows[i],
                    ) == 0 by {
                        assert(rows[i].ids.len() == w);
                    }
                    lemma_total_filter(rows, pass, f);
                    let out = rows.filter(pass);
                    assert forall|i: int| 0 <= i < out.len() implies (#[trigger] out[i]).ids.len()
                        == w && st.rows.contains(out[i]) && pass(out[i]) && rows.contains(out[i]) by {
                        assert(out.contains(out[i]));
                        seqs::lemma_filter_contains(rows, pass, out[i]);
                        let q = choose|q: int| 0 <= q < rows.len() && rows[q] == out[i];
                        assert(rows[q].ids.len() == w);
                    }
                    assert forall|i: int, m: int|
                        #![trigger out[i], st.pending[m]]
                        0 <= i < out.len() && 0 <= m < n && fs[st.pending[m]].bound(
                            st.vars,
                        ) implies fs[st.pending[m]].holds(g, st.vars, out[i].ids) by {
                        assert(pass(out[i]));
                        let q = choose|q: int| 0 <= q < rows.len() && rows[q] == out[i];
                        if m < n - 1 {
                            assert(fs[st.pending[m]].holds(g, st.vars, rows[q].ids));
                        }
                    }
                }
            },
            None => {},
        }
    }
}

/// Every row passes the conditions that are no longer waiting.
spec fn all_passed(b: BuildV, var: Seq<char>, k: int, st: StageV) -> bool {
    forall|j: int, i: int|
        #![trigger b.filters[j], st.rows[i]]
        0 <= j < b.filters.len() && 0 <= i < st.rows.len() && !st.pending.contains(j)
            ==> b.filters[j].bound(names_upto(b, var, k)) && b.filters[j].holds(
            b.g,
            names_upto(b, var, k),
            st.rows[i].ids,
        )
}

/// Settling keeps the measure of rows.
proof fn lemma_settled_total(
    b: BuildV,
    p: FoldV,
    var: Seq<char>,
    k: int,
    st: StageV,
    counted: bool,
)
    requires
        same_chain(b, p),
        0 <= k <= b.hops.len(),
        stage_at(b, var, k, st),
    ensures
        settle(b.g, b.filters, st) matches Built::At(to) ==> {
            &&& stage_at(b, var, k, to)
            &&& unready_left(b, var, k, to)
            &&& total(to.rows, from_step(p, k, counted, passes(b, var))) == total(
                st.rows,
                from_step(p, k, counted, passes(b, var)),
            )
        },
{
    reveal(settle);
    let ss = hop::steps_v(b.hops);
    let n = b.hops.len() as int;
    let w = width_at(ss, 1, k);
    let keep = passes(b, var);
    let f = from_step(p, k, counted, keep);
    let all = names_upto(b, var, n);
    lemma_names(b, var, k, n);
    lemma_names(b, var, n, n);
    layout::lemma_width(ss, 1, k, n);
    assert(binds_past(p, k, w)) by {
        assert forall|j: int| k <= j < p.hops.len() && (#[trigger] p.hops[j]).tgt is None implies p.hops[j].end is Some
            && w <= p.hops[j].end->0 < p.width by {
            assert(ss[j] == b.hops[j].v());
            assert(layout::step_laid(ss, 1, j));
            layout::lemma_width(ss, 1, k, j);
            layout::lemma_width(ss, 1, j, n);
        }
    }
    assert forall|row: RowV, j: int|
        #![trigger f(row), b.filters[j]]
        0 <= j < b.filters.len() && row.ids.len() == w && b.filters[j].bound(st.vars)
            && !b.filters[j].holds(b.g, st.vars, row.ids) implies f(row) == 0 by {
        let bind = row_bind(p, row);
        assert(lost(p, keep, bind, w)) by {
            assert forall|z: Seq<u64>|
                z.len() == p.width && (forall|c: int| 0 <= c < w ==> bind[c] == #[trigger] z[c]) implies !#[trigger] keep(
                z,
            ) by {
                assert forall|c: int| 0 <= c < st.vars.len() implies row.ids[c] == #[trigger] z[c] by {
                    assert(bind[c] == z[c]);
                }
                lemma_holds_kept(b.g, b.filters[j], st.vars, all, row.ids, z);
            }
        }
        lemma_lost(p, k, bind, row.used, keep, w);
        let m = row.weight as nat;
        assert(m * 0 == 0) by (nonlinear_arith);
    }
    lemma_applied_total(b.g, b.filters, st, st.pending.len(), w, f);
    let un = chain_rows::unready(b.filters, st);
    assert forall|j: int| 0 <= j < un.len() implies 0 <= #[trigger] un[j] < b.filters.len() by {
        let g = |p: int| !b.filters[p].bound(st.vars);
        assert(un.contains(un[j]));
        seqs::lemma_filter_contains(st.pending, g, un[j]);
        let q = choose|q: int| 0 <= q < st.pending.len() && st.pending[q] == un[j];
        assert(0 <= st.pending[q] < b.filters.len());
    }
    if settle(b.g, b.filters, st) is At {
        let to = settle(b.g, b.filters, st)->At_0;
        let g = |p: int| !b.filters[p].bound(st.vars);
        assert forall|j: int| 0 <= j < to.pending.len() implies !b.filters[#[trigger] to.pending[j]].bound(
            names_upto(b, var, k),
        ) by {
            assert(un.contains(un[j]));
            seqs::lemma_filter_contains(st.pending, g, un[j]);
        }
        assert forall|j: int, i: int|
            #![trigger b.filters[j], to.rows[i]]
            0 <= j < b.filters.len() && 0 <= i < to.rows.len() && !to.pending.contains(
                j,
            ) implies b.filters[j].bound(names_upto(b, var, k)) && b.filters[j].holds(
            b.g,
            names_upto(b, var, k),
            to.rows[i].ids,
        ) by {
            seqs::lemma_filter_contains(st.pending, g, j);
            if st.pending.contains(j) {
                let m = choose|m: int| 0 <= m < st.pending.len() && st.pending[m] == j;
                assert(b.filters[st.pending[m]].holds(b.g, st.vars, to.rows[i].ids));
            } else {
                assert(st.rows.contains(to.rows[i]));
                let q = choose|q: int| 0 <= q < st.rows.len() && st.rows[q] == to.rows[i];
                assert(b.filters[j].holds(b.g, st.vars, st.rows[q].ids));
            }
        }
    }
}

/// A row goes on from one of some rows.
spec fn goes_on(rows: Seq<RowV>, row: RowV, n: nat) -> bool {
    exists|q: int| 0 <= q < rows.len() && (#[trigger] rows[q]).ids == row.ids.take(n as int)
}

proof fn lemma_goes_on(rows: Seq<RowV>, row: RowV, n: nat, q: int)
    requires
        0 <= q < rows.len(),
        rows[q].ids =~= row.ids.take(n as int),
    ensures
        goes_on(rows, row, n),
{
}

proof fn lemma_expand_width(g: Graph, h: HopV, rows: Seq<RowV>, n: nat)
    requires
        !h.rel_col,
        forall|i: int| 0 <= i < rows.len() ==> (#[trigger] rows[i]).ids.len() == n,
    ensures
        forall|i: int|
            0 <= i < chunk::expand_rows(g, h, rows).len() ==> (#[trigger] chunk::expand_rows(
                g,
                h,
                rows,
            )[i]).ids.len() == n + 1 && goes_on(rows, chunk::expand_rows(
                g,
                h,
                rows,
            )[i], n),
    decreases rows.len(),
{
    if rows.len() > 0 {
        let rest = rows.drop_last();
        assert forall|i: int| 0 <= i < rest.len() implies (#[trigger] rest[i]).ids.len() == n by {
            assert(rest[i] == rows[i]);
        }
        lemma_expand_width(g, h, rest, n);
        let row = rows.last();
        assert(rows[rows.len() - 1] == row);
        let before = chunk::expand_rows(g, h, rest);
        let out = chunk::expand_rows(g, h, rows);
        assert forall|i: int| 0 <= i < out.len() implies (#[trigger] out[i]).ids.len() == n + 1
            && goes_on(rows, out[i], n) by {
            if i < before.len() {
                assert(goes_on(rest, before[i], n));
                let q = choose|q: int|
                    0 <= q < rest.len() && (#[trigger] rest[q]).ids == before[i].ids.take(n as int);
                assert(rows[q] == rest[q]);
                lemma_goes_on(rows, out[i], n, q);
            } else {
                lemma_goes_on(rows, out[i], n, rows.len() - 1);
            }
        }
    }
}

proof fn lemma_close_width(g: Graph, h: HopV, t: int, rows: Seq<RowV>, n: nat)
    requires
        !h.rel_col,
        forall|i: int| 0 <= i < rows.len() ==> (#[trigger] rows[i]).ids.len() == n,
    ensures
        forall|i: int|
            0 <= i < chunk::close_rows(g, h, t, rows).len() ==> (#[trigger] chunk::close_rows(
                g,
                h,
                t,
                rows,
            )[i]).ids.len() == n && goes_on(rows, chunk::close_rows(
                g,
                h,
                t,
                rows,
            )[i], n),
    decreases rows.len(),
{
    if rows.len() > 0 {
        let rest = rows.drop_last();
        assert forall|i: int| 0 <= i < rest.len() implies (#[trigger] rest[i]).ids.len() == n by {
            assert(rest[i] == rows[i]);
        }
        lemma_close_width(g, h, t, rest, n);
        let row = rows.last();
        assert(rows[rows.len() - 1] == row);
        let before = chunk::close_rows(g, h, t, rest);
        let out = chunk::close_rows(g, h, t, rows);
        assert forall|i: int| 0 <= i < out.len() implies (#[trigger] out[i]).ids.len() == n
            && goes_on(rows, out[i], n) by {
            if i < before.len() {
                assert(goes_on(rest, before[i], n));
                let q = choose|q: int|
                    0 <= q < rest.len() && (#[trigger] rest[q]).ids == before[i].ids.take(n as int);
                assert(rows[q] == rest[q]);
                lemma_goes_on(rows, out[i], n, q);
            } else {
                lemma_goes_on(rows, out[i], n, rows.len() - 1);
            }
        }
    }
}

/// What the rows of a step hold, and which names it binds.
proof fn lemma_step_width(b: BuildV, var: Seq<char>, k: int, st: StageV)
    requires
        plain_chain(b),
        laid_out(hop::steps_v(b.hops), 1),
        0 <= k < b.hops.len(),
        stage_at(b, var, k, st),
    ensures
        step(b, k, st) matches Built::At(to) ==> stage_at(b, var, k + 1, to),
{
    reveal(step);
    let h = b.hops[k];
    let ss = hop::steps_v(b.hops);
    let w = width_at(ss, 1, k);
    assert(ss[k] == h.v());
    assert(h.varlen is None && h.rel_var is None);
    if step(b, k, st) is At {
        let to = step(b, k, st)->At_0;
        assert(to.vars =~= names_upto(b, var, k + 1));
        if h.fold {
            let live = if chain_rows::is_root(b, k) {
                assert(chain_rows::cap_at(b, k, st) is None);
                lemma_live_width(fold_of(b), k, st.rows, 0, w);
                (fold_run::fold_live(fold_of(b), k, None, 0, st.rows)->0).0
            } else {
                st.rows
            };
            assert(to.rows == fold_run::folded_rows(h, live));
            assert forall|i: int| 0 <= i < to.rows.len() implies goes_on(
                st.rows,
                #[trigger] to.rows[i],
                w,
            ) by {
                assert(live[i].ids.len() == w);
                if chain_rows::is_root(b, k) {
                    assert(goes_on(st.rows, live[i], w));
                    let q = choose|q: int|
                        0 <= q < st.rows.len() && (#[trigger] st.rows[q]).ids == live[i].ids.take(
                            w as int,
                        );
                    lemma_goes_on(st.rows, to.rows[i], w, q);
                } else {
                    lemma_goes_on(st.rows, to.rows[i], w, i);
                }
            }
        } else {
            match h.tgt {
                None => {
                    lemma_expand_width(b.g, view_of(b, k), st.rows, w);
                },
                Some(t) => {
                    lemma_close_width(b.g, view_of(b, k), t as int, st.rows, w);
                },
            }
        }
        lemma_names(b, var, k, k + 1);
        lemma_names(b, var, k + 1, k + 1);
        let less = names_upto(b, var, k);
        let more = names_upto(b, var, k + 1);
        assert forall|j: int, i: int|
            #![trigger b.filters[j], to.rows[i]]
            0 <= j < b.filters.len() && 0 <= i < to.rows.len() && !to.pending.contains(
                j,
            ) implies b.filters[j].bound(more) && b.filters[j].holds(b.g, more, to.rows[i].ids) by {
            assert(goes_on(st.rows, to.rows[i], w));
            let q = choose|q: int|
                0 <= q < st.rows.len() && (#[trigger] st.rows[q]).ids == to.rows[i].ids.take(
                    w as int,
                );
            assert(b.filters[j].holds(b.g, less, st.rows[q].ids));
            assert forall|c: int| 0 <= c < less.len() implies st.rows[q].ids[c]
                == #[trigger] to.rows[i].ids[c] by {}
            lemma_holds_kept(b.g, b.filters[j], less, more, st.rows[q].ids, to.rows[i].ids);
            assert forall|x: Seq<char>| less.contains(x) implies #[trigger] more.contains(x) by {
                let c = choose|c: int| 0 <= c < less.len() && less[c] == x;
                assert(more[c] == x);
            }
        }
    }
}

/// What waits is not bound.
spec fn unready_left(b: BuildV, var: Seq<char>, k: int, st: StageV) -> bool {
    forall|j: int|
        0 <= j < st.pending.len() ==> !b.filters[#[trigger] st.pending[j]].bound(
            names_upto(b, var, k),
        )
}

/// What is known of a chain after `k` steps.
spec fn stage_at(b: BuildV, var: Seq<char>, k: int, st: StageV) -> bool {
    &&& st.vars == names_upto(b, var, k)
    &&& forall|j: int| 0 <= j < st.pending.len() ==> 0 <= #[trigger] st.pending[j] < b.filters.len()
    &&& forall|i: int|
        0 <= i < st.rows.len() ==> (#[trigger] st.rows[i]).ids.len() == width_at(
            hop::steps_v(b.hops),
            1,
            k,
        )
    &&& all_passed(b, var, k, st)
}

/// Every condition waits for a seed.
proof fn lemma_seed_waits(b: BuildV, var: Seq<char>, st: StageV)
    requires
        st.pending == Seq::new(b.filters.len(), |i: int| i),
    ensures
        all_passed(b, var, 0, st),
{
    assert forall|j: int| 0 <= j < b.filters.len() implies #[trigger] st.pending.contains(j) by {
        assert(st.pending[j] == j);
    }
}

/// The measure of the rows after `k` steps is that of the seed.
proof fn lemma_built_total(b: BuildV, p: FoldV, var: Seq<char>, ids: Seq<u64>, k: int)
    requires
        same_chain(b, p),
        p == fold_of(b),
        0 <= k <= b.hops.len(),
    ensures
        built(b, var, ids, k) matches Built::At(st) ==> stage_at(b, var, k, st) && unready_left(
            b,
            var,
            k,
            st,
        ) && total(
            st.rows,
            from_step(p, k, true, passes(b, var)),
        ) == total(seed_of(b, var, ids).rows, from_step(p, 0, true, passes(b, var))),
    decreases k,
{
    let keep = passes(b, var);
    if k == 0 {
        lemma_seed_waits(b, var, seed_of(b, var, ids));
        lemma_settled_total(b, p, var, 0, seed_of(b, var, ids), true);
    } else {
        lemma_built_total(b, p, var, ids, k - 1);
        match built(b, var, ids, k - 1) {
            Built::At(st) => {
                let h = b.hops[k - 1];
                lemma_step_width(b, var, k - 1, st);
                reveal(step);
                assert(p.hops[k - 1].fold == h.fold);
                if h.fold {
                    let ss = hop::steps_v(b.hops);
                    assert(ss[k - 1] == h.v());
                    assert(layout::step_laid(ss, 1, k - 1));
                    layout::lemma_width(ss, 1, k - 1, b.hops.len() as int);
                    if chain_rows::is_root(b, k - 1) {
                        lemma_live_total(p, k - 1, st.rows, 0, keep);
                        match fold_run::fold_live(p, k - 1, None, 0, st.rows) {
                            Some((rows, _)) => {
                                lemma_live_width(p, k - 1, st.rows, 0, width_at(ss, 1, k - 1));
                                lemma_padded_total(b, p, k - 1, rows, keep);
                            },
                            None => {},
                        }
                    } else {
                        lemma_below_total(p, k - 1, st.rows, keep);
                        lemma_padded_total(b, p, k - 1, st.rows, keep);
                    }
                } else {
                    lemma_rows_step(b, p, k - 1, st.rows, true, keep);
                }
                match step(b, k - 1, st) {
                    Built::At(st1) => {
                        lemma_settled_total(b, p, var, k, st1, true);
                    },
                    _ => {},
                }
            },
            _ => {},
        }
    }
}

proof fn lemma_live_width(p: FoldV, k: int, rows: Seq<RowV>, before: nat, n: nat)
    requires
        forall|i: int| 0 <= i < rows.len() ==> (#[trigger] rows[i]).ids.len() == n,
    ensures
        fold_run::fold_live(p, k, None, before, rows) matches Some((out, _)) ==> forall|i: int|
            0 <= i < out.len() ==> (#[trigger] out[i]).ids.len() == n && goes_on(rows, out[i], n),
    decreases rows.len(),
{
    if rows.len() > 0 {
        let rest = rows.drop_last();
        assert forall|i: int| 0 <= i < rest.len() implies (#[trigger] rest[i]).ids.len() == n by {
            assert(rest[i] == rows[i]);
        }
        lemma_live_width(p, k, rest, before, n);
        assert(rows[rows.len() - 1].ids.len() == n);
        match fold_run::fold_live(p, k, None, before, rows) {
            Some((out, _)) => {
                let kept = (fold_run::fold_live(p, k, None, before, rest)->0).0;
                assert forall|i: int| 0 <= i < out.len() implies (#[trigger] out[i]).ids.len() == n
                    && goes_on(rows, out[i], n) by {
                    if i < kept.len() {
                        assert(out[i] == kept[i]);
                        assert(goes_on(rest, kept[i], n));
                        let q = choose|q: int|
                            0 <= q < rest.len() && (#[trigger] rest[q]).ids == kept[i].ids.take(
                                n as int,
                            );
                        assert(rows[q] == rest[q]);
                        lemma_goes_on(rows, out[i], n, q);
                    } else {
                        lemma_goes_on(rows, out[i], n, rows.len() - 1);
                    }
                }
            },
            None => {},
        }
    }
}

proof fn lemma_uncounted_layout(b: BuildV)
    requires
        laid_out(hop::steps_v(b.hops), 1),
    ensures
        laid_out(hop::steps_v(uncounted(b).hops), 1),
        forall|k: int|
            0 <= k <= b.hops.len() ==> #[trigger] width_at(hop::steps_v(uncounted(b).hops), 1, k)
                == width_at(hop::steps_v(b.hops), 1, k),
{
    let ss = hop::steps_v(b.hops);
    let us = hop::steps_v(uncounted(b).hops);
    assert forall|k: int| 0 <= k <= b.hops.len() implies #[trigger] width_at(us, 1, k) == width_at(
        ss,
        1,
        k,
    ) by {
        lemma_uncounted_width(b, k);
    }
    assert forall|k: int| 0 <= k < us.len() implies #[trigger] layout::step_laid(us, 1, k) by {
        assert(layout::step_laid(ss, 1, k));
        assert(us[k] == uncounted_step(b.hops[k]).v());
        assert(ss[k] == b.hops[k].v());
        assert(width_at(us, 1, k) == width_at(ss, 1, k));
        if k > 0 {
            assert(us[k - 1] == uncounted_step(b.hops[k - 1]).v());
            assert(ss[k - 1] == b.hops[k - 1].v());
        }
    }
}

proof fn lemma_uncounted_width(b: BuildV, k: int)
    requires
        0 <= k <= b.hops.len(),
    ensures
        width_at(hop::steps_v(uncounted(b).hops), 1, k) == width_at(hop::steps_v(b.hops), 1, k),
    decreases k,
{
    if k > 0 {
        lemma_uncounted_width(b, k - 1);
        assert(hop::steps_v(uncounted(b).hops)[k - 1] == uncounted_step(b.hops[k - 1]).v());
        assert(hop::steps_v(b.hops)[k - 1] == b.hops[k - 1].v());
    }
}

proof fn lemma_uncounted_names(b: BuildV, var: Seq<char>, k: int)
    requires
        0 <= k <= b.hops.len(),
    ensures
        names_upto(uncounted(b), var, k) == names_upto(b, var, k),
    decreases k,
{
    if k > 0 {
        lemma_uncounted_names(b, var, k - 1);
        assert(uncounted(b).hops[k - 1] == uncounted_step(b.hops[k - 1]));
    }
}

/// The measure of the rows after `k` steps, each taken row by row, is that of
/// the seed.
proof fn lemma_uncounted_total(b: BuildV, p: FoldV, var: Seq<char>, ids: Seq<u64>, k: int)
    requires
        same_chain(b, p),
        0 <= k <= b.hops.len(),
    ensures
        built(uncounted(b), var, ids, k) matches Built::At(st) ==> stage_at(b, var, k, st) && unready_left(
            b,
            var,
            k,
            st,
        ) && total(
            st.rows,
            from_step(p, k, false, passes(b, var)),
        ) == total(seed_of(b, var, ids).rows, from_step(p, 0, false, passes(b, var))),
    decreases k,
{
    let ub = uncounted(b);
    if k == 0 {
        lemma_edgeless(b);
        assert(seed_of(ub, var, ids).rows == seed_of(b, var, ids).rows);
        lemma_seed_waits(b, var, seed_of(ub, var, ids));
        lemma_settled_total(b, p, var, 0, seed_of(ub, var, ids), false);
    } else {
        lemma_uncounted_total(b, p, var, ids, k - 1);
        lemma_uncounted_layout(b);
        lemma_uncounted_names(b, var, k - 1);
        lemma_uncounted_names(b, var, k);
        match built(ub, var, ids, k - 1) {
            Built::At(st) => {
                let w = width_at(hop::steps_v(b.hops), 1, k - 1);
                assert(width_at(hop::steps_v(ub.hops), 1, k - 1) == w);
                assert(width_at(hop::steps_v(ub.hops), 1, k) == width_at(
                    hop::steps_v(b.hops),
                    1,
                    k,
                ));
                assert(plain_chain(ub)) by {
                    assert forall|i: int| 0 <= i < ub.hops.len() implies (
                    #[trigger] ub.hops[i]).varlen is None && ub.hops[i].rel_var is None
                        && ub.hops[i].inline@.len() == 0 by {
                        assert(ub.hops[i] == uncounted_step(b.hops[i]));
                    }
                }
                lemma_step_width(ub, var, k - 1, st);
                reveal(step);
                assert(ub.hops[k - 1] == uncounted_step(b.hops[k - 1]));
                lemma_rows_step(b, p, k - 1, st.rows, false, passes(b, var));
                match step(ub, k - 1, st) {
                    Built::At(st1) => {
                        lemma_settled_total(b, p, var, k, st1, false);
                    },
                    _ => {},
                }
            },
            _ => {},
        }
    }
}

/// Whether a step can be taken does not depend on whether it is counted.
proof fn lemma_edgeless(b: BuildV)
    ensures
        chain_rows::edgeless(b.g, uncounted(b).hops) == chain_rows::edgeless(b.g, b.hops),
{
    let us = uncounted(b).hops;
    if chain_rows::edgeless(b.g, us) {
        let i = choose|i: int|
            0 <= i < us.len() && (b.g.type_tokens(names::of((#[trigger] us[i]).types@)) matches Some(
                t,
            ) && t.len() == 0);
        assert(us[i].types == b.hops[i].types);
    }
    if chain_rows::edgeless(b.g, b.hops) {
        let i = choose|i: int|
            0 <= i < b.hops.len() && (b.g.type_tokens(
                names::of((#[trigger] b.hops[i]).types@),
            ) matches Some(t) && t.len() == 0);
        assert(us[i].types == b.hops[i].types);
    }
}

/// The weights of the rows that pass every condition of a chain, added up.
spec fn passing_weight(b: BuildV, var: Seq<char>, rows: Seq<RowV>) -> nat
    decreases rows.len(),
{
    if rows.len() == 0 {
        0
    } else {
        passing_weight(b, var, rows.drop_last()) + if passes(b, var)(rows.last().ids) {
            rows.last().weight as nat
        } else {
            0
        }
    }
}

/// How many rows pass every condition of a chain.
spec fn passing_rows(b: BuildV, var: Seq<char>, rows: Seq<RowV>) -> nat
    decreases rows.len(),
{
    if rows.len() == 0 {
        0
    } else {
        passing_rows(b, var, rows.drop_last()) + if passes(b, var)(rows.last().ids) {
            1nat
        } else {
            0
        }
    }
}

/// Whether every condition of a chain reads what the chain binds.
pub open spec fn conditions_bound(b: BuildV, var: Seq<char>) -> bool {
    forall|i: int|
        0 <= i < b.filters.len() ==> (#[trigger] b.filters[i]).bound(
            names_upto(b, var, b.hops.len() as int),
        )
}

proof fn lemma_weights(b: BuildV, p: FoldV, var: Seq<char>, rows: Seq<RowV>)
    requires
        same_chain(b, p),
        conditions_bound(b, var),
        forall|i: int|
            0 <= i < rows.len() ==> (#[trigger] rows[i]).ids.len() == width_at(
                hop::steps_v(b.hops),
                1,
                b.hops.len() as int,
            ),
    ensures
        total(rows, from_step(p, p.hops.len() as int, true, passes(b, var))) == passing_weight(
            b,
            var,
            rows,
        ),
        total(rows, from_step(p, p.hops.len() as int, false, passes(b, var))) == passing_rows(
            b,
            var,
            rows,
        ),
    decreases rows.len(),
{
    if rows.len() > 0 {
        let rest = rows.drop_last();
        let n = p.hops.len() as int;
        let all = names_upto(b, var, n);
        let keep = passes(b, var);
        assert forall|i: int| 0 <= i < rest.len() implies (#[trigger] rest[i]).ids.len()
            == width_at(hop::steps_v(b.hops), 1, b.hops.len() as int) by {
            assert(rest[i] == rows[i]);
        }
        lemma_weights(b, p, var, rest);
        let r = rows.last();
        assert(rows[rows.len() - 1] == r);
        let bind = row_bind(p, r);
        lemma_names(b, var, n, n);
        assert(all.take(all.len() as int) =~= all);
        assert forall|i: int| 0 <= i < b.filters.len() implies (#[trigger] b.filters[i]).holds(
            b.g,
            all,
            bind,
        ) == b.filters[i].holds(b.g, all, r.ids) by {
            assert forall|c: int| 0 <= c < all.len() implies r.ids[c] == #[trigger] bind[c] by {}
            lemma_holds_kept(b.g, b.filters[i], all, all, r.ids, bind);
        }
        assert(keep(bind) == keep(r.ids)) by {
            if keep(bind) {
                assert forall|i: int| 0 <= i < b.filters.len() implies (
                #[trigger] b.filters[i]).holds(b.g, all, r.ids) by {
                    assert(b.filters[i].holds(b.g, all, bind));
                }
            }
            if keep(r.ids) {
                assert forall|i: int| 0 <= i < b.filters.len() implies (
                #[trigger] b.filters[i]).holds(b.g, all, bind) by {
                    assert(b.filters[i].holds(b.g, all, r.ids));
                }
            }
        }
        let m = r.weight as nat;
        assert(m * 1 == m && m * 0 == 0) by (nonlinear_arith);
    }
}

/// Once every condition is bound, every row passes.
proof fn lemma_all_pass(b: BuildV, p: FoldV, var: Seq<char>, st: StageV, m: int)
    requires
        same_chain(b, p),
        conditions_bound(b, var),
        stage_at(b, var, b.hops.len() as int, st),
        unready_left(b, var, b.hops.len() as int, st),
        0 <= m <= st.rows.len(),
    ensures
        passing_weight(b, var, st.rows.take(m)) == weight_sum(st.rows.take(m)),
        passing_rows(b, var, st.rows.take(m)) == m,
    decreases m,
{
    if m > 0 {
        lemma_all_pass(b, p, var, st, m - 1);
        seqs::lemma_take_last(st.rows, m - 1);
        let r = st.rows[m - 1];
        assert(passes(b, var)(r.ids)) by {
            assert forall|j: int| 0 <= j < b.filters.len() implies (#[trigger] b.filters[j]).holds(
                b.g,
                names_upto(b, var, b.hops.len() as int),
                r.ids,
            ) by {
                if st.pending.contains(j) {
                    let q = choose|q: int| 0 <= q < st.pending.len() && st.pending[q] == j;
                    assert(!b.filters[st.pending[q]].bound(
                        names_upto(b, var, b.hops.len() as int),
                    ));
                }
                assert(st.rows[m - 1] == r);
            }
        }
    }
}

/// The rows of a counted chain stand for the rows of the chain itself: the weights
/// of the rows that are built when steps are counted add up to the number of rows
/// that are built when every step is taken row by row, under any conditions that
/// read what the chain binds and nothing that is counted.
pub proof fn law_counted_rows_stand_for_rows(
    b: BuildV,
    var: Seq<char>,
    ids: Seq<u64>,
    counted: StageV,
    plain: StageV,
)
    requires
        plain_chain(b),
        runnable(hop::steps_v(b.hops)),
        orderly(fold_of(b)),
        conditions_bound(b, var),
        tells_uncounted(fold_of(b), passes(b, var)),
        built(b, var, ids, b.hops.len() as int) == Built::At(counted),
        built(uncounted(b), var, ids, b.hops.len() as int) == Built::At(plain),
    ensures
        weight_sum(counted.rows) == plain.rows.len(),
{
    let p = fold_of(b);
    let n = b.hops.len() as int;
    let keep = passes(b, var);
    ready::lemma_same_width(b.hops, n);
    fold_build::lemma_width_min(b.hops, chain_rows::bound_after(b.hops, n) as int);
    assert(same_chain(b, p));
    lemma_built_total(b, p, var, ids, n);
    lemma_uncounted_total(b, p, var, ids, n);
    lemma_weights(b, p, var, counted.rows);
    lemma_weights(b, p, var, plain.rows);
    lemma_all_pass(b, p, var, counted, counted.rows.len() as int);
    lemma_all_pass(b, p, var, plain, plain.rows.len() as int);
    assert(counted.rows.take(counted.rows.len() as int) =~= counted.rows);
    assert(plain.rows.take(plain.rows.len() as int) =~= plain.rows);
    let seed = seed_of(b, var, ids).rows;
    let f = from_step(p, 0, true, keep);
    let g = from_step(p, 0, false, keep);
    assert forall|i: int| 0 <= i < seed.len() implies f(#[trigger] seed[i]) == g(seed[i]) by {
        let row = seed[i];
        assert(row.used =~= Seq::empty());
        fold_law::law_counting_keeps_what_expanding_keeps(p, row_bind(p, row), keep);
        let x = weighted_kept(p, 0, row_bind(p, row), row.used, keep);
        assert(1 * x == x) by (nonlinear_arith);
    }
    lemma_total_same(seed, f, g);
}

} // verus!
