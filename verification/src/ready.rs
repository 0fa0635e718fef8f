//! What a counted step finds when it runs: rows that hold nothing for the
//! variables that are counted, and relationships of the step's own path.

use std::collections::BTreeSet;

use vstd::prelude::*;

use crate::aggregate::pattern_fits;
use crate::ast::ExprV;
use crate::chain_rows;
use crate::chain_rows::{built, seed_of, settle, step, BuildV, Built, StageV};
use crate::chunk;
use crate::chunk::{HopV, RowV};
use crate::fold;
use crate::fold_build;
use crate::fold_model;
use crate::fold_run;
use crate::graph::{Adj, Graph, VarKind, NULL_ID};
use crate::hop;
use crate::hop::{Hop, StepHop};
use crate::layout;
use crate::layout::{laid_out, leg_counted, leg_plain, runnable, sealed, width_at};
use crate::leg_fold;
use crate::legs;
use crate::legs::BoundV;
use crate::names;
use crate::operators;
use crate::plan::AggV;
use crate::query::PatternV;
use crate::seeds;
use crate::seqs;

verus! {

/// Every step up to `k` of the path that it ends in has been taken row by row.
spec fn clear(hops: Seq<Hop>, k: int) -> bool
    decreases k,
{
    k <= 0 || (hops[k - 1].track && !hops[k - 1].fold && (hops[k - 1].reset || clear(hops, k - 1)))
}

/// A relationship was taken by a step before `k` of the path that step `k - 1`
/// is on.
spec fn taken(b: BuildV, rel: u64, k: int) -> bool {
    exists|i: int|
        0 <= i < k && #[trigger] fold::path_of(b.hops, i) == fold::path_of(b.hops, k - 1)
            && b.g.rel_typed(rel, b.g.type_tokens(names::of(b.hops[i].types@)))
}

/// What holds of every row after `k` steps.
spec fn fits(b: BuildV, k: int, row: RowV) -> bool {
    &&& row.ids.len() == width_at(hop::steps_v(b.hops), 1, k)
    &&& forall|j: int|
        0 <= j < k && (#[trigger] b.hops[j]).fold && b.hops[j].tgt is None ==> row.ids[width_at(
            hop::steps_v(b.hops),
            1,
            j,
        ) as int] == NULL_ID
    &&& k == 0 ==> row.used.len() == 0
    &&& clear(b.hops, k) ==> forall|i: int|
        0 <= i < row.used.len() ==> taken(b, #[trigger] row.used[i], k)
}

spec fn all_fit(b: BuildV, k: int, rows: Seq<RowV>) -> bool {
    forall|i: int| 0 <= i < rows.len() ==> fits(b, k, #[trigger] rows[i])
}

/// A row goes on from another: it keeps what that one holds.
spec fn extends(g: Graph, h: HopV, extra: nat, from: RowV, to: RowV) -> bool {
    &&& to.ids.len() == from.ids.len() + extra
    &&& forall|v: int| 0 <= v < from.ids.len() ==> to.ids[v] == #[trigger] from.ids[v]
    &&& h.track ==> {
        let base = chunk::base_of(from, h.track, h.reset);
        forall|i: int|
            0 <= i < to.used.len() ==> base.contains(#[trigger] to.used[i]) || g.rel_typed(
                to.used[i],
                h.tokens,
            )
    }
}

spec fn extends_some(g: Graph, h: HopV, extra: nat, rows: Seq<RowV>, to: RowV) -> bool {
    exists|q: int| 0 <= q < rows.len() && extends(g, h, extra, #[trigger] rows[q], to)
}

proof fn lemma_typed(g: Graph, node: u64, h: HopV, e: Adj)
    requires
        g.adj(node, h.dir, h.tokens).reverse().contains(e),
    ensures
        g.rel_typed(e.rel, h.tokens),
{
    let s = g.adj(node, h.dir, h.tokens);
    let i = choose|i: int| 0 <= i < s.reverse().len() && s.reverse()[i] == e;
    let j = s.len() - 1 - i;
    fold_model::lemma_adj_entry(g, node, h.dir, h.tokens, j);
    let (t, n, k) = choose|t: bool, n: int, k: int| #[trigger]
        g.has_entry(t, n, k) && g.entry(t, n, k) == s[j];
    assert(g.has_entry(t, n, k) && g.entry(t, n, k).rel == e.rel);
}

proof fn lemma_pushed(g: Graph, h: HopV, base: Seq<u64>, used: Seq<u64>, rel: u64)
    requires
        g.rel_typed(rel, h.tokens),
        used == base.push(rel) || used == base,
    ensures
        forall|i: int|
            0 <= i < used.len() ==> base.contains(#[trigger] used[i]) || g.rel_typed(
                used[i],
                h.tokens,
            ),
{
    assert forall|i: int| 0 <= i < used.len() implies base.contains(#[trigger] used[i])
        || g.rel_typed(used[i], h.tokens) by {
        if i < base.len() {
            assert(base[i] == used[i]);
        }
    }
}

proof fn lemma_expand(g: Graph, h: HopV, rows: Seq<RowV>, i: int)
    requires
        0 <= i < chunk::expand_rows(g, h, rows).len(),
    ensures
        extends_some(
            g,
            h,
            if h.rel_col {
                2
            } else {
                1
            },
            rows,
            chunk::expand_rows(g, h, rows)[i],
        ),
    decreases rows.len(),
{
    let extra: nat = if h.rel_col {
        2
    } else {
        1
    };
    let out = chunk::expand_rows(g, h, rows);
    let rest = rows.drop_last();
    let first = chunk::expand_rows(g, h, rest);
    if i < first.len() {
        lemma_expand(g, h, rest, i);
        let q = choose|q: int|
            0 <= q < rest.len() && extends(g, h, extra, #[trigger] rest[q], first[i]);
        assert(extends(g, h, extra, rows[q], out[i]));
    } else {
        let row = rows.last();
        let base = chunk::base_of(row, h.track, h.reset);
        let e = seqs::lemma_keep_map_at(
            g.adj(row.ids[h.src], h.dir, h.tokens).reverse(),
            |e: Adj| chunk::expand_keeps(h, base, e),
            |e: Adj| chunk::expand_makes(h, row, base, e),
            i - first.len(),
        );
        lemma_typed(g, row.ids[h.src], h, e);
        if h.track {
            lemma_pushed(g, h, base, out[i].used, e.rel);
        }
        assert(extends(g, h, extra, rows[rows.len() - 1], out[i]));
    }
}

proof fn lemma_close(g: Graph, h: HopV, tgt: int, rows: Seq<RowV>, i: int)
    requires
        0 <= i < chunk::close_rows(g, h, tgt, rows).len(),
    ensures
        extends_some(
            g,
            h,
            if h.rel_col {
                1
            } else {
                0
            },
            rows,
            chunk::close_rows(g, h, tgt, rows)[i],
        ),
    decreases rows.len(),
{
    let extra: nat = if h.rel_col {
        1
    } else {
        0
    };
    let out = chunk::close_rows(g, h, tgt, rows);
    let rest = rows.drop_last();
    let first = chunk::close_rows(g, h, tgt, rest);
    if i < first.len() {
        lemma_close(g, h, tgt, rest, i);
        let q = choose|q: int|
            0 <= q < rest.len() && extends(g, h, extra, #[trigger] rest[q], first[i]);
        assert(extends(g, h, extra, rows[q], out[i]));
    } else {
        let row = rows.last();
        let base = chunk::base_of(row, h.track, h.reset);
        let e = seqs::lemma_keep_map_at(
            g.adj(row.ids[h.src], h.dir, h.tokens).reverse(),
            |e: Adj| chunk::close_keeps(h, row.ids[tgt], base, e),
            |e: Adj| chunk::close_makes(h, row, base, e),
            i - first.len(),
        );
        lemma_typed(g, row.ids[h.src], h, e);
        if h.track {
            lemma_pushed(g, h, base, out[i].used, e.rel);
        }
        assert(extends(g, h, extra, rows[rows.len() - 1], out[i]));
    }
}

proof fn lemma_reach(g: Graph, h: HopV, max: nat, rows: Seq<RowV>, i: int)
    requires
        !h.track,
        operators::reach_rows(g, h, max, rows) matches Some(out) && 0 <= i < out.len(),
    ensures
        extends_some(g, h, 1, rows, (operators::reach_rows(g, h, max, rows)->0)[i]),
    decreases rows.len(),
{
    let out = operators::reach_rows(g, h, max, rows)->0;
    let rest = rows.drop_last();
    let first = operators::reach_rows(g, h, max, rest)->0;
    if i < first.len() {
        lemma_reach(g, h, max, rest, i);
        let q = choose|q: int| 0 <= q < rest.len() && extends(g, h, 1, #[trigger] rest[q], first[i]);
        assert(extends(g, h, 1, rows[q], out[i]));
    } else {
        assert(extends(g, h, 1, rows[rows.len() - 1], out[i]));
    }
}

/// A step over rows keeps what holds of them.
proof fn lemma_step_rows(b: BuildV, k: int, rows: Seq<RowV>)
    requires
        0 <= k < b.hops.len(),
        laid_out(hop::steps_v(b.hops), 1),
        !b.hops[k].fold,
        all_fit(b, k, rows),
    ensures
        hop::hop_rows(
            b.g,
            b.hops[k],
            b.g.type_tokens(names::of(b.hops[k].types@)),
            seeds::end_members(b.g, names::of(b.hops[k].labels@)),
            rows,
        ) matches Some(out) ==> all_fit(b, k + 1, out),
{
    let h = b.hops[k];
    let ss = hop::steps_v(b.hops);
    let tokens = b.g.type_tokens(names::of(h.types@));
    let members = seeds::end_members(b.g, names::of(h.labels@));
    let v = hop::hop_view(h, tokens, members);
    assert(layout::step_laid(ss, 1, k));
    assert(ss[k] == h.v());
    let extra = layout::adds(ss[k]);
    match hop::hop_rows(b.g, h, tokens, members, rows) {
        Some(out) => {
            assert forall|i: int| 0 <= i < out.len() implies fits(b, k + 1, #[trigger] out[i]) by {
                match h.varlen {
                    Some(max) => {
                        lemma_reach(b.g, operators_view(v, members), max as nat, rows, i);
                    },
                    None => {
                        match h.tgt {
                            None => {
                                lemma_expand(b.g, v, rows, i);
                            },
                            Some(t) => {
                                lemma_close(b.g, v, t as int, rows, i);
                            },
                        }
                    },
                }
                assert(extends_some(b.g, v, extra, rows, out[i]));
                let q = choose|q: int|
                    0 <= q < rows.len() && extends(b.g, v, extra, #[trigger] rows[q], out[i]);
                let from = rows[q];
                assert(fits(b, k, from));
                assert forall|j: int|
                    0 <= j < k + 1 && (#[trigger] b.hops[j]).fold && b.hops[j].tgt is None implies out[i].ids[width_at(
                    ss,
                    1,
                    j,
                ) as int] == NULL_ID by {
                    layout::lemma_width(ss, 1, j, k);
                    assert(ss[j] == b.hops[j].v());
                    assert(out[i].ids[width_at(ss, 1, j) as int] == from.ids[width_at(
                        ss,
                        1,
                        j,
                    ) as int]);
                }
                if clear(b.hops, k + 1) {
                    let used = out[i].used;
                    assert(b.hops[k + 1 - 1] == h);
                    assert(h.track && (h.reset || clear(b.hops, k)));
                    assert forall|m: int| 0 <= m < used.len() implies taken(
                        b,
                        #[trigger] used[m],
                        k + 1,
                    ) by {
                        let base = chunk::base_of(from, v.track, v.reset);
                        if base.contains(used[m]) {
                            let x = choose|x: int| 0 <= x < base.len() && base[x] == used[m];
                            assert(taken(b, from.used[x], k));
                            let g0 = choose|g0: int|
                                0 <= g0 < k && #[trigger] fold::path_of(b.hops, g0)
                                    == fold::path_of(b.hops, k - 1) && b.g.rel_typed(
                                    used[m],
                                    b.g.type_tokens(names::of(b.hops[g0].types@)),
                                );
                            assert(fold::path_of(b.hops, k) == fold::path_of(b.hops, k - 1));
                            assert(0 <= g0 < k + 1 && fold::path_of(b.hops, g0) == fold::path_of(
                                b.hops,
                                k + 1 - 1,
                            ));
                        } else {
                            assert(b.g.rel_typed(used[m], v.tokens));
                            assert(0 <= k < k + 1 && fold::path_of(b.hops, k) == fold::path_of(
                                b.hops,
                                k + 1 - 1,
                            ));
                        }
                    }
                }
            }
        },
        None => {},
    }
}

/// A hop with the members that its ends are held to.
spec fn operators_view(v: HopV, members: Option<Set<u64>>) -> HopV {
    HopV { members, ..v }
}

proof fn lemma_folded(b: BuildV, k: int, st: StageV)
    requires
        0 <= k < b.hops.len(),
        laid_out(hop::steps_v(b.hops), 1),
        b.hops[k].fold,
        all_fit(b, k, st.rows),
    ensures
        step(b, k, st) matches Built::At(st1) ==> all_fit(b, k + 1, st1.rows),
{
    reveal(step);
    let h = b.hops[k];
    let ss = hop::steps_v(b.hops);
    assert(layout::step_laid(ss, 1, k));
    assert(ss[k] == h.v());
    let c = if chain_rows::is_root(b, k) {
        fold_run::fold_live(chain_rows::fold_of(b), k, chain_rows::cap_at(b, k, st), 0, st.rows)
    } else {
        Some((st.rows, 0))
    };
    match c {
        Some((rows, _)) => {
            if chain_rows::is_root(b, k) {
                lemma_live(b, k, chain_rows::fold_of(b), k, chain_rows::cap_at(b, k, st), 0, st.rows);
            }
            assert(all_fit(b, k, rows));
            let out = fold_run::folded_rows(h, rows);
            assert forall|i: int| 0 <= i < out.len() implies fits(b, k + 1, #[trigger] out[i]) by {
                assert(fits(b, k, rows[i]));
                assert forall|j: int|
                    0 <= j < k + 1 && (#[trigger] b.hops[j]).fold && b.hops[j].tgt is None implies out[i].ids[width_at(
                    ss,
                    1,
                    j,
                ) as int] == NULL_ID by {
                    layout::lemma_width(ss, 1, j, k);
                    assert(ss[j] == b.hops[j].v());
                    assert(layout::step_laid(ss, 1, j));
                    if j < k {
                        assert(rows[i].ids[width_at(ss, 1, j) as int] == NULL_ID);
                    }
                }
            }
        },
        None => {},
    }
}

proof fn lemma_live(
    b: BuildV,
    k: int,
    p: fold_model::FoldV,
    root: int,
    cap: Option<u64>,
    before: nat,
    rows: Seq<RowV>,
)
    requires
        all_fit(b, k, rows),
    ensures
        fold_run::fold_live(p, root, cap, before, rows) matches Some((out, _)) ==> all_fit(
            b,
            k,
            out,
        ),
    decreases rows.len(),
{
    if rows.len() > 0 {
        let rest = rows.drop_last();
        assert forall|i: int| 0 <= i < rest.len() implies fits(b, k, #[trigger] rest[i]) by {
            assert(fits(b, k, rows[i]));
        }
        lemma_live(b, k, p, root, cap, before, rest);
        assert(fits(b, k, rows[rows.len() - 1]));
    }
}

proof fn lemma_settled(b: BuildV, k: int, st: StageV, n: nat)
    requires
        all_fit(b, k, st.rows),
    ensures
        chain_rows::apply_first(b.g, b.filters, st, n) matches Some(rows) ==> all_fit(b, k, rows),
    decreases n,
{
    if n > 0 {
        lemma_settled(b, k, st, (n - 1) as nat);
        match chain_rows::apply_first(b.g, b.filters, st, (n - 1) as nat) {
            Some(rows) => {
                let f = b.filters[st.pending[n - 1]];
                let keep = |row: RowV| f.holds(b.g, st.vars, row.ids);
                let out = rows.filter(keep);
                assert forall|i: int| 0 <= i < out.len() implies fits(b, k, #[trigger] out[i]) by {
                    seqs::lemma_filter_contains(rows, keep, out[i]);
                    let j = choose|j: int| 0 <= j < rows.len() && rows[j] == out[i];
                    assert(fits(b, k, rows[j]));
                }
            },
            None => {},
        }
    }
}

proof fn lemma_built(b: BuildV, var: Seq<char>, ids: Seq<u64>, k: int)
    requires
        0 <= k <= b.hops.len(),
        laid_out(hop::steps_v(b.hops), 1),
    ensures
        built(b, var, ids, k) matches Built::At(st) ==> all_fit(b, k, st.rows),
    decreases k,
{
    reveal(settle);
    if k == 0 {
        let st = seed_of(b, var, ids);
        assert forall|i: int| 0 <= i < st.rows.len() implies fits(b, 0, #[trigger] st.rows[i]) by {}
        lemma_settled(b, 0, st, st.pending.len());
    } else {
        lemma_built(b, var, ids, k - 1);
        match built(b, var, ids, k - 1) {
            Built::At(st) => {
                if b.hops[k - 1].fold {
                    lemma_folded(b, k - 1, st);
                } else {
                    reveal(step);
                    lemma_step_rows(b, k - 1, st.rows);
                }
                match step(b, k - 1, st) {
                    Built::At(st1) => {
                        lemma_settled(b, k, st1, st1.pending.len());
                    },
                    _ => {},
                }
            },
            _ => {},
        }
    }
}

/// A step that goes on with a path from a variable that is not counted has a
/// path that was taken row by row.
proof fn lemma_clear(hops: Seq<Hop>, k: int)
    requires
        0 <= k < hops.len(),
        laid_out(hop::steps_v(hops), 1),
        sealed(hop::steps_v(hops)),
        hops[k].track,
        !hops[k].reset,
        forall|j: int|
            0 <= j < hops.len() && (#[trigger] hops[j]).fold && hops[j].tgt is None
                ==> hops[j].end_vi != Some(hops[k].src),
    ensures
        clear(hops, k),
    decreases k,
{
    let ss = hop::steps_v(hops);
    if k > 0 {
        assert(layout::step_laid(ss, 1, k));
        assert(ss[k] == hops[k].v());
        assert(ss[k - 1] == hops[k - 1].v());
        assert(!hops[k - 1].fold);
        if !hops[k - 1].reset {
            assert forall|j: int|
                0 <= j < hops.len() && (#[trigger] hops[j]).fold && hops[j].tgt is None implies hops[j].end_vi
                != Some(hops[k - 1].src) by {
                assert(ss[j] == hops[j].v());
            }
            lemma_clear(hops, k - 1);
        }
    }
}

/// The variables that are bound, whichever way they are counted.
pub proof fn lemma_same_width(hops: Seq<Hop>, k: int)
    requires
        0 <= k <= hops.len(),
    ensures
        chain_rows::bound_after(hops, k) == width_at(hop::steps_v(hops), 1, k),
    decreases k,
{
    if k > 0 {
        lemma_same_width(hops, k - 1);
        assert(hop::steps_v(hops)[k - 1] == hops[k - 1].v());
    }
}

/// Wherever a counted step starts at a bound variable of a chain that can run,
/// it finds rows that are ready: they hold nothing for the variables that are
/// counted past its source, and the relationships that they used are of the
/// step's own path.
pub proof fn law_roots_are_ready(b: BuildV, var: Seq<char>, ids: Seq<u64>)
    requires
        runnable(hop::steps_v(b.hops)),
        b.hops.len() < usize::MAX / 2,
    ensures
        chain_rows::roots_ready(b, var, ids),
{
    let ss = hop::steps_v(b.hops);
    let p = chain_rows::fold_of(b);
    let n = b.hops.len() as int;
    assert forall|k: int| 0 <= k < b.hops.len() && chain_rows::is_root(b, k) implies (
    #[trigger] built(b, var, ids, k) matches Built::At(st) ==> forall|i: int|
        0 <= i < st.rows.len() ==> fold_run::row_ready(p, k, #[trigger] st.rows[i])) by {
        lemma_built(b, var, ids, k);
        match built(b, var, ids, k) {
            Built::At(st) => {
                assert forall|i: int| 0 <= i < st.rows.len() implies fold_run::row_ready(
                    p,
                    k,
                    #[trigger] st.rows[i],
                ) by {
                    let row = st.rows[i];
                    assert(fits(b, k, row));
                    assert(layout::step_laid(ss, 1, k));
                    assert(ss[k] == b.hops[k].v());
                    lemma_same_width(b.hops, n);
                    layout::lemma_width(ss, 1, k, n);
                    fold_build::lemma_width_min(
                        b.hops,
                        chain_rows::bound_after(b.hops, n) as int,
                    );
                    assert forall|v: int|
                        p.hops[k].src < v < p.width && #[trigger] fold_model::is_folded(
                            p,
                            v,
                        ) implies fold_run::row_bind(p, row)[v] == NULL_ID by {
                        let j = choose|j: int|
                            0 <= j < p.hops.len() && (#[trigger] p.hops[j]).fold && p.hops[j].tgt is None
                                && p.hops[j].end == Some(v);
                        assert(b.hops[j].fold && b.hops[j].tgt is None);
                        assert(layout::step_laid(ss, 1, j));
                        assert(ss[j] == b.hops[j].v());
                        assert(v == width_at(ss, 1, j));
                        if j >= k {
                            layout::lemma_width(ss, 1, k, j);
                        }
                    }
                    if b.hops[k].track && !b.hops[k].reset {
                        assert forall|j: int|
                            0 <= j < b.hops.len() && (#[trigger] b.hops[j]).fold
                                && b.hops[j].tgt is None implies b.hops[j].end_vi != Some(
                            b.hops[k].src,
                        ) by {
                            assert(p.hops[j].fold && p.hops[j].tgt is None);
                        }
                        lemma_clear(b.hops, k);
                        assert forall|m: int|
                            0 <= m < row.used.len() implies fold_model::taken_earlier(
                            p,
                            #[trigger] row.used[m],
                            k,
                        ) by {
                            assert(taken(b, row.used[m], k));
                            let g0 = choose|g0: int|
                                0 <= g0 < k && #[trigger] fold::path_of(b.hops, g0)
                                    == fold::path_of(b.hops, k - 1) && b.g.rel_typed(
                                    row.used[m],
                                    b.g.type_tokens(names::of(b.hops[g0].types@)),
                                );
                            assert(p.hops[g0].path == p.hops[k].path);
                        }
                    }
                }
            },
            _ => {},
        }
    }
}

/// A step that starts where another ends comes later, on the same path when it
/// goes on with it.
pub proof fn lemma_path_order(hops: Seq<Hop>)
    requires
        laid_out(hop::steps_v(hops), 1),
    ensures
        forall|a: int, b: int|
            #![trigger hops[a], hops[b]]
            0 <= a < hops.len() && 0 <= b < hops.len() && hops[a].tgt is None && hops[a].end_vi
                == Some(hops[b].src) ==> a < b && (hops[b].track && !hops[b].reset
                ==> fold::path_of(hops, a) == fold::path_of(hops, b)),
{
    let ss = hop::steps_v(hops);
    assert forall|a: int, b: int|
        #![trigger hops[a], hops[b]]
        0 <= a < hops.len() && 0 <= b < hops.len() && hops[a].tgt is None && hops[a].end_vi == Some(
            hops[b].src,
        ) implies a < b && (hops[b].track && !hops[b].reset ==> fold::path_of(hops, a)
        == fold::path_of(hops, b)) by {
        assert(ss[a] == hops[a].v());
        assert(ss[b] == hops[b].v());
        assert(layout::step_laid(ss, 1, a));
        assert(layout::step_laid(ss, 1, b));
        if b <= a {
            layout::lemma_width(ss, 1, b, a);
        } else if hops[b].track && !hops[b].reset {
            assert(layout::step_laid(ss, 1, b - 1));
            assert(ss[b - 1] == hops[b - 1].v());
            if a < b - 1 {
                layout::lemma_width(ss, 1, a, b - 1);
            }
        }
    }
}

/// A chain that can run is one whose counted steps a fold can look up.
pub proof fn law_runnable_folds(g: Graph, hops: Seq<Hop>, tokens: Seq<Option<Vec<u32>>>)
    requires
        g.wf(),
        runnable(hop::steps_v(hops)),
        hops.len() < usize::MAX / 2,
        chain_rows::tokens_of(g, hops, tokens),
    ensures
        fold::chain_ok(g, hops, tokens),
        chain_rows::steps_fit(hops),
{
    let ss = hop::steps_v(hops);
    let n = hops.len() as int;
    layout::lemma_width(ss, 1, 0, n);
    assert forall|i: int| 0 <= i < hops.len() implies {
        let h = #[trigger] hops[i];
        &&& h.src < usize::MAX
        &&& h.tgt matches Some(t) ==> t < usize::MAX && h.end_vi is None
        &&& h.end_vi matches Some(e) ==> e < usize::MAX
        &&& h.fold && h.tgt is None ==> (h.end_vi matches Some(e) && h.src < e)
        &&& forall|k: int|
            0 <= k < h.inline@.len() ==> fold::inline_var(#[trigger] h.inline@[k]) < usize::MAX
    } by {
        let h = hops[i];
        assert(ss[i] == h.v());
        assert(layout::step_laid(ss, 1, i));
        layout::lemma_width(ss, 1, i, n);
        layout::lemma_width(ss, 1, 0, i);
        assert forall|k: int| 0 <= k < h.inline@.len() implies fold::inline_var(
            #[trigger] h.inline@[k],
        ) < usize::MAX by {
            assert(ss[i].inline[k] == h.inline@[k].v());
        }
    }
    lemma_path_order(hops);
    assert forall|k: int| 0 <= k < hops.len() implies hop::hop_fits(
        #[trigger] hops[k],
        chain_rows::bound_after(hops, k),
    ) by {
        assert(ss[k] == hops[k].v());
        assert(layout::step_laid(ss, 1, k));
        lemma_same_width(hops, k);
    }
}

/// Past the first `first` variables, every one is bound by a step when steps
/// bind nodes only.
proof fn lemma_bound_by(ss: Seq<StepHop>, first: nat, k: int, v: int) -> (j: int)
    requires
        0 <= k <= ss.len(),
        laid_out(ss, first),
        forall|i: int|
            0 <= i < ss.len() ==> (#[trigger] ss[i]).varlen is None && ss[i].rel_var is None,
        first <= v < width_at(ss, first, k),
    ensures
        0 <= j < k,
        ss[j].tgt is None,
        ss[j].end_vi == Some(v),
    decreases k,
{
    assert(layout::step_laid(ss, first, k - 1));
    if v < width_at(ss, first, k - 1) {
        lemma_bound_by(ss, first, k - 1, v)
    } else {
        k - 1
    }
}

/// A leg that is counted is one that a fold can count: its steps are in the
/// order that a fold needs, it binds only variables of its own, and each of its
/// roots starts at a variable from before it without regard to what was used.
pub proof fn law_counted_leg_runs(
    g: Graph,
    hops: Seq<Hop>,
    members: Seq<Option<BTreeSet<u64>>>,
    tokens: Seq<Option<Vec<u32>>>,
    n: nat,
    width: int,
)
    requires
        leg_counted(hop::steps_v(hops), n),
        width_at(hop::steps_v(hops), n, hops.len() as int) <= usize::MAX,
        g.wf(),
        chain_rows::tokens_of(g, hops, tokens),
        n <= width,
    ensures
        fold::chain_ok(g, hops, tokens),
        leg_fold::leg_ready(fold::fold_view(g, hops, members, tokens, width), n),
{
    let ss = hop::steps_v(hops);
    let m = hops.len() as int;
    assert(ss.len() == m);
    assert forall|i: int| 0 <= i < m implies {
        let h = #[trigger] hops[i];
        &&& h.src < usize::MAX
        &&& h.tgt matches Some(t) ==> t < usize::MAX && h.end_vi is None
        &&& h.end_vi matches Some(e) ==> e < usize::MAX
        &&& h.fold && h.tgt is None ==> (h.end_vi matches Some(e) && h.src < e)
        &&& h.inline@.len() == 0
    } by {
        assert(ss[i] == hops[i].v());
        assert(layout::step_laid(ss, n, i));
        layout::lemma_width(ss, n, i, m);
        assert(hops[i].inline@.len() == ss[i].inline.len());
    }
    assert forall|a: int, c: int|
        #![trigger hops[a], hops[c]]
        0 <= a < m && 0 <= c < m && hops[a].fold && hops[a].tgt is None && hops[a].end_vi == Some(
            hops[c].src,
        ) implies a < c && (hops[c].track && !hops[c].reset ==> fold::path_of(hops, a)
        == fold::path_of(hops, c)) by {
        assert(ss[a] == hops[a].v() && ss[c] == hops[c].v());
        assert(layout::step_laid(ss, n, a) && layout::step_laid(ss, n, c));
        if c <= a {
            layout::lemma_width(ss, n, c, a);
        } else if hops[c].track && !hops[c].reset {
            assert(layout::step_laid(ss, n, c - 1));
            assert(ss[c - 1] == hops[c - 1].v());
            if a < c - 1 {
                layout::lemma_width(ss, n, a, c - 1);
            }
        }
    }
    let p = fold::fold_view(g, hops, members, tokens, width);
    assert forall|v: int| #[trigger] fold_model::is_folded(p, v) implies v >= n by {
        let j = choose|j: int|
            0 <= j < p.hops.len() && (#[trigger] p.hops[j]).fold && p.hops[j].tgt is None
                && p.hops[j].end == Some(v);
        assert(ss[j] == hops[j].v());
        assert(layout::step_laid(ss, n, j));
        layout::lemma_width(ss, n, 0, j);
    }
    assert forall|hi: int| 0 <= hi < p.hops.len() && #[trigger] leg_fold::is_root(
        p,
        hi,
    ) implies p.hops[hi].src < n && (!p.hops[hi].track || p.hops[hi].reset) by {
        assert(ss[hi] == hops[hi].v());
        assert(layout::step_laid(ss, n, hi));
        let v = p.hops[hi].src;
        if v >= n {
            let j = lemma_bound_by(ss, n, hi, v);
            assert(ss[j] == hops[j].v());
            assert(p.hops[j].fold && p.hops[j].tgt is None && p.hops[j].end == Some(v));
            assert(fold_model::is_folded(p, v));
        }
        if p.hops[hi].track && !p.hops[hi].reset {
            assert(hi > 0);
            assert(ss[hi - 1] == hops[hi - 1].v());
            assert(p.hops[hi - 1].fold && p.hops[hi - 1].tgt is None && p.hops[hi - 1].end == Some(
                v,
            ));
            assert(fold_model::is_folded(p, v));
        }
    }
}

/// The optional matches of a query can run, taken row by row or counted.
pub proof fn law_legs_are_laid_out(
    pattern: PatternV,
    w: Option<ExprV>,
    b: BoundV,
    outer: int,
    a: AggV,
    kinds: Seq<VarKind>,
)
    requires
        pattern_fits(pattern),
    ensures
        legs::stage_of(pattern, w, b, outer) matches Some((s, after)) ==> {
            let f = legs::fold_stage(s, a, kinds);
            &&& leg_plain(s.hops, b.vars.len())
            &&& f == s || leg_counted(f.hops, b.vars.len())
            &&& s.vars_after == width_at(f.hops, b.vars.len(), f.hops.len() as int)
        },
{
    let n = b.vars.len();
    layout::law_bound_steps_are_laid_out(pattern, b.vars, b.kinds, b.labels, legs::plain_allow());
    match legs::stage_of(pattern, w, b, outer) {
        Some((s, after)) => {
            let f = legs::fold_stage(s, a, kinds);
            let fh = legs::leg_folded(s.hops);
            assert(leg_plain(s.hops, n));
            layout::lemma_width_same(fh, s.hops, n);
            if legs::stage_folds(s, a, kinds) {
                assert forall|k: int| 0 <= k < fh.len() implies #[trigger] layout::step_laid(
                    fh,
                    n,
                    k,
                ) by {
                    assert(layout::step_laid(s.hops, n, k));
                    assert(s.hops[k].varlen is None);
                    assert(width_at(fh, n, k) == width_at(s.hops, n, k));
                }
                assert forall|i: int| 0 <= i < fh.len() implies (#[trigger] fh[i]).fold
                    && fh[i].rel_var is None && fh[i].varlen is None && fh[i].inline.len() == 0 by {
                    assert(legs::leg_step_ok(s.hops, i, s.outer_len));
                    assert(s.hops[i].inline.len() == 0);
                }
            }
        },
        None => {},
    }
}

} // verus!
