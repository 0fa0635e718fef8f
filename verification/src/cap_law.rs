//! A count that may stop at a cap is right up to the cap, over the whole chain.

use vstd::prelude::*;

use crate::chain_rows::{built, cap_at, fold_of, is_root, seed_of, settle, step, BuildV, Built, StageV};
use crate::chunk::RowV;
use crate::fold_run;
use crate::fold_run::{folded_rows, weight_sum};
use crate::graph::{Graph, NULL_ID};
use crate::hop::Hop;
use crate::select::Filter;
use crate::seqs;

verus! {

/// The chain without a cap.
pub open spec fn uncapped(b: BuildV) -> BuildV {
    BuildV { cap: None, ..b }
}

/// What a capped stage keeps of a stage: all of it where that is below the cap,
/// and at least the cap otherwise.
pub open spec fn enough(cap: u64, part: StageV, full: StageV) -> bool {
    &&& part.vars == full.vars
    &&& part.kinds == full.kinds
    &&& part.pending == full.pending
    &&& if weight_sum(full.rows) < cap {
        part == full
    } else {
        cap <= weight_sum(part.rows) <= weight_sum(full.rows)
    }
}

/// A stage that is whole, or one that nothing drops rows of any more.
spec fn settled(b: BuildV, k: int, cap: u64, part: StageV, full: StageV) -> bool {
    part == full || {
        &&& enough(cap, part, full)
        &&& full.pending.len() == 0
        &&& forall|j: int| k <= j < b.hops.len() ==> (#[trigger] b.hops[j]).fold && !is_root(b, j)
    }
}

proof fn lemma_padded(rows: Seq<RowV>)
    ensures
        weight_sum(rows.map_values(|row: RowV| RowV { ids: row.ids.push(NULL_ID), ..row }))
            == weight_sum(rows),
    decreases rows.len(),
{
    let pad = |row: RowV| RowV { ids: row.ids.push(NULL_ID), ..row };
    if rows.len() > 0 {
        lemma_padded(rows.drop_last());
        assert(rows.map_values(pad).drop_last() =~= rows.drop_last().map_values(pad));
    }
}

/// The variables that a counted step binds do not change weights.
proof fn lemma_folded(h: Hop, rows: Seq<RowV>)
    ensures
        weight_sum(folded_rows(h, rows)) == weight_sum(rows),
{
    lemma_padded(rows);
    let pad = |row: RowV| RowV { ids: row.ids.push(NULL_ID), ..row };
    lemma_padded(rows.map_values(pad));
}

/// A stage without conditions is settled.
proof fn lemma_no_conditions(g: Graph, fs: Seq<Filter>, st: StageV)
    requires
        st.pending.len() == 0,
    ensures
        settle(g, fs, st) == Built::At(st),
{
    reveal(settle);
    let keep = |p: int| !fs[p].bound(st.vars);
    seqs::lemma_filter_empty(keep);
    assert(st.pending =~= Seq::empty());
    assert(st.pending.filter(keep) =~= st.pending);
}

proof fn lemma_step(b: BuildV, k: int, cap: u64, part: StageV, full: StageV)
    requires
        b.cap == Some(cap),
        0 <= k < b.hops.len(),
        settled(b, k, cap, part, full),
    ensures
        step(uncapped(b), k, full) matches Built::At(f1) ==> (step(b, k, part) matches Built::At(p1)
            && settled(b, k + 1, cap, p1, f1)),
{
    reveal(step);
    let u = uncapped(b);
    let h = b.hops[k];
    assert(fold_of(u) == fold_of(b));
    if part != full {
        assert(h.fold && !is_root(b, k));
        assert(!is_root(u, k));
        lemma_folded(h, part.rows);
        lemma_folded(h, full.rows);
    } else if h.fold && is_root(b, k) {
        assert(is_root(u, k));
        assert(cap_at(u, k, full) is None);
        if cap_at(b, k, part) is Some {
            fold_run::law_cap_is_enough(fold_of(b), k, cap, full.rows);
            match fold_run::fold_live(fold_of(b), k, None, 0, full.rows) {
                Some((rows, _)) => {
                    let kept = (fold_run::fold_live(fold_of(b), k, Some(cap), 0, full.rows)->0).0;
                    lemma_folded(h, rows);
                    lemma_folded(h, kept);
                },
                None => {},
            }
        }
    } else {
        assert(is_root(u, k) == is_root(b, k));
    }
}

proof fn lemma_built(b: BuildV, cap: u64, var: Seq<char>, ids: Seq<u64>, k: int)
    requires
        b.cap == Some(cap),
        0 <= k <= b.hops.len(),
    ensures
        built(uncapped(b), var, ids, k) matches Built::At(full) ==> (built(b, var, ids, k) matches
            Built::At(part) && settled(b, k, cap, part, full)),
    decreases k,
{
    let u = uncapped(b);
    if k == 0 {
        assert(seed_of(u, var, ids) == seed_of(b, var, ids));
    } else {
        lemma_built(b, cap, var, ids, k - 1);
        match built(u, var, ids, k - 1) {
            Built::At(full) => {
                let part = built(b, var, ids, k - 1)->At_0;
                lemma_step(b, k - 1, cap, part, full);
                match step(u, k - 1, full) {
                    Built::At(f1) => {
                        let p1 = step(b, k - 1, part)->At_0;
                        if p1 != f1 {
                            lemma_no_conditions(b.g, b.filters, p1);
                            lemma_no_conditions(b.g, b.filters, f1);
                        }
                    },
                    _ => {},
                }
            },
            _ => {},
        }
    }
}

/// A capped count is enough, over the whole chain: where the chain has rows
/// without a cap, it has rows with one. Their weights add up to the same where
/// that is below the cap, and the rows are the same; otherwise they add up to at
/// least the cap, and to no more than without it.
pub proof fn law_capped_chain_is_enough(b: BuildV, cap: u64, var: Seq<char>, ids: Seq<u64>)
    requires
        b.cap == Some(cap),
    ensures
        built(uncapped(b), var, ids, b.hops.len() as int) matches Built::At(full) ==> (built(
            b,
            var,
            ids,
            b.hops.len() as int,
        ) matches Built::At(part) && enough(cap, part, full)),
{
    lemma_built(b, cap, var, ids, b.hops.len() as int);
}

} // verus!
