//! A planned count is the number of matches of its pattern.

use vstd::prelude::*;

use crate::aggregate;
use crate::aggregate::pattern_fits;
use crate::chain_rows;
use crate::fold_law;
use crate::fold_law::{bound_first, orderly, step_orderly};
use crate::fold_model;
use crate::fold_model::{below, is_folded, pred_var};
use crate::graph::Graph;
use crate::hop;
use crate::hop::Hop;
use crate::layout;
use crate::match_law;
use crate::match_law::{bind_sum, ordered, rel_choices, step_ordered};
use crate::plan::AggV;
use crate::planned;
use crate::query::ClauseV;

verus! {

/// Steps that are where they belong and that counting can take are in binding
/// order.
proof fn lemma_ordered(g: Graph, hops: Seq<Hop>, width: int)
    requires
        layout::laid_out(hop::steps_v(hops), 1),
        orderly(chain_rows::count_view(g, hops, width)),
    ensures
        ordered(chain_rows::count_view(g, hops, width)),
{
    let p = chain_rows::count_view(g, hops, width);
    let s = hop::steps_v(hops);
    assert(s.len() == hops.len());
    assert forall|k: int| 0 <= k < p.hops.len() implies #[trigger] step_ordered(p, k) by {
        assert(step_orderly(p, k));
        assert(layout::step_laid(s, 1, k));
        let h = p.hops[k];
        if h.tgt is None {
            let e = h.end->0;
            assert forall|i: int| 0 <= i < h.preds.len() implies 0 <= pred_var(
                #[trigger] h.preds[i],
            ) <= e by {
                let o = pred_var(h.preds[i]);
                assert(h.fold);
                assert(bound_first(p, o, e));
                if is_folded(p, o) {
                    if o != e {
                        fold_model::lemma_below_past(p, o, e);
                    }
                } else {
                    assert(is_folded(p, e)) by {
                        assert(p.hops[k].fold);
                    }
                    assert(below(p, e, e));
                }
            }
        }
    }
    assert forall|k: int, j: int|
        #![trigger p.hops[k], p.hops[j]]
        0 <= k < j < p.hops.len() && p.hops[j].tgt is None implies p.hops[k].src < p.hops[j].end->0
        && (match p.hops[k].tgt {
        Some(t) => t < p.hops[j].end->0,
        None => p.hops[k].end->0 < p.hops[j].end->0,
    }) by {
        assert(layout::step_laid(s, 1, k));
        assert(layout::step_laid(s, 1, j));
        layout::lemma_width(s, 1, k, j);
    }
}

/// A planned count is the number of matches of its pattern: from a start it
/// counts the ways to give each variable a node, with its labels and its tests,
/// and each step a relationship, none twice on a path.
pub proof fn law_planned_count_is_matching(
    q: Seq<ClauseV>,
    on: bool,
    p: AggV,
    g: Graph,
    hops: Seq<Hop>,
    width: int,
    bind: Seq<u64>,
)
    requires
        aggregate::aggregate_of(q, on) == Some(p),
        q.len() > 0,
        q[0] matches ClauseV::Match { pattern, .. } && pattern_fits(pattern),
        p.chain.vars.len() <= usize::MAX,
        hop::steps_v(hops) == p.chain.hops,
        g.wf(),
        g.labels@.len() <= u64::MAX,
        p.chain.vars.len() <= width,
        bind.len() == width,
    ensures
        ordered(chain_rows::count_view(g, hops, width)),
        fold_law::weighted(chain_rows::count_view(g, hops, width), 0, bind, Seq::empty())
            == bind_sum(
            chain_rows::count_view(g, hops, width),
            0,
            bind,
            |b: Seq<u64>|
                rel_choices(chain_rows::count_view(g, hops, width), 0, b, Seq::empty()),
        ),
{
    let v = chain_rows::count_view(g, hops, width);
    planned::law_planned_count_is_orderly(q, on, p, g, hops, width);
    layout::law_planned_count_runs(q, on, p);
    lemma_ordered(g, hops, width);
    planned::law_planned_count_is_expanding(q, on, p, g, hops, width, bind);
    match_law::law_walks_are_matches(v, bind);
}

} // verus!
