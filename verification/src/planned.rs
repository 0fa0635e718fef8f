//! A planned count: its steps are in the order that counting needs, so that
//! it counts the matches that taking every step row by row finds.

use vstd::prelude::*;

use crate::aggregate;
use crate::aggregate::pattern_fits;
use crate::chain_rows;
use crate::chain_rows::{built, BuildV, Built, StageV};
use crate::counted_rows;
use crate::fold;
use crate::fold_build;
use crate::fold_law;
use crate::fold_law::{bound_first, orderly, step_orderly, tells_uncounted};
use crate::fold_model;
use crate::fold_model::{below, is_folded, FoldV};
use crate::fold_plan;
use crate::fold_plan::{binder, bound_at, is_ancestor, parent, parent_folded, root_end, starts_folded};
use crate::fold_run;
use crate::graph::Graph;
use crate::hop;
use crate::hop::Hop;
use crate::layout;
use crate::layout::laid_out;
use crate::plan::{aggregate_plan, AggV};
use crate::preds;
use crate::preds::{chain_of, WhereV};
use crate::query::ClauseV;
use crate::ready;
use crate::seqs;

verus! {

/// What is known of a plan's marks and of the steps that they were put on.
spec fn marked(p0: AggV, f: Seq<bool>, hops: Seq<Hop>, p: FoldV) -> bool {
    let c = p0.chain;
    &&& f.len() == c.vars.len()
    &&& c.vars.len() <= p.width
    &&& fold_plan::chain_wf(c)
    &&& hop::steps_v(hops) == fold_plan::with_folds(c, f).hops
    &&& p == chain_rows::count_view(p.g, hops, p.width)
    &&& p.g.wf()
    &&& laid_out(c.hops, 1)
    &&& laid_out(hop::steps_v(hops), 1)
    &&& layout::sealed(hop::steps_v(hops))
    &&& forall|v: int| 0 <= v < f.len() && #[trigger] f[v] ==> starts_folded(p0, v)
    &&& forall|i: int|
        0 <= i < c.hops.len() ==> fold_plan::step_sound(p0, #[trigger] c.hops[i], f)
    &&& forall|i: int|
        0 <= i < c.wheres.len() ==> fold_plan::where_sound(c, #[trigger] c.wheres[i], f)
    &&& forall|i: int| 0 <= i < c.hops.len() ==> (#[trigger] c.hops[i]).inline.len() == 0
}

proof fn lemma_same_step(p0: AggV, f: Seq<bool>, hops: Seq<Hop>, p: FoldV, i: int)
    requires
        marked(p0, f, hops, p),
        0 <= i < p.hops.len(),
    ensures
        p.hops.len() == hops.len() == p0.chain.hops.len(),
        p.hops[i].src == p0.chain.hops[i].src,
        p.hops[i].tgt == p0.chain.hops[i].tgt,
        p.hops[i].end == p0.chain.hops[i].end_vi,
        p.hops[i].fold == fold_plan::step_folds(p0.chain.hops[i], f),
        p.hops[i].track == p0.chain.hops[i].track,
        p.hops[i].reset == p0.chain.hops[i].reset,
        fold_plan::step_wf(p0.chain.hops[i], p0.chain.vars.len()),
{
    assert(hop::steps_v(hops).len() == hops.len());
    assert(hop::steps_v(hops)[i] == hops[i].v());
    assert(fold_plan::step_wf(p0.chain.hops[i], p0.chain.vars.len()));
}

/// The counted variables are the marked ones.
proof fn lemma_marks(p0: AggV, f: Seq<bool>, hops: Seq<Hop>, p: FoldV, v: int)
    requires
        marked(p0, f, hops, p),
    ensures
        is_folded(p, v) <==> 0 <= v < f.len() && f[v],
        0 <= v < f.len() && f[v] ==> (binder(p0.chain.hops, v) matches Some(i) && 0 <= i
            < p.hops.len() && p.hops[i].fold && p.hops[i].tgt is None && p.hops[i].end == Some(v)),
{
    if is_folded(p, v) {
        let j = choose|j: int|
            0 <= j < p.hops.len() && (#[trigger] p.hops[j]).fold && p.hops[j].tgt is None
                && p.hops[j].end == Some(v);
        lemma_same_step(p0, f, hops, p, j);
    }
    if 0 <= v < f.len() && f[v] {
        assert(starts_folded(p0, v));
        fold_plan::lemma_binder(p0.chain.hops, v);
        let i = binder(p0.chain.hops, v)->0;
        assert(hop::steps_v(hops).len() == hops.len());
        lemma_same_step(p0, f, hops, p, i);
        assert(p.hops[i].fold && p.hops[i].tgt is None && p.hops[i].end == Some(v));
    }
}

/// Two steps that bind the same variable are the same step.
proof fn lemma_one_step(p0: AggV, f: Seq<bool>, hops: Seq<Hop>, p: FoldV, a: int, b: int)
    requires
        marked(p0, f, hops, p),
        0 <= a < p.hops.len(),
        0 <= b < p.hops.len(),
        p.hops[a].tgt is None,
        p.hops[b].tgt is None,
    ensures
        p.hops[a].end == p.hops[b].end ==> a == b,
        a < b ==> p.hops[a].end->0 < p.hops[b].end->0,
{
    lemma_same_step(p0, f, hops, p, a);
    lemma_same_step(p0, f, hops, p, b);
    let hs = p0.chain.hops;
    assert(layout::step_laid(hs, 1, a));
    assert(layout::step_laid(hs, 1, b));
    if a < b {
        layout::lemma_width(hs, 1, a, b);
    }
    if b < a {
        layout::lemma_width(hs, 1, b, a);
    }
}

proof fn lemma_ancestor(p0: AggV, f: Seq<bool>, hops: Seq<Hop>, p: FoldV, anc: int, v: int)
    requires
        marked(p0, f, hops, p),
        0 <= v < f.len(),
        f[v],
        is_ancestor(p0.chain.hops, anc, v, f),
    ensures
        below(p, anc, v),
    decreases v,
{
    let hs = p0.chain.hops;
    lemma_marks(p0, f, hops, p, v);
    let i = binder(hs, v)->0;
    lemma_same_step(p0, f, hops, p, i);
    let u = parent(hs, v);
    if u != anc {
        lemma_ancestor(p0, f, hops, p, anc, u);
    }
    assert(below(p, anc, u));
    assert(p.hops[i].fold && p.hops[i].end == Some(v) && p.hops[i].src == u);
}

proof fn lemma_root_low(hs: Seq<crate::hop::StepHop>, v: int, f: Seq<bool>)
    ensures
        root_end(hs, v, f) <= v,
    decreases v,
{
    if parent_folded(hs, v, f) {
        lemma_root_low(hs, parent(hs, v), f);
    }
}

proof fn lemma_root_first(p0: AggV, f: Seq<bool>, hops: Seq<Hop>, p: FoldV, r: int, v: int)
    requires
        marked(p0, f, hops, p),
        0 <= v < f.len(),
        f[v],
        below(p, r, v),
        is_folded(p, r),
    ensures
        root_end(p0.chain.hops, v, f) <= r,
    decreases v,
{
    let hs = p0.chain.hops;
    if r == v {
        lemma_root_low(hs, v, f);
    } else {
        lemma_marks(p0, f, hops, p, v);
        let i = binder(hs, v)->0;
        let hi = choose|hi: int|
            0 <= hi < p.hops.len() && (#[trigger] p.hops[hi]).fold && p.hops[hi].tgt is None
                && p.hops[hi].end == Some(v) && 0 <= p.hops[hi].src < v && below(
                p,
                r,
                p.hops[hi].src,
            );
        lemma_one_step(p0, f, hops, p, hi, i);
        lemma_same_step(p0, f, hops, p, i);
        let u = p.hops[i].src;
        assert(is_folded(p, u)) by {
            if r != u {
                lemma_below_counted(p, r, u);
            }
        }
        lemma_marks(p0, f, hops, p, u);
        assert(parent(hs, v) == u);
        lemma_root_first(p0, f, hops, p, r, u);
    }
}

/// What is below another variable is counted.
proof fn lemma_below_counted(p: FoldV, r: int, u: int)
    requires
        below(p, r, u),
        r != u,
    ensures
        is_folded(p, u),
{
    let hi = choose|hi: int|
        0 <= hi < p.hops.len() && (#[trigger] p.hops[hi]).fold && p.hops[hi].tgt is None
            && p.hops[hi].end == Some(u) && 0 <= p.hops[hi].src < u && below(p, r, p.hops[hi].src);
    assert(p.hops[hi].fold);
}

proof fn lemma_bound_first(p0: AggV, f: Seq<bool>, hops: Seq<Hop>, p: FoldV, other: int, v: int)
    requires
        marked(p0, f, hops, p),
        0 <= v < f.len(),
        f[v],
        0 <= other < f.len(),
        bound_at(p0.chain.hops, other, v, f),
    ensures
        bound_first(p, other, v),
{
    lemma_marks(p0, f, hops, p, other);
    if f[other] {
        if other != v {
            lemma_ancestor(p0, f, hops, p, other, v);
        }
    } else {
        assert forall|r: int| #[trigger] below(p, r, v) && is_folded(p, r) implies other < r by {
            lemma_root_first(p0, f, hops, p, r, v);
        }
    }
}

/// The tests of a step are bound when it counts, and one that does not count
/// has none.
proof fn lemma_tests(p0: AggV, f: Seq<bool>, hops: Seq<Hop>, p: FoldV, i: int)
    requires
        marked(p0, f, hops, p),
        0 <= i < p.hops.len(),
    ensures
        !p.hops[i].fold ==> p.hops[i].preds.len() == 0,
        p.hops[i].preds.len() > 0 ==> p.hops[i].tgt is None,
        forall|k: int|
            0 <= k < p.hops[i].preds.len() ==> 0 <= fold_model::pred_var(
                #[trigger] p.hops[i].preds[k],
            ) < p.width && bound_first(
                p,
                fold_model::pred_var(p.hops[i].preds[k]),
                p.hops[i].end->0,
            ),
{
    let c = p0.chain;
    lemma_same_step(p0, f, hops, p, i);
    let at = fold_plan::inlines_at(c, c.wheres, f, i);
    assert(hop::steps_v(hops)[i] == hops[i].v());
    assert(hops[i].v().inline =~= at);
    assert forall|k: int| 0 <= k < p.hops[i].preds.len() implies p.hops[i].fold && p.hops[i].tgt is None
        && 0 <= fold_model::pred_var(#[trigger] p.hops[i].preds[k]) < p.width && bound_first(
        p,
        fold_model::pred_var(p.hops[i].preds[k]),
        p.hops[i].end->0,
    ) by {
        let w = seqs::lemma_keep_map_at(
            c.wheres,
            |w: WhereV| fold_plan::where_folds(c, w, f) && fold_plan::where_at(c, w, f) == i,
            |w: WhereV| fold_plan::inline_of(c, w, f),
            k,
        );
        let j = choose|j: int| 0 <= j < c.wheres.len() && c.wheres[j] == w;
        assert(fold_plan::where_sound(c, c.wheres[j], f));
        fold_plan::lemma_pair_in(w, c.vars);
        let (a, b) = fold_plan::pair_of(w, c.vars)->0;
        let (level, other) = fold_plan::level_of(a, b, f);
        lemma_marks(p0, f, hops, p, level);
        lemma_bound_first(p0, f, hops, p, other, level);
        assert(hops[i].v().inline[k] == hops[i].inline@[k].v());
        assert(aggregate::inline_vi(hops[i].inline@[k].v()) == other);
        assert(p.hops[i].preds[k] == fold::pred_view(p.g, hops[i].inline@[k]));
    }
    if p.hops[i].preds.len() > 0 {
        let q = p.hops[i].preds[0];
        assert(p.hops[i].fold && p.hops[i].tgt is None);
    }
}

proof fn lemma_orderly(p0: AggV, f: Seq<bool>, hops: Seq<Hop>, p: FoldV)
    requires
        marked(p0, f, hops, p),
    ensures
        orderly(p),
{
    let c = p0.chain;
    assert(hop::steps_v(hops).len() == hops.len());
    ready::lemma_path_order(hops);
    assert forall|hi: int| 0 <= hi < p.hops.len() implies {
        let h = #[trigger] p.hops[hi];
        &&& 0 <= h.src < p.width
        &&& h.tokens == p.g.type_tokens(h.types)
        &&& h.fold && h.tgt is None ==> (h.end matches Some(u) && h.src < u < p.width)
        &&& h.tgt matches Some(t) ==> 0 <= t < p.width
        &&& forall|k: int|
            0 <= k < h.preds.len() ==> 0 <= fold_model::pred_var(#[trigger] h.preds[k]) < p.width
    } by {
        lemma_same_step(p0, f, hops, p, hi);
        lemma_tests(p0, f, hops, p, hi);
    }
    assert forall|a: int, b: int|
        #![trigger p.hops[a], p.hops[b]]
        0 <= a < p.hops.len() && 0 <= b < p.hops.len() && p.hops[a].fold && p.hops[a].tgt is None
            && p.hops[a].end == Some(p.hops[b].src) implies a < b && (p.hops[b].track
        && !p.hops[b].reset ==> p.hops[a].path == p.hops[b].path) by {
        assert(hops[a].end_vi == Some(hops[b].src));
    }
    assert(p.wf());
    assert forall|k: int| 0 <= k < p.hops.len() implies #[trigger] step_orderly(p, k) by {
        lemma_same_step(p0, f, hops, p, k);
        lemma_tests(p0, f, hops, p, k);
        let h = p.hops[k];
        assert(fold_plan::step_sound(p0, c.hops[k], f));
        assert(layout::step_laid(c.hops, 1, k));
        lemma_marks(p0, f, hops, p, h.src);
        match h.tgt {
            Some(t) => {
                lemma_marks(p0, f, hops, p, t);
                if h.fold {
                    lemma_bound_first(p0, f, hops, p, t, h.src);
                }
            },
            None => {},
        }
        if k > 0 {
            lemma_same_step(p0, f, hops, p, k - 1);
        }
    }
    assert forall|a: int, b: int|
        #![trigger p.hops[a], p.hops[b]]
        0 <= a < b < p.hops.len() && p.hops[a].tgt is None && p.hops[b].tgt is None implies p.hops[a].end->0
        < p.hops[b].end->0 by {
        lemma_one_step(p0, f, hops, p, a, b);
    }
}

/// A planned count is in order.
pub proof fn law_planned_count_is_orderly(
    q: Seq<ClauseV>,
    on: bool,
    p: AggV,
    g: Graph,
    hops: Seq<Hop>,
    width: int,
)
    requires
        aggregate::aggregate_of(q, on) == Some(p),
        q.len() > 0,
        q[0] matches ClauseV::Match { pattern, .. } && pattern_fits(pattern),
        p.chain.vars.len() <= usize::MAX,
        hop::steps_v(hops) == p.chain.hops,
        g.wf(),
        p.chain.vars.len() <= width,
    ensures
        orderly(chain_rows::count_view(g, hops, width)),
{
    let pattern = q[0]->Match_pattern;
    let where_ = q[0]->Match_where_;
    layout::law_steps_are_laid_out(pattern, preds::chain_allow());
    aggregate::law_steps_are_bound(pattern, preds::chain_allow());
    layout::law_planned_count_runs(q, on, p);
    let c = chain_of(pattern, where_)->0;
    let with = if q.len() == 3 {
        Some((q[1]->With_where_, q[2]->Return_proj))
    } else {
        None
    };
    let proj = if q.len() == 3 {
        q[1]->With_proj
    } else {
        q[1]->Return_proj
    };
    let p0 = aggregate_plan(c, proj, with)->0;
    assert(p == fold_plan::folded_plan(p0, on));
    aggregate::lemma_agg_wf(c, proj, with);
    assert(p0.chain == c);
    let v = chain_rows::count_view(g, hops, width);
    match fold_plan::fold_marks(p0, on) {
        Some(f) => {
            fold_plan::law_fold_reads_bound(p0, on);
            lemma_orderly(p0, f, hops, v);
        },
        None => {
            let f = Seq::new(c.vars.len(), |i: int| false);
            let cf = fold_plan::with_folds(c, f);
            assert forall|i: int| 0 <= i < c.hops.len() implies cf.hops[i] == c.hops[i] by {
                assert(fold_plan::step_wf(c.hops[i], c.vars.len()));
                let at = fold_plan::inlines_at(c, c.wheres, f, i);
                assert(at.len() == 0) by {
                    if at.len() > 0 {
                        let w = seqs::lemma_keep_map_at(
                            c.wheres,
                            |w: WhereV|
                                fold_plan::where_folds(c, w, f) && fold_plan::where_at(c, w, f) == i,
                            |w: WhereV| fold_plan::inline_of(c, w, f),
                            0,
                        );
                        fold_plan::lemma_pair_in(w, c.vars);
                    }
                }
                assert(cf.hops[i].inline =~= c.hops[i].inline);
            }
            assert(cf.hops =~= c.hops);
            assert forall|i: int| 0 <= i < c.hops.len() implies fold_plan::step_sound(
                p0,
                #[trigger] c.hops[i],
                f,
            ) by {
                assert(fold_plan::step_wf(c.hops[i], c.vars.len()));
            }
            assert forall|i: int| 0 <= i < c.wheres.len() implies fold_plan::where_sound(
                c,
                #[trigger] c.wheres[i],
                f,
            ) by {
                fold_plan::lemma_pair_in(c.wheres[i], c.vars);
            }
            lemma_orderly(p0, f, hops, v);
        },
    }
}

/// What a planned count stands for from a start is the number of matches that
/// taking every step of its pattern row by row finds from there.
pub proof fn law_planned_count_is_expanding(
    q: Seq<ClauseV>,
    on: bool,
    p: AggV,
    g: Graph,
    hops: Seq<Hop>,
    width: int,
    bind: Seq<u64>,
)
    requires
        aggregate::aggregate_of(q, on) == Some(p),
        q.len() > 0,
        q[0] matches ClauseV::Match { pattern, .. } && pattern_fits(pattern),
        p.chain.vars.len() <= usize::MAX,
        hop::steps_v(hops) == p.chain.hops,
        g.wf(),
        p.chain.vars.len() <= width,
        bind.len() == width,
    ensures
        fold_law::weighted(chain_rows::count_view(g, hops, width), 0, bind, Seq::empty())
            == fold_law::walks(chain_rows::count_view(g, hops, width), 0, bind, Seq::empty()),
{
    law_planned_count_is_orderly(q, on, p, g, hops, width);
    fold_law::law_counting_is_expanding(chain_rows::count_view(g, hops, width), bind);
}

/// A planned count without conditions builds rows that stand for the rows of
/// its pattern: their weights add up to the number of rows that are built when
/// every step is taken row by row.
pub proof fn law_planned_rows_stand_for_rows(
    q: Seq<ClauseV>,
    on: bool,
    p: AggV,
    b: BuildV,
    var: Seq<char>,
    ids: Seq<u64>,
    counted: StageV,
    plain: StageV,
)
    requires
        aggregate::aggregate_of(q, on) == Some(p),
        q.len() > 0,
        q[0] matches ClauseV::Match { pattern, .. } && pattern_fits(pattern),
        p.chain.vars.len() <= usize::MAX,
        hop::steps_v(b.hops) == p.chain.hops,
        b.g.wf(),
        counted_rows::plain_chain(b),
        b.filters.len() == 0,
        built(b, var, ids, b.hops.len() as int) == Built::At(counted),
        built(counted_rows::uncounted(b), var, ids, b.hops.len() as int) == Built::At(plain),
    ensures
        fold_run::weight_sum(counted.rows) == plain.rows.len(),
{
    let n = b.hops.len() as int;
    let width = chain_rows::fold_of(b).width;
    layout::law_planned_count_runs(q, on, p);
    ready::lemma_same_width(b.hops, n);
    fold_build::lemma_width_min(b.hops, chain_rows::bound_after(b.hops, n) as int);
    assert(hop::steps_v(b.hops).len() == b.hops.len());
    law_planned_count_is_orderly(q, on, p, b.g, b.hops, width);
    assert(tells_uncounted(chain_rows::fold_of(b), counted_rows::passes(b, var)));
    counted_rows::law_counted_rows_stand_for_rows(b, var, ids, counted, plain);
}

} // verus!
