//! A planned count of a reordered pattern is the count of the pattern.

use vstd::prelude::*;

use crate::aggregate;
use crate::aggregate::pattern_fits;
use crate::ast;
use crate::ast::{ExprV, KeyRef};
use crate::chain;
use crate::chain::HopsV;
use crate::chain_rows;
use crate::chain_rows::{built, BuildV, Built, StageV};
use crate::counted_rows;
use crate::fold;
use crate::fold_build;
use crate::fold_law;
use crate::fold_law::{bound_first, edge_bound, edge_taken, edge_walks_kept, orderly, step_orderly, tells_uncounted, walks_kept, weighted_kept};
use crate::fold_model::{below, hop_base, is_folded, pred_holds, pred_var, preds_hold, used_below, FoldV};
use crate::fold_plan;
use crate::fold_run;
use crate::graph;
use crate::graph::{Adj, Graph};
use crate::hop;
use crate::hop::{Hop, InlineV, StepHop};
use crate::layout;
use crate::match_law;
use crate::match_law::{node_sum, reached};
use crate::names;
use crate::order_law::{law_tests_may_move, same_but_tests, tests_pass, total_kept};
use crate::ordering::same_paths;
use crate::plan::{aggregate_plan, AggV};
use crate::planned;
use crate::preds;
use crate::preds::{chain_of, ChainV, WhereV};
use crate::query::{ClauseV, PathV};
use crate::read_law;
use crate::read_law::{carries, read, steps_of, test_var};
use crate::ready;
use crate::reorder::{seeded, walkable};
use crate::reorder_law;
use crate::reorder_law::{agree_by_name, pass_alike};
use crate::select::{column, Filter};
use crate::seqs;
use crate::traced;
use crate::traced::{bound_by, own_name, plainly_named, rel_named};

verus! {

/// What the rows of a count that are kept stand for, from every start with its
/// labels.
pub open spec fn counted_kept(
    p: FoldV,
    start: Seq<Seq<char>>,
    bind: Seq<u64>,
    keep: spec_fn(Seq<u64>) -> bool,
) -> nat {
    node_sum(
        p.g.labels@.len(),
        |x: u64|
            if carries(p.g, x, start) {
                weighted_kept(p, 0, bind.update(0, x), Seq::empty(), keep)
            } else {
                0
            },
    )
}

/// The node that a binding gives a name.
pub open spec fn node_named(vars: Seq<Seq<char>>, bind: Seq<u64>, x: Seq<char>) -> u64 {
    bind[names::position(vars, x)->0]
}

/// Whether a condition holds of a binding. A condition on one variable has a
/// verdict for each entity.
pub open spec fn cond_holds(
    g: Graph,
    verdict: spec_fn(ExprV, u64) -> bool,
    w: WhereV,
    vars: Seq<Seq<char>>,
    bind: Seq<u64>,
) -> bool {
    match (w.edge, w.id_other) {
        (Some(e), _) => (graph::closing(
            g.adj(node_named(vars, bind, e.src), e.dir, g.type_tokens(e.types)),
            node_named(vars, bind, e.dst),
            Seq::empty(),
        ) > 0) != e.negate,
        (None, Some((y, differ))) => (node_named(vars, bind, w.var) != node_named(vars, bind, y))
            == differ,
        (None, None) => verdict(w.expr, node_named(vars, bind, w.var)),
    }
}

/// Whether conditions hold of a binding.
pub open spec fn conds_hold(
    g: Graph,
    verdict: spec_fn(ExprV, u64) -> bool,
    ws: Seq<WhereV>,
    vars: Seq<Seq<char>>,
    bind: Seq<u64>,
) -> bool {
    forall|i: int| 0 <= i < ws.len() ==> cond_holds(g, verdict, #[trigger] ws[i], vars, bind)
}

/// The rows of a plan that pass its conditions.
pub open spec fn passing(g: Graph, verdict: spec_fn(ExprV, u64) -> bool, p: AggV) -> spec_fn(
    Seq<u64>,
) -> bool {
    |b: Seq<u64>| conds_hold(g, verdict, p.chain.wheres, p.chain.vars, b)
}

/// Whether a name is that of a node, and not one that is given to unnamed nodes.
pub open spec fn names_node(ps: Seq<PathV>, x: Seq<char>) -> bool {
    own_name(x) && !rel_named(ps, x)
}

/// Whether a condition is one on named nodes.
pub open spec fn about_nodes(ps: Seq<PathV>, w: WhereV) -> bool {
    &&& names_node(ps, w.var)
    &&& w.id_other matches Some((y, _)) ==> names_node(ps, y)
    &&& w.edge matches Some(e) ==> names_node(ps, e.src) && names_node(ps, e.dst)
}

/// Whether two clauses match on the same conditions, all of them on named nodes.
pub open spec fn same_conditions(a: ClauseV, b: ClauseV) -> bool {
    match (a, b) {
        (
            ClauseV::Match { pattern: p, where_: v, .. },
            ClauseV::Match { pattern: q, where_: w, .. },
        ) => match (chain_of(p, v), chain_of(q, w)) {
            (Some(c), Some(d)) => c.wheres == d.wheres && forall|i: int|
                0 <= i < c.wheres.len() ==> about_nodes(p.paths, #[trigger] c.wheres[i])
                    && about_nodes(q.paths, c.wheres[i]),
            _ => false,
        },
        _ => false,
    }
}

/// Two chains take the same steps, whichever of them they count.
spec fn same_steps(p: FoldV, q: FoldV) -> bool {
    &&& p.g == q.g
    &&& p.hops.len() == q.hops.len()
    &&& forall|k: int|
        0 <= k < p.hops.len() ==> {
            let a = #[trigger] p.hops[k];
            let b = q.hops[k];
            &&& a.src == b.src
            &&& a.dir == b.dir
            &&& a.tokens == b.tokens
            &&& a.members == b.members
            &&& a.track == b.track
            &&& a.reset == b.reset
            &&& a.tgt == b.tgt
            &&& a.end == b.end
            &&& a.preds == b.preds
        }
}

proof fn lemma_walks_same(
    p: FoldV,
    q: FoldV,
    k: int,
    bind: Seq<u64>,
    used: Seq<u64>,
    keep: spec_fn(Seq<u64>) -> bool,
)
    requires
        same_steps(p, q),
        0 <= k,
    ensures
        walks_kept(p, k, bind, used, keep) == walks_kept(q, k, bind, used, keep),
    decreases p.hops.len() - k, 1nat, 0nat,
{
    if k < p.hops.len() {
        let h = p.hops[k];
        lemma_edges_same(
            p,
            q,
            k,
            bind,
            hop_base(h, used),
            p.g.adj(bind[h.src], h.dir, h.tokens),
            keep,
        );
    }
}

proof fn lemma_edges_same(
    p: FoldV,
    q: FoldV,
    k: int,
    bind: Seq<u64>,
    base: Seq<u64>,
    es: Seq<Adj>,
    keep: spec_fn(Seq<u64>) -> bool,
)
    requires
        same_steps(p, q),
        0 <= k < p.hops.len(),
    ensures
        edge_walks_kept(p, k, bind, base, es, keep) == edge_walks_kept(q, k, bind, base, es, keep),
    decreases p.hops.len() - k, 0nat, es.len(),
{
    if es.len() > 0 {
        let e = es.last();
        let h = p.hops[k];
        lemma_edges_same(p, q, k, bind, base, es.drop_last(), keep);
        assert(edge_taken(p, k, bind, base, e) == edge_taken(q, k, bind, base, e));
        lemma_walks_same(p, q, k + 1, edge_bound(p, k, bind, e), used_below(h, base, e), keep);
    }
}

/// Steps of which none is counted.
spec fn uncounted(hops: Seq<Hop>) -> Seq<Hop> {
    hops.map_values(|h: Hop| Hop { fold: false, ..h })
}

/// The plan of a count before anything is counted.
proof fn lemma_unfolded(q: Seq<ClauseV>, on: bool, p: AggV) -> (p0: AggV)
    requires
        aggregate::aggregate_of(q, on) == Some(p),
        q.len() > 0,
        q[0] matches ClauseV::Match { pattern, .. } && pattern_fits(pattern),
        p.chain.vars.len() <= usize::MAX,
    ensures
        fold_plan::chain_wf(p0.chain),
        p == fold_plan::folded_plan(p0, on),
        chain_of(q[0]->Match_pattern, q[0]->Match_where_) == Some(p0.chain),
        p.chain.vars == p0.chain.vars,
        p.chain.a_labels == p0.chain.a_labels,
        p.chain.hops.len() == p0.chain.hops.len(),
{
    let c = chain_of(q[0]->Match_pattern, q[0]->Match_where_)->0;
    let with = if q.len() == 3 {
        Some((q[1]->With_where_, q[2]->Return_proj))
    } else {
        None
    };
    let proj = if q.len() == 3 {
        q[1]->With_proj
    } else {
        q[1]->Return_proj
    };
    let p0 = aggregate_plan(c, proj, with)->0;
    aggregate::law_steps_are_bound(q[0]->Match_pattern, preds::chain_allow());
    aggregate::lemma_agg_wf(c, proj, with);
    p0
}

/// A test of a counted step reads what is bound by then.
proof fn lemma_tests_bound(v: FoldV, k: int, i: int)
    requires
        orderly(v),
        0 <= k < v.hops.len(),
        v.hops[k].tgt is None,
        0 <= i < v.hops[k].preds.len(),
    ensures
        v.hops[k].end is Some,
        pred_var(v.hops[k].preds[i]) <= v.hops[k].end->0,
{
    assert(step_orderly(v, k));
    let h = v.hops[k];
    let o = pred_var(h.preds[i]);
    let e = h.end->0;
    assert(bound_first(v, o, e));
    if is_folded(v, o) {
        fold_law::lemma_not_past(v, o, e);
    } else {
        assert(is_folded(v, e));
        assert(below(v, e, e));
    }
}

/// The steps of a pattern that a count was planned on, apart from what it counts.
proof fn lemma_planned_steps(
    q: Seq<ClauseV>,
    on: bool,
    p: AggV,
    g: Graph,
    hops: Seq<Hop>,
    width: int,
) -> (h: HopsV)
    requires
        aggregate::aggregate_of(q, on) == Some(p),
        q.len() > 0,
        q[0] matches ClauseV::Match { pattern, .. } && pattern_fits(pattern) && plainly_named(
            pattern.paths,
        ) && forall|i: int| 0 <= i < pattern.paths.len() ==> walkable(#[trigger] pattern.paths[i]),
        hop::steps_v(hops) == p.chain.hops,
        p.chain.vars.len() <= usize::MAX,
        p.chain.vars.len() <= width,
        g.wf(),
    ensures
        chain::scan_hops(q[0]->Match_pattern, preds::chain_allow()) == Some(h),
        read(h, q[0]->Match_pattern.paths),
        steps_of(uncounted(hops), h),
        h.vars == p.chain.vars,
        h.a_labels == p.chain.a_labels,
{
    let pattern = q[0]->Match_pattern;
    let h = chain::scan_hops(pattern, preds::chain_allow())->0;
    traced::law_steps_follow_paths(pattern, preds::chain_allow());
    layout::law_steps_are_laid_out(pattern, preds::chain_allow());
    assert(read(h, pattern.paths));
    let p0 = lemma_unfolded(q, on, p);
    let s = hop::steps_v(hops);
    let u = uncounted(hops);
    let v = chain_rows::count_view(g, hops, width);
    planned::law_planned_count_is_orderly(q, on, p, g, hops, width);
    assert(s.len() == hops.len());
    assert forall|k: int| 0 <= k < u.len() implies h.hops[k] == (StepHop {
        inline: h.hops[k].inline,
        ..(#[trigger] u[k]).v()
    }) by {
        read_law::lemma_read_plain(h, pattern.paths, k);
        assert(s[k] == hops[k].v());
        assert(u[k].v() == StepHop { fold: false, ..s[k] });
        assert(p.chain.hops[k] == s[k]);
        assert(StepHop { fold: false, inline: h.hops[k].inline, ..s[k] } == h.hops[k]);
    }
    assert forall|k: int, i: int|
        0 <= k < u.len() && 0 <= i < u[k].inline@.len() && u[k].tgt is None implies (
    u[k].end_vi matches Some(e) && test_var(#[trigger] u[k].inline@[i]) <= e) by {
        assert(u[k].inline == hops[k].inline);
        lemma_tests_bound(v, k, i);
        assert(v.hops[k].preds[i] == fold::pred_view(g, hops[k].inline@[i]));
    }
    h
}

/// What the rows that are kept of a planned count stand for is what is kept of
/// what its steps find row by row, from every start.
proof fn lemma_counted(
    q: Seq<ClauseV>,
    on: bool,
    p: AggV,
    g: Graph,
    hops: Seq<Hop>,
    width: int,
    bind: Seq<u64>,
    keep: spec_fn(Seq<u64>) -> bool,
)
    requires
        aggregate::aggregate_of(q, on) == Some(p),
        q.len() > 0,
        q[0] matches ClauseV::Match { pattern, .. } && pattern_fits(pattern),
        p.chain.vars.len() <= usize::MAX,
        hop::steps_v(hops) == p.chain.hops,
        g.wf(),
        p.chain.vars.len() <= width,
        bind.len() == width,
        tells_uncounted(chain_rows::count_view(g, hops, width), keep),
    ensures
        counted_kept(chain_rows::count_view(g, hops, width), p.chain.a_labels, bind, keep)
            == total_kept(
            chain_rows::count_view(g, uncounted(hops), width),
            |n: u64| carries(g, n, p.chain.a_labels),
            bind,
            keep,
        ),
{
    let v = chain_rows::count_view(g, hops, width);
    let w = chain_rows::count_view(g, uncounted(hops), width);
    let start = p.chain.a_labels;
    let seed = |n: u64| carries(g, n, start);
    assert(same_steps(v, w)) by {
        assert forall|k: int| 0 <= k < v.hops.len() implies {
            let a = #[trigger] v.hops[k];
            let b = w.hops[k];
            &&& a.src == b.src
            &&& a.dir == b.dir
            &&& a.tokens == b.tokens
            &&& a.members == b.members
            &&& a.track == b.track
            &&& a.reset == b.reset
            &&& a.tgt == b.tgt
            &&& a.end == b.end
            &&& a.preds == b.preds
        } by {
            assert(uncounted(hops)[k] == Hop { fold: false, ..hops[k] });
        }
    }
    let x1 = |x: u64|
        if carries(v.g, x, start) {
            weighted_kept(v, 0, bind.update(0, x), Seq::empty(), keep)
        } else {
            0
        };
    let x2 = |x: u64|
        if seed(x) {
            walks_kept(w, 0, bind.update(0, x), Seq::empty(), keep)
        } else {
            0
        };
    planned::law_planned_count_is_orderly(q, on, p, g, hops, width);
    assert forall|x: u64| #[trigger] x1(x) == x2(x) by {
        fold_law::law_counting_keeps_what_expanding_keeps(v, bind.update(0, x), keep);
        lemma_walks_same(v, w, 0, bind.update(0, x), Seq::empty(), keep);
    }
    match_law::lemma_nodes_same(g.labels@.len(), x1, x2);
}

proof fn lemma_reader_in(e: ExprV, vars: Seq<Seq<char>>)
    ensures
        ast::sole_reader(e, vars) matches Some(i) ==> 0 <= i < vars.len(),
    decreases vars.len(),
{
    if vars.len() > 0 {
        lemma_reader_in(e, vars.drop_last());
    }
}

/// A condition reads bound variables.
proof fn lemma_reads_bound(q: ClauseV, w: WhereV)
    requires
        q is Match,
        chain_of(q->Match_pattern, q->Match_where_) matches Some(c) && c.vars.len() <= usize::MAX
            && c.wheres.contains(w),
    ensures
        ({
            let vars = chain_of(q->Match_pattern, q->Match_where_)->0.vars;
            &&& vars.contains(w.var)
            &&& w.edge is None ==> (w.id_other matches Some((y, _)) ==> vars.contains(y))
            &&& w.edge matches Some(e) ==> vars.contains(e.src) && vars.contains(e.dst)
        }),
{
    let h = chain::scan_hops(q->Match_pattern, preds::chain_allow())->0;
    let c = chain_of(q->Match_pattern, q->Match_where_)->0;
    let full = preds::full_where(h, q->Match_where_);
    let i = choose|i: int| 0 <= i < c.wheres.len() && c.wheres[i] == w;
    let e = ast::conjuncts(full->0)[i];
    assert(preds::where_pred(e, h.vars) == Some(w));
    match ast::key_class(e, h.vars) {
        Some(KeyRef::Var(k)) => {
            lemma_reader_in(e, h.vars);
            assert(h.vars.contains(h.vars[k as int]));
        },
        _ => {},
    }
}

/// Whether a test holds of a node.
spec fn inline_holds(g: Graph, bind: Seq<u64>, node: u64, t: InlineV) -> bool {
    match t {
        InlineV::Ne(o) => node != bind[o],
        InlineV::Eq(o) => node == bind[o],
        InlineV::Edge { vi, dir, types, negate } => (graph::closing(
            g.adj(node, dir, g.type_tokens(types)),
            bind[vi],
            Seq::empty(),
        ) > 0) != negate,
    }
}

/// A counted condition is the test that it becomes.
proof fn lemma_condition_is_test(
    g: Graph,
    verdict: spec_fn(ExprV, u64) -> bool,
    c: ChainV,
    f: Seq<bool>,
    w: WhereV,
    bind: Seq<u64>,
)
    requires
        g.wf(),
        fold_plan::where_folds(c, w, f),
    ensures
        ({
            let (a, b) = fold_plan::pair_of(w, c.vars)->0;
            inline_holds(
                g,
                bind,
                bind[fold_plan::level_of(a, b, f).0],
                fold_plan::inline_of(c, w, f),
            ) == cond_holds(g, verdict, w, c.vars, bind)
        }),
{
    let (a, b) = fold_plan::pair_of(w, c.vars)->0;
    match w.edge {
        Some(e) => {
            graph::law_bound_probe(
                g,
                bind[a],
                bind[b],
                e.dir,
                g.type_tokens(e.types),
                Seq::empty(),
            );
        },
        None => {},
    }
}

/// A test of a step is what its view is.
proof fn lemma_test_view(g: Graph, hops: Seq<Hop>, k: int, i: int, bind: Seq<u64>, node: u64)
    requires
        0 <= k < hops.len(),
        0 <= i < hops[k].inline@.len(),
    ensures
        hops[k].v().inline.len() == hops[k].inline@.len(),
        pred_holds(g, bind, node, fold::pred_view(g, hops[k].inline@[i])) == inline_holds(
            g,
            bind,
            node,
            hops[k].v().inline[i],
        ),
{
    assert(hops[k].v().inline[i] == hops[k].inline@[i].v());
}

/// [`lemma_passes`] for a plan that counts something.
proof fn lemma_folded_passes(
    p0: AggV,
    on: bool,
    p: AggV,
    g: Graph,
    hops: Seq<Hop>,
    width: int,
    verdict: spec_fn(ExprV, u64) -> bool,
    bind: Seq<u64>,
)
    requires
        fold_plan::fold_marks(p0, on) is Some,
        p == fold_plan::folded_plan(p0, on),
        fold_plan::chain_wf(p0.chain),
        hop::steps_v(hops) == p.chain.hops,
        forall|k: int| 0 <= k < p0.chain.hops.len() ==> (#[trigger] p0.chain.hops[k]).inline.len() == 0,
        g.wf(),
    ensures
        (passing(g, verdict, p)(bind) && tests_pass(
            chain_rows::count_view(g, uncounted(hops), width),
            bind,
        )) == conds_hold(g, verdict, p0.chain.wheres, p0.chain.vars, bind),
{
    let c = p0.chain;
    let f = fold_plan::fold_marks(p0, on)->0;
    let u = uncounted(hops);
    let v = chain_rows::count_view(g, u, width);
    let s = hop::steps_v(hops);
    let left = p.chain.wheres;
    fold_plan::law_fold_reads_bound(p0, on);
    assert(s.len() == hops.len());
    if conds_hold(g, verdict, c.wheres, c.vars, bind) {
        assert forall|i: int| 0 <= i < left.len() implies cond_holds(
            g,
            verdict,
            #[trigger] left[i],
            c.vars,
            bind,
        ) by {
            fold_plan::law_fold_keeps_conjuncts(c, f, left[i]);
            assert(left.contains(left[i]));
            let j = choose|j: int| 0 <= j < c.wheres.len() && c.wheres[j] == left[i];
            assert(cond_holds(g, verdict, c.wheres[j], c.vars, bind));
        }
        assert forall|k: int| 0 <= k < v.hops.len() && (#[trigger] v.hops[k]).tgt is None implies preds_hold(
            v.g,
            bind,
            reached(v, k, bind),
            v.hops[k].preds,
        ) by {
            let node = reached(v, k, bind);
            assert(s[k] == hops[k].v());
            assert forall|i: int| 0 <= i < v.hops[k].preds.len() implies pred_holds(
                g,
                bind,
                node,
                #[trigger] v.hops[k].preds[i],
            ) by {
                lemma_test_view(g, hops, k, i, bind, node);
                let at = fold_plan::inlines_at(c, c.wheres, f, k);
                assert(c.hops[k].inline.len() == 0);
                assert(c.hops[k].inline + at =~= at);
                assert(hops[k].v().inline == at);
                let w = seqs::lemma_keep_map_at(
                    c.wheres,
                    |w: WhereV| fold_plan::where_folds(c, w, f) && fold_plan::where_at(c, w, f) == k,
                    |w: WhereV| fold_plan::inline_of(c, w, f),
                    i,
                );
                let j = choose|j: int| 0 <= j < c.wheres.len() && c.wheres[j] == w;
                assert(cond_holds(g, verdict, c.wheres[j], c.vars, bind));
                assert(fold_plan::where_sound(c, c.wheres[j], f));
                lemma_condition_is_test(g, verdict, c, f, w, bind);
                lemma_level(p0, f, w);
                assert(c.hops[k].end_vi == Some(
                    fold_plan::level_of(
                        (fold_plan::pair_of(w, c.vars)->0).0,
                        (fold_plan::pair_of(w, c.vars)->0).1,
                        f,
                    ).0,
                ));
            }
        }
    }
    if passing(g, verdict, p)(bind) && tests_pass(v, bind) {
        assert forall|j: int| 0 <= j < c.wheres.len() implies cond_holds(
            g,
            verdict,
            #[trigger] c.wheres[j],
            c.vars,
            bind,
        ) by {
            let w = c.wheres[j];
            assert(c.wheres.contains(w));
            fold_plan::law_fold_keeps_conjuncts(c, f, w);
            if fold_plan::where_folds(c, w, f) {
                assert(fold_plan::where_sound(c, c.wheres[j], f));
                lemma_level(p0, f, w);
                let k = fold_plan::where_at(c, w, f);
                assert(s[k] == hops[k].v());
                let keep = |w: WhereV|
                    fold_plan::where_folds(c, w, f) && fold_plan::where_at(c, w, f) == k;
                let at = fold_plan::inlines_at(c, c.wheres, f, k);
                seqs::lemma_filter_contains(c.wheres, keep, w);
                let i = choose|i: int|
                    0 <= i < c.wheres.filter(keep).len() && c.wheres.filter(keep)[i] == w;
                assert(at[i] == fold_plan::inline_of(c, w, f));
                assert(c.hops[k].inline.len() == 0);
                assert(c.hops[k].inline + at =~= at);
                assert(hops[k].v().inline == at);
                let node = reached(v, k, bind);
                assert(v.hops[k].tgt is None);
                assert(hops[k].v().inline.len() == hops[k].inline@.len());
                lemma_test_view(g, hops, k, i, bind, node);
                assert(pred_holds(g, bind, node, v.hops[k].preds[i]));
                lemma_condition_is_test(g, verdict, c, f, w, bind);
            } else {
                let i = choose|i: int| 0 <= i < left.len() && left[i] == w;
                assert(cond_holds(g, verdict, left[i], c.vars, bind));
            }
        }
    }
}

/// A counted condition is tested where its level is bound.
proof fn lemma_level(p: AggV, f: Seq<bool>, w: WhereV)
    requires
        fold_plan::chain_wf(p.chain),
        f.len() == p.chain.vars.len(),
        forall|v: int|
            0 <= v < p.chain.vars.len() && #[trigger] f[v] ==> fold_plan::starts_folded(p, v),
        fold_plan::where_folds(p.chain, w, f),
        fold_plan::where_sound(p.chain, w, f),
    ensures
        ({
            let (a, b) = fold_plan::pair_of(w, p.chain.vars)->0;
            let k = fold_plan::where_at(p.chain, w, f);
            &&& 0 <= k < p.chain.hops.len()
            &&& p.chain.hops[k].end_vi == Some(fold_plan::level_of(a, b, f).0)
            &&& p.chain.hops[k].tgt is None
        }),
{
    let (a, b) = fold_plan::pair_of(w, p.chain.vars)->0;
    let level = fold_plan::level_of(a, b, f).0;
    fold_plan::lemma_pair_in(w, p.chain.vars);
    assert(fold_plan::starts_folded(p, level));
    fold_plan::lemma_binder(p.chain.hops, level);
    let k = fold_plan::where_at(p.chain, w, f);
    assert(fold_plan::step_wf(p.chain.hops[k], p.chain.vars.len()));
}

/// What a plan still tests of its rows is told by what it does not count.
proof fn lemma_tells(
    q: Seq<ClauseV>,
    on: bool,
    p: AggV,
    g: Graph,
    hops: Seq<Hop>,
    width: int,
    h: HopsV,
    verdict: spec_fn(ExprV, u64) -> bool,
)
    requires
        aggregate::aggregate_of(q, on) == Some(p),
        q.len() > 0,
        q[0] matches ClauseV::Match { pattern, .. } && pattern_fits(pattern),
        chain::scan_hops(q[0]->Match_pattern, preds::chain_allow()) == Some(h),
        read(h, q[0]->Match_pattern.paths),
        hop::steps_v(hops) == p.chain.hops,
        p.chain.vars.len() <= usize::MAX,
        p.chain.vars.len() <= width,
    ensures
        tells_uncounted(chain_rows::count_view(g, hops, width), passing(g, verdict, p)),
{
    let p0 = lemma_unfolded(q, on, p);
    let c = p0.chain;
    let v = chain_rows::count_view(g, hops, width);
    let keep = passing(g, verdict, p);
    let left = p.chain.wheres;
    assert forall|b: Seq<u64>, z: Seq<u64>|
        #![trigger keep(b), keep(z)]
        b.len() == v.width && z.len() == v.width && (forall|x: int|
            0 <= x < v.width && !#[trigger] is_folded(v, x) ==> b[x] == z[x]) implies keep(b) == keep(
        z,
    ) by {
        assert forall|i: int| 0 <= i < left.len() implies cond_holds(
            g,
            verdict,
            #[trigger] left[i],
            c.vars,
            b,
        ) == cond_holds(g, verdict, left[i], c.vars, z) by {
            assert(left.contains(left[i]));
            lemma_left_reads(q, on, p, p0, g, hops, width, h, left[i]);
        }
        if keep(b) {
            assert forall|i: int| 0 <= i < left.len() implies cond_holds(
                g,
                verdict,
                #[trigger] left[i],
                c.vars,
                z,
            ) by {
                assert(cond_holds(g, verdict, left[i], c.vars, b));
            }
        }
        if keep(z) {
            assert forall|i: int| 0 <= i < left.len() implies cond_holds(
                g,
                verdict,
                #[trigger] left[i],
                c.vars,
                b,
            ) by {
                assert(cond_holds(g, verdict, left[i], c.vars, z));
            }
        }
    }
}

/// Counting under conditions is expanding under them: whatever the verdict on each
/// entity is, the rows of a planned count that pass stand for the matches that
/// pass when every step is taken row by row.
pub proof fn law_planned_count_passes_what_expanding_passes(
    q: Seq<ClauseV>,
    on: bool,
    p: AggV,
    g: Graph,
    hops: Seq<Hop>,
    width: int,
    bind: Seq<u64>,
    verdict: spec_fn(ExprV, u64) -> bool,
)
    requires
        aggregate::aggregate_of(q, on) == Some(p),
        q.len() > 0,
        q[0] matches ClauseV::Match { pattern, .. } && pattern_fits(pattern) && plainly_named(
            pattern.paths,
        ) && forall|i: int| 0 <= i < pattern.paths.len() ==> walkable(#[trigger] pattern.paths[i]),
        hop::steps_v(hops) == p.chain.hops,
        p.chain.vars.len() <= usize::MAX,
        p.chain.vars.len() <= width,
        bind.len() == width,
        g.wf(),
    ensures
        weighted_kept(
            chain_rows::count_view(g, hops, width),
            0,
            bind,
            Seq::empty(),
            passing(g, verdict, p),
        ) == walks_kept(
            chain_rows::count_view(g, hops, width),
            0,
            bind,
            Seq::empty(),
            passing(g, verdict, p),
        ),
{
    let h = lemma_planned_steps(q, on, p, g, hops, width);
    lemma_tells(q, on, p, g, hops, width, h, verdict);
    planned::law_planned_count_is_orderly(q, on, p, g, hops, width);
    fold_law::law_counting_keeps_what_expanding_keeps(
        chain_rows::count_view(g, hops, width),
        bind,
        passing(g, verdict, p),
    );
}

/// Whether a name is bound to a variable that is not counted.
spec fn uncounted_name(v: FoldV, vars: Seq<Seq<char>>, x: Seq<char>) -> bool {
    names::position(vars, x) matches Some(i) && 0 <= i < vars.len() && !is_folded(v, i)
}

/// A condition that a plan still tests reads nothing that is counted.
proof fn lemma_left_reads(
    q: Seq<ClauseV>,
    on: bool,
    p: AggV,
    p0: AggV,
    g: Graph,
    hops: Seq<Hop>,
    width: int,
    h: HopsV,
    w: WhereV,
)
    requires
        q.len() > 0,
        q[0] is Match,
        chain::scan_hops(q[0]->Match_pattern, preds::chain_allow()) == Some(h),
        read(h, q[0]->Match_pattern.paths),
        fold_plan::chain_wf(p0.chain),
        p == fold_plan::folded_plan(p0, on),
        chain_of(q[0]->Match_pattern, q[0]->Match_where_) == Some(p0.chain),
        hop::steps_v(hops) == p.chain.hops,
        p.chain.vars.len() <= usize::MAX,
        p.chain.wheres.contains(w),
    ensures
        ({
            let v = chain_rows::count_view(g, hops, width);
            let vars = p0.chain.vars;
            match (w.edge, w.id_other) {
                (Some(e), _) => uncounted_name(v, vars, e.src) && uncounted_name(v, vars, e.dst),
                (None, Some((y, _))) => uncounted_name(v, vars, w.var) && uncounted_name(v, vars, y),
                (None, None) => uncounted_name(v, vars, w.var),
            }
        }),
{
    let c = p0.chain;
    let v = chain_rows::count_view(g, hops, width);
    let s = hop::steps_v(hops);
    assert(s.len() == hops.len());
    match fold_plan::fold_marks(p0, on) {
        None => {
            assert forall|x: int| !is_folded(v, x) by {
                if is_folded(v, x) {
                    let k = choose|k: int|
                        0 <= k < v.hops.len() && (#[trigger] v.hops[k]).fold && v.hops[k].tgt is None
                            && v.hops[k].end == Some(x);
                    assert(s[k] == hops[k].v());
                    read_law::lemma_read_plain(h, q[0]->Match_pattern.paths, k);
                }
            }
        },
        Some(f) => {
            fold_plan::law_fold_reads_bound(p0, on);
            fold_plan::law_fold_keeps_conjuncts(c, f, w);
            assert forall|x: int| is_folded(v, x) implies 0 <= x < c.vars.len() && f[x]
                && !fold_plan::is_read(p0, x) by {
                let k = choose|k: int|
                    0 <= k < v.hops.len() && (#[trigger] v.hops[k]).fold && v.hops[k].tgt is None
                        && v.hops[k].end == Some(x);
                assert(s[k] == hops[k].v());
                assert(fold_plan::step_wf(c.hops[k], c.vars.len()));
                assert(fold_plan::starts_folded(p0, x));
            }
            fold_plan::lemma_pair_in(w, c.vars);
        },
    }
    assert(c.wheres.contains(w));
    let j = choose|j: int| 0 <= j < c.wheres.len() && c.wheres[j] == w;
    lemma_reads_bound(q[0], w);
    names::lemma_position(c.vars, w.var);
    match w.edge {
        Some(e) => {
            names::lemma_position(c.vars, e.src);
            names::lemma_position(c.vars, e.dst);
        },
        None => {},
    }
    match w.id_other {
        Some((y, _)) => {
            names::lemma_position(c.vars, y);
        },
        None => {},
    }
    assert(forall|x: int|
        fold_plan::where_reads(c.wheres[j], c, x) ==> #[trigger] fold_plan::is_read(p0, x));
}

/// A binding passes the conditions and the tests of a plan where it passes the
/// conditions that the plan was made with.
proof fn lemma_passes(
    q: Seq<ClauseV>,
    on: bool,
    p: AggV,
    g: Graph,
    hops: Seq<Hop>,
    width: int,
    h: HopsV,
    verdict: spec_fn(ExprV, u64) -> bool,
    bind: Seq<u64>,
)
    requires
        aggregate::aggregate_of(q, on) == Some(p),
        q.len() > 0,
        q[0] matches ClauseV::Match { pattern, .. } && pattern_fits(pattern),
        hop::steps_v(hops) == p.chain.hops,
        p.chain.vars.len() <= usize::MAX,
        p.chain.vars.len() <= width,
        g.wf(),
        chain::scan_hops(q[0]->Match_pattern, preds::chain_allow()) == Some(h),
        read(h, q[0]->Match_pattern.paths),
    ensures
        (passing(g, verdict, p)(bind) && tests_pass(
            chain_rows::count_view(g, uncounted(hops), width),
            bind,
        )) == conds_hold(
            g,
            verdict,
            chain_of(q[0]->Match_pattern, q[0]->Match_where_)->0.wheres,
            p.chain.vars,
            bind,
        ),
{
    let p0 = lemma_unfolded(q, on, p);
    let c = p0.chain;
    let v = chain_rows::count_view(g, uncounted(hops), width);
    let s = hop::steps_v(hops);
    assert(s.len() == hops.len());
    assert forall|k: int| 0 <= k < hops.len() implies #[trigger] hops[k].v() == p.chain.hops[k]
        && h.hops[k].inline.len() == 0 && uncounted(hops)[k].inline == hops[k].inline by {
        assert(s[k] == hops[k].v());
        read_law::lemma_read_plain(h, q[0]->Match_pattern.paths, k);
    }
    match fold_plan::fold_marks(p0, on) {
        None => {
            assert(tests_pass(v, bind)) by {
                assert forall|k: int|
                    0 <= k < v.hops.len() && (#[trigger] v.hops[k]).tgt is None implies preds_hold(
                    v.g,
                    bind,
                    reached(v, k, bind),
                    v.hops[k].preds,
                ) by {
                    assert(hops[k].v() == p.chain.hops[k]);
                    assert(hops[k].v().inline.len() == hops[k].inline@.len());
                }
            }
        },
        Some(f) => {
            assert forall|k: int| 0 <= k < c.hops.len() implies (#[trigger] c.hops[k]).inline.len()
                == 0 by {
                read_law::lemma_read_plain(h, q[0]->Match_pattern.paths, k);
            }
            lemma_folded_passes(p0, on, p, g, hops, width, verdict, bind);
        },
    }
}

/// The bindings of two plans that agree by name pass the same conditions.
proof fn lemma_conds_alike(
    g: Graph,
    verdict: spec_fn(ExprV, u64) -> bool,
    q: ClauseV,
    a: HopsV,
    b: Seq<u64>,
    r: ClauseV,
    z: HopsV,
    c: Seq<u64>,
)
    requires
        same_conditions(q, r),
        chain::scan_hops(q->Match_pattern, preds::chain_allow()) == Some(a),
        chain::scan_hops(r->Match_pattern, preds::chain_allow()) == Some(z),
        read(a, q->Match_pattern.paths),
        a.vars.len() <= usize::MAX,
        z.vars.len() <= usize::MAX,
        agree_by_name(a, b, z, c),
    ensures
        conds_hold(
            g,
            verdict,
            chain_of(q->Match_pattern, q->Match_where_)->0.wheres,
            a.vars,
            b,
        ) == conds_hold(
            g,
            verdict,
            chain_of(r->Match_pattern, r->Match_where_)->0.wheres,
            z.vars,
            c,
        ),
{
    let ws = chain_of(q->Match_pattern, q->Match_where_)->0.wheres;
    let ps = q->Match_pattern.paths;
    assert forall|x: Seq<char>|
        names_node(ps, x) && a.vars.contains(x) && z.vars.contains(x) implies #[trigger] node_named(
        a.vars,
        b,
        x,
    ) == node_named(z.vars, c, x) by {
        names::lemma_position(a.vars, x);
        names::lemma_position(z.vars, x);
        let v = names::position(a.vars, x)->0;
        let w = names::position(z.vars, x)->0;
        assert(a.vars[v] == x && z.vars[w] == x);
        assert(v == 0 || bound_by(a.hops, v));
    }
    assert forall|i: int| 0 <= i < ws.len() implies cond_holds(
        g,
        verdict,
        #[trigger] ws[i],
        a.vars,
        b,
    ) == cond_holds(g, verdict, ws[i], z.vars, c) by {
        assert(ws.contains(ws[i]));
        lemma_reads_bound(q, ws[i]);
        lemma_reads_bound(r, ws[i]);
        assert(about_nodes(ps, ws[i]));
    }
    if conds_hold(g, verdict, ws, a.vars, b) {
        assert forall|i: int| 0 <= i < ws.len() implies cond_holds(
            g,
            verdict,
            #[trigger] ws[i],
            z.vars,
            c,
        ) by {
            assert(cond_holds(g, verdict, ws[i], a.vars, b));
        }
    }
    if conds_hold(g, verdict, ws, z.vars, c) {
        assert forall|i: int| 0 <= i < ws.len() implies cond_holds(
            g,
            verdict,
            #[trigger] ws[i],
            a.vars,
            b,
        ) by {
            assert(cond_holds(g, verdict, ws[i], z.vars, c));
        }
    }
}

/// A count of a reordered pattern is the count of the pattern: where both are
/// planned on the same conditions, whatever the verdict on each entity is, the
/// rows that pass stand for the same number of matches, whether or not either may
/// count, whichever steps each of them counts in place of expanding and whichever
/// conditions each tests while it counts. The conditions are on named nodes.
pub proof fn law_reordered_count_is_same(
    g: Graph,
    verdict: spec_fn(ExprV, u64) -> bool,
    q: Seq<ClauseV>,
    on: bool,
    p: AggV,
    hops: Seq<Hop>,
    width: int,
    bind: Seq<u64>,
    kept: Seq<PathV>,
    seed: Seq<char>,
    rows: u64,
    order: Seq<usize>,
    q2: Seq<ClauseV>,
    on2: bool,
    p2: AggV,
    hops2: Seq<Hop>,
    width2: int,
    bind2: Seq<u64>,
)
    requires
        g.wf(),
        g.labels@.len() <= u64::MAX,
        q.len() > 0,
        q2.len() > 0,
        aggregate::aggregate_of(q, on) == Some(p),
        aggregate::aggregate_of(q2, on2) == Some(p2),
        q[0] matches ClauseV::Match { pattern, .. } && pattern_fits(pattern) && plainly_named(
            pattern.paths,
        ) && seeded(g, pattern) == Some((kept, seed, rows)),
        q2[0] matches ClauseV::Match { pattern, .. } && same_paths(kept, order, pattern.paths),
        order.len() == kept.len(),
        same_conditions(q[0], q2[0]),
        hop::steps_v(hops) == p.chain.hops,
        hop::steps_v(hops2) == p2.chain.hops,
        p.chain.vars.len() <= usize::MAX,
        p2.chain.vars.len() <= usize::MAX,
        p.chain.vars.len() <= width,
        p2.chain.vars.len() <= width2,
        bind.len() == width,
        bind2.len() == width2,
    ensures
        counted_kept(
            chain_rows::count_view(g, hops, width),
            p.chain.a_labels,
            bind,
            passing(g, verdict, p),
        ) == counted_kept(
            chain_rows::count_view(g, hops2, width2),
            p2.chain.a_labels,
            bind2,
            passing(g, verdict, p2),
        ),
{
    let pattern = q[0]->Match_pattern;
    let other = q2[0]->Match_pattern;
    let allow = preds::chain_allow();
    let keep = passing(g, verdict, p);
    let save = passing(g, verdict, p2);
    let h = lemma_planned_steps(q, on, p, g, hops, width);
    reorder_law::lemma_other_fits(g, pattern, kept, seed, rows, order, other, allow, h);
    let h2 = lemma_planned_steps(q2, on2, p2, g, hops2, width2);
    lemma_tells(q, on, p, g, hops, width, h, verdict);
    lemma_tells(q2, on2, p2, g, hops2, width2, h2, verdict);
    lemma_counted(q, on, p, g, hops, width, bind, keep);
    lemma_counted(q2, on2, p2, g, hops2, width2, bind2, save);
    let v = chain_rows::count_view(g, uncounted(hops), width);
    let w = chain_rows::count_view(g, uncounted(hops2), width2);
    assert(pass_alike(v, keep, h, w, save, h2)) by {
        assert forall|b: Seq<u64>, c: Seq<u64>|
            #![trigger keep(b), save(c)]
            b.len() == v.width && c.len() == w.width && agree_by_name(h, b, h2, c) implies (keep(b)
            && tests_pass(v, b)) == (save(c) && tests_pass(w, c)) by {
            lemma_passes(q, on, p, g, hops, width, h, verdict, b);
            lemma_passes(q2, on2, p2, g, hops2, width2, h2, verdict, c);
            lemma_conds_alike(g, verdict, q[0], h, b, q2[0], h2, c);
        }
    }
    reorder_law::law_reordering_keeps_count(
        g,
        pattern,
        kept,
        seed,
        rows,
        order,
        other,
        allow,
        h,
        uncounted(hops),
        width,
        bind,
        keep,
        h2,
        uncounted(hops2),
        width2,
        bind2,
        save,
    );
}

/// Whether a plan may count changes no count: two plans of one query, of which
/// either may count or may not, have rows that stand for the same number of matches
/// that pass the query's conditions.
pub proof fn law_counting_lever_keeps_count(
    g: Graph,
    verdict: spec_fn(ExprV, u64) -> bool,
    q: Seq<ClauseV>,
    on: bool,
    p: AggV,
    hops: Seq<Hop>,
    on2: bool,
    p2: AggV,
    hops2: Seq<Hop>,
    width: int,
    bind: Seq<u64>,
)
    requires
        g.wf(),
        g.labels@.len() <= u64::MAX,
        q.len() > 0,
        q[0] matches ClauseV::Match { pattern, .. } && pattern_fits(pattern) && plainly_named(
            pattern.paths,
        ) && forall|i: int| 0 <= i < pattern.paths.len() ==> walkable(#[trigger] pattern.paths[i]),
        aggregate::aggregate_of(q, on) == Some(p),
        aggregate::aggregate_of(q, on2) == Some(p2),
        hop::steps_v(hops) == p.chain.hops,
        hop::steps_v(hops2) == p2.chain.hops,
        p.chain.vars.len() <= usize::MAX,
        p.chain.vars.len() <= width,
        bind.len() == width,
    ensures
        counted_kept(
            chain_rows::count_view(g, hops, width),
            p.chain.a_labels,
            bind,
            passing(g, verdict, p),
        ) == counted_kept(
            chain_rows::count_view(g, hops2, width),
            p2.chain.a_labels,
            bind,
            passing(g, verdict, p2),
        ),
{
    let keep = passing(g, verdict, p);
    let save = passing(g, verdict, p2);
    let paths = q[0]->Match_pattern.paths;
    let p0 = lemma_unfolded(q, on, p);
    let h = lemma_planned_steps(q, on, p, g, hops, width);
    assert(p2.chain.vars == p.chain.vars) by {
        lemma_vars_read(q, on2, p2, h);
    }
    let h2 = lemma_planned_steps(q, on2, p2, g, hops2, width);
    assert(h2 == h);
    lemma_tells(q, on, p, g, hops, width, h, verdict);
    lemma_tells(q, on2, p2, g, hops2, width, h, verdict);
    lemma_counted(q, on, p, g, hops, width, bind, keep);
    lemma_counted(q, on2, p2, g, hops2, width, bind, save);
    let v = chain_rows::count_view(g, uncounted(hops), width);
    let w = chain_rows::count_view(g, uncounted(hops2), width);
    read_law::lemma_read_ordered(g, h, uncounted(hops), width, paths);
    read_law::lemma_read_ordered(g, h, uncounted(hops2), width, paths);
    layout::lemma_width(h.hops, 1, 0, h.hops.len() as int);
    assert(same_but_tests(v, w)) by {
        assert forall|k: int| 0 <= k < v.hops.len() implies {
            let a = #[trigger] v.hops[k];
            let b = w.hops[k];
            &&& a.src == b.src
            &&& a.dir == b.dir
            &&& a.tokens == b.tokens
            &&& a.members == b.members
            &&& a.track == b.track
            &&& a.reset == b.reset
            &&& a.tgt == b.tgt
            &&& a.end == b.end
        } by {
            let x = uncounted(hops)[k];
            let y = uncounted(hops2)[k];
            assert(h.hops[k] == StepHop { inline: h.hops[k].inline, ..x.v() });
            assert(h.hops[k] == StepHop { inline: h.hops[k].inline, ..y.v() });
            assert(x.v().src == y.v().src && x.v().tgt == y.v().tgt && x.v().end_vi == y.v().end_vi);
            assert(x.v().types == y.v().types && x.v().labels == y.v().labels);
        }
    }
    assert forall|b: Seq<u64>|
        #![trigger keep(b)]
        #![trigger save(b)]
        b.len() == v.width implies (keep(b) && tests_pass(v, b)) == (save(b) && tests_pass(w, b)) by {
        lemma_passes(q, on, p, g, hops, width, h, verdict, b);
        lemma_passes(q, on2, p2, g, hops2, width, h, verdict, b);
    }
    law_tests_may_move(v, keep, w, save, |n: u64| carries(g, n, p.chain.a_labels), bind);
}

/// The variables of a plan are those that its pattern was read with.
proof fn lemma_vars_read(q: Seq<ClauseV>, on: bool, p: AggV, h: HopsV)
    requires
        aggregate::aggregate_of(q, on) == Some(p),
        q.len() > 0,
        q[0] matches ClauseV::Match { pattern, .. } && pattern_fits(pattern),
        chain::scan_hops(q[0]->Match_pattern, preds::chain_allow()) == Some(h),
        h.vars.len() <= usize::MAX,
    ensures
        p.chain.vars == h.vars,
        p.chain.a_labels == h.a_labels,
{
    let c = chain_of(q[0]->Match_pattern, q[0]->Match_where_)->0;
    let with = if q.len() == 3 {
        Some((q[1]->With_where_, q[2]->Return_proj))
    } else {
        None
    };
    let proj = if q.len() == 3 {
        q[1]->With_proj
    } else {
        q[1]->Return_proj
    };
    let p0 = aggregate_plan(c, proj, with)->0;
    assert(p == fold_plan::folded_plan(p0, on));
}

/// Whether a filter reads what a condition reads.
pub open spec fn reads_as(f: Filter, w: WhereV) -> bool {
    match (w.edge, w.id_other) {
        (Some(e), _) => f matches Filter::Edge { src, dst, .. } && src@ == e.src && dst@ == e.dst,
        (None, Some((y, _))) => f matches Filter::Identity { var, other, .. } && var@ == w.var
            && other@ == y,
        (None, None) => f matches Filter::Property { var, .. } && var@ == w.var,
    }
}

/// What a filter says of two bindings that agree on what is not counted.
proof fn lemma_filter_tells(
    v: FoldV,
    vars: Seq<Seq<char>>,
    f: Filter,
    w: WhereV,
    b: Seq<u64>,
    z: Seq<u64>,
)
    requires
        reads_as(f, w),
        vars.len() <= v.width,
        match (w.edge, w.id_other) {
            (Some(e), _) => uncounted_name(v, vars, e.src) && uncounted_name(v, vars, e.dst),
            (None, Some((y, _))) => uncounted_name(v, vars, w.var) && uncounted_name(v, vars, y),
            (None, None) => uncounted_name(v, vars, w.var),
        },
        forall|x: int| 0 <= x < v.width && !#[trigger] is_folded(v, x) ==> b[x] == z[x],
    ensures
        f.holds(v.g, vars, b) == f.holds(v.g, vars, z),
{
    assert forall|x: Seq<char>| #[trigger] uncounted_name(v, vars, x) implies b[column(vars, x)]
        == z[column(vars, x)] by {
        assert(!is_folded(v, column(vars, x)));
    }
}

/// A planned count builds rows that stand for the rows of its pattern, under its
/// conditions: the weights of its rows add up to the number of rows that are built
/// when every step is taken row by row, where every condition is left to a filter.
pub proof fn law_planned_rows_stand_under_conditions(
    q: Seq<ClauseV>,
    on: bool,
    p: AggV,
    b: BuildV,
    ids: Seq<u64>,
    counted: StageV,
    plain: StageV,
)
    requires
        aggregate::aggregate_of(q, on) == Some(p),
        q.len() > 0,
        q[0] matches ClauseV::Match { pattern, .. } && pattern_fits(pattern) && plainly_named(
            pattern.paths,
        ) && forall|i: int| 0 <= i < pattern.paths.len() ==> walkable(#[trigger] pattern.paths[i]),
        p.chain.vars.len() <= usize::MAX,
        hop::steps_v(b.hops) == p.chain.hops,
        b.g.wf(),
        counted_rows::plain_chain(b),
        counted_rows::names_upto(b, p.chain.a_var, b.hops.len() as int) == p.chain.vars,
        b.filters.len() == p.chain.wheres.len(),
        forall|i: int|
            0 <= i < b.filters.len() ==> reads_as(#[trigger] b.filters[i], p.chain.wheres[i]),
        built(b, p.chain.a_var, ids, b.hops.len() as int) == Built::At(counted),
        built(counted_rows::uncounted(b), p.chain.a_var, ids, b.hops.len() as int) == Built::At(
            plain,
        ),
    ensures
        fold_run::weight_sum(counted.rows) == plain.rows.len(),
{
    let var = p.chain.a_var;
    let n = b.hops.len() as int;
    let vars = p.chain.vars;
    let width = chain_rows::fold_of(b).width;
    let v = chain_rows::count_view(b.g, b.hops, width);
    let keep = counted_rows::passes(b, var);
    layout::law_planned_count_runs(q, on, p);
    ready::lemma_same_width(b.hops, n);
    fold_build::lemma_width_min(b.hops, chain_rows::bound_after(b.hops, n) as int);
    assert(hop::steps_v(b.hops).len() == b.hops.len());
    counted_rows::lemma_names(b, var, n, n);
    planned::law_planned_count_is_orderly(q, on, p, b.g, b.hops, width);
    let h = lemma_planned_steps(q, on, p, b.g, b.hops, width);
    let p0 = lemma_unfolded(q, on, p);
    assert forall|i: int| 0 <= i < b.filters.len() implies (#[trigger] b.filters[i]).bound(vars) by {
        let w = p.chain.wheres[i];
        assert(reads_as(b.filters[i], w));
        assert(p.chain.wheres.contains(w));
        lemma_left_reads(q, on, p, p0, b.g, b.hops, width, h, w);
        lemma_where_kept(p0, on, w);
        lemma_reads_bound(q[0], w);
    }
    assert forall|x: Seq<u64>, z: Seq<u64>|
        #![trigger keep(x), keep(z)]
        x.len() == v.width && z.len() == v.width && (forall|c: int|
            0 <= c < v.width && !#[trigger] is_folded(v, c) ==> x[c] == z[c]) implies keep(x) == keep(
        z,
    ) by {
        assert forall|i: int| 0 <= i < b.filters.len() implies (#[trigger] b.filters[i]).holds(
            b.g,
            vars,
            x,
        ) == b.filters[i].holds(b.g, vars, z) by {
            let w = p.chain.wheres[i];
            assert(reads_as(b.filters[i], w));
            assert(p.chain.wheres.contains(w));
            lemma_left_reads(q, on, p, p0, b.g, b.hops, width, h, w);
            lemma_filter_tells(v, vars, b.filters[i], w, x, z);
        }
        if keep(x) {
            assert forall|i: int| 0 <= i < b.filters.len() implies (#[trigger] b.filters[i]).holds(
                b.g,
                vars,
                z,
            ) by {
                assert(b.filters[i].holds(b.g, vars, x));
            }
        }
        if keep(z) {
            assert forall|i: int| 0 <= i < b.filters.len() implies (#[trigger] b.filters[i]).holds(
                b.g,
                vars,
                x,
            ) by {
                assert(b.filters[i].holds(b.g, vars, z));
            }
        }
    }
    counted_rows::law_counted_rows_stand_for_rows(b, var, ids, counted, plain);
}

/// A condition that a plan still tests is one that it was made with.
proof fn lemma_where_kept(p0: AggV, on: bool, w: WhereV)
    requires
        fold_plan::folded_plan(p0, on).chain.wheres.contains(w),
    ensures
        p0.chain.wheres.contains(w),
{
    match fold_plan::fold_marks(p0, on) {
        Some(f) => {
            fold_plan::law_fold_keeps_conjuncts(p0.chain, f, w);
        },
        None => {},
    }
}

} // verus!
