//! Which hops a count folds.

use vstd::prelude::*;

use crate::graph::VarKind;
use crate::hop;
use crate::hop::{Hop, InlinePred, InlineV, StepHop};
use crate::levers;
use crate::levers::{count_fold_enabled, Levers};
use crate::names;
use crate::names::{copy_names, name_index};
use crate::plan::{AggPlan, AggV};
use crate::preds;
use crate::preds::{ChainV, WherePred, WhereV};
use crate::readset;
use crate::readset::{agg_tail_read_set, all_sites_count_star};
use crate::seqs;

verus! {

/// A step's variables are bound: its source before its end.
pub open spec fn step_wf(h: StepHop, n: nat) -> bool {
    &&& 0 <= h.src < n
    &&& match h.tgt {
        Some(t) => 0 <= t < n && h.end_vi is None,
        None => match h.end_vi {
            Some(e) => h.src < e < n,
            None => false,
        },
    }
}

/// A chain's variables each have a kind, and its steps' variables are bound.
pub open spec fn chain_wf(c: ChainV) -> bool {
    &&& c.kinds.len() == c.vars.len()
    &&& forall|i: int| 0 <= i < c.hops.len() ==> step_wf(#[trigger] c.hops[i], c.vars.len())
}

/// The step that binds a variable.
pub open spec fn binder(hops: Seq<StepHop>, v: int) -> Option<int>
    decreases hops.len(),
{
    if hops.len() == 0 {
        None
    } else if hops.last().end_vi == Some(v) {
        Some(hops.len() - 1)
    } else {
        binder(hops.drop_last(), v)
    }
}

/// The source of the step that binds a variable.
pub open spec fn parent(hops: Seq<StepHop>, v: int) -> int {
    hops[binder(hops, v)->0].src
}

/// Whether a variable's parent is folded.
pub open spec fn parent_folded(hops: Seq<StepHop>, v: int, f: Seq<bool>) -> bool {
    binder(hops, v) is Some && 0 <= parent(hops, v) < v && parent(hops, v) < f.len() && f[parent(
        hops,
        v,
    )]
}

/// The topmost folded variable above a folded one.
pub open spec fn root_end(hops: Seq<StepHop>, v: int, f: Seq<bool>) -> int
    decreases v,
{
    if parent_folded(hops, v, f) {
        root_end(hops, parent(hops, v), f)
    } else {
        v
    }
}

/// Whether a folded variable stands above another.
pub open spec fn is_ancestor(hops: Seq<StepHop>, anc: int, v: int, f: Seq<bool>) -> bool
    decreases v,
{
    parent_folded(hops, v, f) && (parent(hops, v) == anc || is_ancestor(
        hops,
        anc,
        parent(hops, v),
        f,
    ))
}

/// The two variables of a conjunct that compares two.
pub open spec fn pair_of(w: WhereV, vars: Seq<Seq<char>>) -> Option<(int, int)> {
    let (x, y) = match w.edge {
        Some(e) => (e.src, e.dst),
        None => (w.var, (w.id_other->0).0),
    };
    match (names::position(vars, x), names::position(vars, y)) {
        (Some(a), Some(b)) => Some((a, b)),
        _ => None,
    }
}

/// Whether a conjunct compares two variables.
pub open spec fn is_pair(w: WhereV) -> bool {
    w.edge is Some || w.id_other is Some
}

/// Whether a conjunct compares two nodes.
pub open spec fn is_cand(w: WhereV, c: ChainV) -> bool {
    is_pair(w) && (pair_of(w, c.vars) matches Some((a, b)) && c.kinds[a] == VarKind::Node
        && c.kinds[b] == VarKind::Node)
}

/// Whether a conjunct keeps a variable's column.
pub open spec fn where_reads(w: WhereV, c: ChainV, v: int) -> bool {
    if is_pair(w) {
        !is_cand(w, c) && (pair_of(w, c.vars) matches Some((a, b)) && (v == a || v == b))
    } else {
        names::position(c.vars, w.var) == Some(v)
    }
}

/// Whether a step keeps a variable's column.
pub open spec fn hop_reads(h: StepHop, v: int) -> bool {
    h.end_vi == Some(v) && (h.varlen is Some || h.rel_var is Some)
}

/// Whether a variable is read outside a fold.
pub open spec fn is_read(p: AggV, v: int) -> bool {
    ||| readset::tail_reads(p, v)
    ||| exists|i: int| 0 <= i < p.chain.hops.len() && hop_reads(#[trigger] p.chain.hops[i], v)
    ||| exists|i: int|
        0 <= i < p.chain.wheres.len() && where_reads(#[trigger] p.chain.wheres[i], p.chain, v)
}

/// Whether a fold could start from a variable.
pub open spec fn starts_folded(p: AggV, v: int) -> bool {
    !is_read(p, v) && binder(p.chain.hops, v) is Some && p.chain.kinds[v] == VarKind::Node
}

/// The variables that nothing outside a fold reads.
pub open spec fn first_marks(p: AggV) -> Seq<bool> {
    Seq::new(p.chain.vars.len(), |v: int| starts_folded(p, v))
}

/// Whether a closing step binds a relationship variable that is read.
pub open spec fn rel_read(p: AggV, h: StepHop) -> bool {
    match h.rel_var {
        Some(x) => match names::position(p.chain.vars, x) {
            Some(v) => is_read(p, v),
            None => false,
        },
        None => false,
    }
}

/// The marks without that of a variable.
pub open spec fn unmark(f: Seq<bool>, v: int) -> Seq<bool> {
    Seq::new(f.len(), |i: int| f[i] && i != v)
}

/// The marks after a step is looked at.
pub open spec fn hop_rule(p: AggV, h: StepHop, f: Seq<bool>) -> Seq<bool> {
    if !f[h.src] {
        match h.tgt {
            Some(t) => if f[t] {
                unmark(f, t)
            } else {
                f
            },
            None => f,
        }
    } else {
        match h.tgt {
            None => if f[h.end_vi->0] {
                f
            } else {
                unmark(f, h.src)
            },
            Some(t) => if rel_read(p, h) {
                unmark(f, h.src)
            } else if t == h.src {
                f
            } else if f[t] {
                if is_ancestor(p.chain.hops, t, h.src, f) {
                    f
                } else {
                    unmark(f, t)
                }
            } else if t >= root_end(p.chain.hops, h.src, f) {
                unmark(f, h.src)
            } else {
                f
            },
        }
    }
}

/// The folded variable at whose level two are compared, and the other one.
pub open spec fn level_of(a: int, b: int, f: Seq<bool>) -> (int, int) {
    if f[a] && (!f[b] || a >= b) {
        (a, b)
    } else {
        (b, a)
    }
}

/// Whether a variable is bound when a folded one's level is entered.
pub open spec fn bound_at(hops: Seq<StepHop>, other: int, level: int, f: Seq<bool>) -> bool {
    if other == level {
        true
    } else if f[other] {
        is_ancestor(hops, other, level, f)
    } else {
        other < root_end(hops, level, f)
    }
}

/// The marks after a conjunct is looked at.
pub open spec fn where_rule(c: ChainV, w: WhereV, f: Seq<bool>) -> Seq<bool> {
    if !is_cand(w, c) {
        f
    } else {
        let (a, b) = pair_of(w, c.vars)->0;
        let (level, other) = level_of(a, b, f);
        if !f[a] && !f[b] || bound_at(c.hops, other, level, f) {
            f
        } else {
            unmark(f, level)
        }
    }
}

/// The marks after the first `n` steps are looked at.
pub open spec fn hops_pass(p: AggV, f: Seq<bool>, n: nat) -> Seq<bool>
    decreases n,
{
    if n == 0 {
        f
    } else {
        hop_rule(p, p.chain.hops[n - 1], hops_pass(p, f, (n - 1) as nat))
    }
}

/// The marks after the first `n` conjuncts are looked at.
pub open spec fn wheres_pass(p: AggV, f: Seq<bool>, n: nat) -> Seq<bool>
    decreases n,
{
    if n == 0 {
        f
    } else {
        where_rule(p.chain, p.chain.wheres[n - 1], wheres_pass(p, f, (n - 1) as nat))
    }
}

/// The marks after everything is looked at once.
pub open spec fn pass(p: AggV, f: Seq<bool>) -> Seq<bool> {
    wheres_pass(p, hops_pass(p, f, p.chain.hops.len()), p.chain.wheres.len())
}

/// How many marks are set.
pub open spec fn count_marks(f: Seq<bool>) -> nat
    decreases f.len(),
{
    if f.len() == 0 {
        0
    } else {
        count_marks(f.drop_last()) + if f.last() {
            1nat
        } else {
            0nat
        }
    }
}

/// The marks once nothing changes any more.
pub open spec fn settle(p: AggV, f: Seq<bool>) -> Seq<bool>
    decreases count_marks(f),
    via settle_ends
{
    if pass(p, f) == f {
        f
    } else {
        settle(p, pass(p, f))
    }
}

#[via_fn]
proof fn settle_ends(p: AggV, f: Seq<bool>) {
    lemma_pass_drops(p, f);
    lemma_drop_count(pass(p, f), f);
}

/// Every mark of the first is one of the second.
pub open spec fn drops(g: Seq<bool>, f: Seq<bool>) -> bool {
    g.len() == f.len() && forall|v: int| 0 <= v < f.len() && #[trigger] g[v] ==> f[v]
}

proof fn lemma_drop_count(g: Seq<bool>, f: Seq<bool>)
    requires
        drops(g, f),
    ensures
        count_marks(g) <= count_marks(f),
        g != f ==> count_marks(g) < count_marks(f),
    decreases f.len(),
{
    if f.len() > 0 {
        assert(drops(g.drop_last(), f.drop_last())) by {
            assert forall|v: int| 0 <= v < f.len() - 1 && #[trigger] g.drop_last()[v] implies
                f.drop_last()[v] by {
                assert(g[v]);
            }
        }
        lemma_drop_count(g.drop_last(), f.drop_last());
        assert(g[g.len() - 1] ==> f[g.len() - 1]);
        if g.drop_last() == f.drop_last() && g.last() == f.last() {
            assert(g =~= g.drop_last().push(g.last()));
            assert(f =~= f.drop_last().push(f.last()));
        }
    } else {
        assert(g =~= f);
    }
}

proof fn lemma_hop_drops(p: AggV, h: StepHop, f: Seq<bool>)
    ensures
        drops(hop_rule(p, h, f), f),
{
}

proof fn lemma_where_drops(c: ChainV, w: WhereV, f: Seq<bool>)
    ensures
        drops(where_rule(c, w, f), f),
{
}

proof fn lemma_hops_drop(p: AggV, f: Seq<bool>, n: nat)
    ensures
        drops(hops_pass(p, f, n), f),
    decreases n,
{
    if n > 0 {
        lemma_hops_drop(p, f, (n - 1) as nat);
        lemma_hop_drops(p, p.chain.hops[n - 1], hops_pass(p, f, (n - 1) as nat));
        let g = hops_pass(p, f, (n - 1) as nat);
        let h = hops_pass(p, f, n);
        assert forall|v: int| 0 <= v < f.len() && #[trigger] h[v] implies f[v] by {
            assert(g[v]);
        }
    }
}

proof fn lemma_wheres_drop(p: AggV, f: Seq<bool>, n: nat)
    ensures
        drops(wheres_pass(p, f, n), f),
    decreases n,
{
    if n > 0 {
        lemma_wheres_drop(p, f, (n - 1) as nat);
        lemma_where_drops(p.chain, p.chain.wheres[n - 1], wheres_pass(p, f, (n - 1) as nat));
        let g = wheres_pass(p, f, (n - 1) as nat);
        let h = wheres_pass(p, f, n);
        assert forall|v: int| 0 <= v < f.len() && #[trigger] h[v] implies f[v] by {
            assert(g[v]);
        }
    }
}

proof fn lemma_pass_drops(p: AggV, f: Seq<bool>)
    ensures
        drops(pass(p, f), f),
{
    let g = hops_pass(p, f, p.chain.hops.len());
    lemma_hops_drop(p, f, p.chain.hops.len());
    lemma_wheres_drop(p, g, p.chain.wheres.len());
    assert forall|v: int| 0 <= v < f.len() && #[trigger] pass(p, f)[v] implies f[v] by {
        assert(g[v]);
    }
}

/// The marks of a plan's foldable variables, if there is anything to fold.
pub open spec fn fold_marks(p: AggV, on: bool) -> Option<Seq<bool>> {
    if !on || !readset::only_count_star(p.sites) {
        None
    } else if exists|i: int|
        0 <= i < p.chain.wheres.len() && is_pair(#[trigger] p.chain.wheres[i]) && pair_of(
            p.chain.wheres[i],
            p.chain.vars,
        ) is None {
        None
    } else {
        let f = settle(p, first_marks(p));
        if exists|v: int| 0 <= v < f.len() && #[trigger] f[v] {
            Some(f)
        } else {
            None
        }
    }
}

/// Whether a fold tests a conjunct.
pub open spec fn where_folds(c: ChainV, w: WhereV, f: Seq<bool>) -> bool {
    is_cand(w, c) && (f[(pair_of(w, c.vars)->0).0] || f[(pair_of(w, c.vars)->0).1])
}

/// The step at which a fold tests a conjunct.
pub open spec fn where_at(c: ChainV, w: WhereV, f: Seq<bool>) -> int {
    let (a, b) = pair_of(w, c.vars)->0;
    binder(c.hops, level_of(a, b, f).0)->0
}

/// The test of a conjunct in a fold.
pub open spec fn inline_of(c: ChainV, w: WhereV, f: Seq<bool>) -> InlineV {
    let (a, b) = pair_of(w, c.vars)->0;
    let (level, other) = level_of(a, b, f);
    match w.edge {
        Some(e) => InlineV::Edge {
            vi: other,
            dir: if level == a {
                e.dir
            } else {
                e.dir.flip()
            },
            types: e.types,
            negate: e.negate,
        },
        None => if (w.id_other->0).1 {
            InlineV::Ne(other)
        } else {
            InlineV::Eq(other)
        },
    }
}

/// The tests that conjuncts become at a step.
pub open spec fn inlines_at(c: ChainV, wheres: Seq<WhereV>, f: Seq<bool>, hi: int) -> Seq<InlineV> {
    seqs::keep_map(
        wheres,
        |w: WhereV| where_folds(c, w, f) && where_at(c, w, f) == hi,
        |w: WhereV| inline_of(c, w, f),
    )
}

/// Whether a step is folded.
pub open spec fn step_folds(h: StepHop, f: Seq<bool>) -> bool {
    match h.tgt {
        None => f[h.end_vi->0],
        Some(_) => f[h.src],
    }
}

/// A chain with its folds.
pub open spec fn with_folds(c: ChainV, f: Seq<bool>) -> ChainV {
    ChainV {
        hops: Seq::new(
            c.hops.len(),
            |i: int|
                StepHop {
                    fold: step_folds(c.hops[i], f),
                    inline: c.hops[i].inline + inlines_at(c, c.wheres, f, i),
                    ..c.hops[i]
                },
        ),
        wheres: c.wheres.filter(|w: WhereV| !where_folds(c, w, f)),
        ..c
    }
}

/// A plan with its folds.
pub open spec fn folded_plan(p: AggV, on: bool) -> AggV {
    match fold_marks(p, on) {
        Some(f) => AggV { chain: with_folds(p.chain, f), ..p },
        None => p,
    }
}

fn get_parent(hops: &Vec<Hop>, binder_of: &Vec<Option<usize>>, v: usize) -> (r: usize)
    requires
        v < binder_of@.len(),
        forall|v: int|
            0 <= v < binder_of@.len() ==> hop::opt_index(#[trigger] binder_of@[v]) == binder(
                hop::steps_v(hops@),
                v,
            ),
        binder(hop::steps_v(hops@), v as int) is Some,
        forall|i: int|
            0 <= i < hops@.len() ==> step_wf(
                #[trigger] hop::steps_v(hops@)[i],
                binder_of@.len(),
            ),
    ensures
        r == parent(hop::steps_v(hops@), v as int),
        r < v,
{
    proof {
        lemma_binder(hop::steps_v(hops@), v as int);
    }
    match binder_of[v] {
        Some(i) => {
            assert(hop::steps_v(hops@)[i as int] == hops@[i as int].v());
            hops[i].src
        },
        None => 0,
    }
}

pub proof fn lemma_binder(hops: Seq<StepHop>, v: int)
    ensures
        binder(hops, v) matches Some(i) ==> 0 <= i < hops.len() && hops[i].end_vi == Some(v),
        binder(hops, v) is None ==> forall|i: int|
            0 <= i < hops.len() ==> (#[trigger] hops[i]).end_vi != Some(v),
    decreases hops.len(),
{
    if hops.len() > 0 && hops.last().end_vi != Some(v) {
        lemma_binder(hops.drop_last(), v);
        if binder(hops, v) is None {
            assert forall|i: int| 0 <= i < hops.len() implies (#[trigger] hops[i]).end_vi != Some(
                v,
            ) by {
                if i < hops.len() - 1 {
                    assert(hops.drop_last()[i] == hops[i]);
                }
            }
        }
    }
}

/// What the rules look at: the steps' binders and the variables that are read.
struct Marker<'a> {
    hops: &'a Vec<Hop>,
    vars: &'a Vec<String>,
    binder_of: Vec<Option<usize>>,
    read: Vec<bool>,
    /// Per conjunct, the two nodes that it compares.
    pairs: Vec<Option<(usize, usize)>>,
    plan: Ghost<AggV>,
}

impl<'a> Marker<'a> {
    spec fn wf(self) -> bool {
        let p = self.plan@;
        &&& chain_wf(p.chain)
        &&& p.chain.hops == hop::steps_v(self.hops@)
        &&& p.chain.vars == names::of(self.vars@)
        &&& self.binder_of@.len() == self.vars@.len()
        &&& forall|v: int|
            0 <= v < self.vars@.len() ==> hop::opt_index(#[trigger] self.binder_of@[v]) == binder(
                p.chain.hops,
                v,
            )
        &&& self.read@.len() == self.vars@.len()
        &&& forall|v: int|
            0 <= v < self.vars@.len() ==> #[trigger] self.read@[v] == is_read(p, v)
        &&& self.pairs@.len() == p.chain.wheres.len()
        &&& forall|i: int|
            0 <= i < self.pairs@.len() ==> pair_is(
                #[trigger] self.pairs@[i],
                p.chain.wheres[i],
                p.chain,
            )
    }

    /// Only bound variables are marked.
    spec fn marks_ok(self, f: Seq<bool>) -> bool {
        &&& f.len() == self.vars@.len()
        &&& forall|v: int|
            0 <= v < f.len() && #[trigger] f[v] ==> binder(self.plan@.chain.hops, v) is Some
    }

    fn top(&self, v: usize, f: &Vec<bool>) -> (r: usize)
        requires
            self.wf(),
            self.marks_ok(f@),
            v < f@.len(),
            f@[v as int],
        ensures
            r == root_end(self.plan@.chain.hops, v as int, f@),
    {
        let ghost hs = self.plan@.chain.hops;
        let mut cur: usize = v;
        let mut p: usize = get_parent(self.hops, &self.binder_of, cur);
        while f[p]
            invariant
                self.wf(),
                self.marks_ok(f@),
                hs == self.plan@.chain.hops,
                cur < f@.len(),
                f@[cur as int],
                p == parent(hs, cur as int),
                p < cur,
                root_end(hs, cur as int, f@) == root_end(hs, v as int, f@),
            decreases cur,
        {
            cur = p;
            p = get_parent(self.hops, &self.binder_of, cur);
        }
        cur
    }

    fn above(&self, anc: usize, v: usize, f: &Vec<bool>) -> (b: bool)
        requires
            self.wf(),
            self.marks_ok(f@),
            v < f@.len(),
            f@[v as int],
        ensures
            b == is_ancestor(self.plan@.chain.hops, anc as int, v as int, f@),
    {
        let ghost hs = self.plan@.chain.hops;
        let mut cur: usize = v;
        let mut p: usize = get_parent(self.hops, &self.binder_of, cur);
        while f[p]
            invariant
                self.wf(),
                self.marks_ok(f@),
                hs == self.plan@.chain.hops,
                cur < f@.len(),
                f@[cur as int],
                p == parent(hs, cur as int),
                p < cur,
                is_ancestor(hs, anc as int, cur as int, f@) == is_ancestor(
                    hs,
                    anc as int,
                    v as int,
                    f@,
                ),
            decreases cur,
        {
            if p == anc {
                return true;
            }
            cur = p;
            p = get_parent(self.hops, &self.binder_of, cur);
        }
        false
    }

    fn rel_is_read(&self, h: &Hop) -> (b: bool)
        requires
            self.wf(),
        ensures
            b == rel_read(self.plan@, h.v()),
    {
        match &h.rel_var {
            Some(x) => match name_index(self.vars, x) {
                Some(v) => self.read[v],
                None => false,
            },
            None => false,
        }
    }

    fn apply_hop(&self, h: &Hop, f: &mut Vec<bool>) -> (changed: bool)
        requires
            self.wf(),
            self.marks_ok(old(f)@),
            step_wf(h.v(), self.vars@.len()),
        ensures
            final(f)@ == hop_rule(self.plan@, h.v(), old(f)@),
            changed == (final(f)@ != old(f)@),
            self.marks_ok(final(f)@),
    {
        let ghost f0 = f@;
        proof {
            lemma_hop_drops(self.plan@, h.v(), f0);
        }
        let src: usize = h.src;
        let mut gone: Option<usize> = None;
        if !f[src] {
            match h.tgt {
                Some(t) => {
                    if f[t] {
                        gone = Some(t);
                    }
                },
                None => {},
            }
        } else {
            match h.tgt {
                None => {
                    match h.end_vi {
                        Some(e) => {
                            if !f[e] {
                                gone = Some(src);
                            }
                        },
                        None => {},
                    }
                },
                Some(t) => {
                    if self.rel_is_read(h) {
                        gone = Some(src);
                    } else if t == src {
                    } else if f[t] {
                        if !self.above(t, src, f) {
                            gone = Some(t);
                        }
                    } else if t >= self.top(src, f) {
                        gone = Some(src);
                    }
                },
            }
        }
        match gone {
            Some(v) => {
                assert(f0[v as int]);
                f.set(v, false);
                assert(f@ =~= unmark(f0, v as int));
                assert(f@[v as int] != f0[v as int]);
                true
            },
            None => false,
        }
    }

    fn apply_where(&self, i: usize, f: &mut Vec<bool>) -> (changed: bool)
        requires
            self.wf(),
            self.marks_ok(old(f)@),
            i < self.pairs@.len(),
        ensures
            final(f)@ == where_rule(
                self.plan@.chain,
                self.plan@.chain.wheres[i as int],
                old(f)@,
            ),
            changed == (final(f)@ != old(f)@),
            self.marks_ok(final(f)@),
    {
        let ghost f0 = f@;
        let ghost hs = self.plan@.chain.hops;
        assert(pair_is(
            self.pairs@[i as int],
            self.plan@.chain.wheres[i as int],
            self.plan@.chain,
        ));
        match self.pairs[i] {
            None => false,
            Some((a, b)) => {
                if !f[a] && !f[b] {
                    return false;
                }
                let (level, other) = pick_level(a, b, f);
                let ok = if other == level {
                    true
                } else if f[other] {
                    self.above(other, level, f)
                } else {
                    other < self.top(level, f)
                };
                if ok {
                    false
                } else {
                    f.set(level, false);
                    assert(f@ =~= unmark(f0, level as int));
                    assert(f@[level as int] != f0[level as int]);
                    true
                }
            },
        }
    }
}

fn pick_level(a: usize, b: usize, f: &Vec<bool>) -> (r: (usize, usize))
    requires
        a < f@.len(),
        b < f@.len(),
        f@[a as int] || f@[b as int],
    ensures
        level_of(a as int, b as int, f@) == (r.0 as int, r.1 as int),
        f@[r.0 as int],
        r.0 == a || r.0 == b,
        r.1 == a || r.1 == b,
{
    if f[a] && (!f[b] || a >= b) {
        (a, b)
    } else {
        (b, a)
    }
}

proof fn lemma_drops_keep(h: Seq<bool>, g: Seq<bool>, f: Seq<bool>)
    requires
        drops(g, f),
        drops(h, g),
    ensures
        drops(h, f),
        h == f ==> g == f,
{
    assert forall|v: int| 0 <= v < f.len() && #[trigger] h[v] implies f[v] by {
        assert(g[v]);
    }
    if h == f {
        assert forall|v: int| 0 <= v < f.len() implies g[v] == f[v] by {
            if g[v] {
                assert(f[v]);
            }
            if f[v] {
                assert(h[v]);
            }
        }
        assert(g =~= f);
    }
}

fn run_pass(m: &Marker, f: &mut Vec<bool>) -> (changed: bool)
    requires
        m.wf(),
        m.marks_ok(old(f)@),
    ensures
        final(f)@ == pass(m.plan@, old(f)@),
        changed == (final(f)@ != old(f)@),
        m.marks_ok(final(f)@),
{
    let ghost p = m.plan@;
    let ghost f0 = f@;
    let mut changed = false;
    let mut i: usize = 0;
    while i < m.hops.len()
        invariant
            m.wf(),
            p == m.plan@,
            i <= m.hops@.len(),
            f@ == hops_pass(p, f0, i as nat),
            m.marks_ok(f@),
            drops(f@, f0),
            changed == (f@ != f0),
        decreases m.hops.len() - i,
    {
        assert(p.chain.hops[i as int] == m.hops@[i as int].v());
        let ghost g = f@;
        let c = m.apply_hop(&m.hops[i], f);
        proof {
            lemma_hop_drops(p, p.chain.hops[i as int], g);
            lemma_drops_keep(f@, g, f0);
        }
        changed = changed || c;
        i = i + 1;
    }
    let ghost f1 = f@;
    let mut k: usize = 0;
    while k < m.pairs.len()
        invariant
            m.wf(),
            p == m.plan@,
            k <= m.pairs@.len(),
            f1 == hops_pass(p, f0, p.chain.hops.len()),
            f@ == wheres_pass(p, f1, k as nat),
            m.marks_ok(f@),
            drops(f@, f0),
            changed == (f@ != f0),
        decreases m.pairs.len() - k,
    {
        let ghost g = f@;
        let c = m.apply_where(k, f);
        proof {
            lemma_where_drops(p.chain, p.chain.wheres[k as int], g);
            lemma_drops_keep(f@, g, f0);
        }
        changed = changed || c;
        k = k + 1;
    }
    changed
}

fn settle_marks(m: &Marker, f: Vec<bool>) -> (r: Vec<bool>)
    requires
        m.wf(),
        m.marks_ok(f@),
    ensures
        r@ == settle(m.plan@, f@),
        m.marks_ok(r@),
{
    let mut r = f;
    let mut go = true;
    while go
        invariant
            m.wf(),
            m.marks_ok(r@),
            settle(m.plan@, r@) == settle(m.plan@, f@),
            !go ==> pass(m.plan@, r@) == r@,
        decreases
                count_marks(r@) + if go {
                    1int
                } else {
                    0int
                },
    {
        let ghost r0 = r@;
        go = run_pass(m, &mut r);
        proof {
            lemma_pass_drops(m.plan@, r0);
            lemma_drop_count(r@, r0);
        }
    }
    r
}

fn all_binders(hops: &Vec<Hop>, n: usize) -> (r: Vec<Option<usize>>)
    requires
        forall|i: int| 0 <= i < hops@.len() ==> step_wf(#[trigger] hop::steps_v(hops@)[i], n as nat),
    ensures
        r@.len() == n,
        forall|v: int|
            0 <= v < n ==> hop::opt_index(#[trigger] r@[v]) == binder(hop::steps_v(hops@), v),
{
    let ghost hs = hop::steps_v(hops@);
    let mut r: Vec<Option<usize>> = Vec::new();
    let mut k: usize = 0;
    while k < n
        invariant
            k <= n,
            r@.len() == k,
            forall|v: int| 0 <= v < k ==> (#[trigger] r@[v]) is None,
        decreases n - k,
    {
        r.push(None);
        k = k + 1;
    }
    assert(hs.take(0) =~= Seq::empty());
    let mut i: usize = 0;
    while i < hops.len()
        invariant
            i <= hops@.len(),
            hs == hop::steps_v(hops@),
            r@.len() == n,
            forall|i: int| 0 <= i < hops@.len() ==> step_wf(#[trigger] hs[i], n as nat),
            forall|v: int|
                0 <= v < n ==> hop::opt_index(#[trigger] r@[v]) == binder(hs.take(i as int), v),
        decreases hops.len() - i,
    {
        proof {
            seqs::lemma_take_last(hs, i as int);
            assert(hs[i as int] == hops@[i as int].v());
        }
        let ghost r0 = r@;
        match hops[i].end_vi {
            Some(e) => {
                r.set(e, Some(i));
            },
            None => {},
        }
        proof {
            assert forall|v: int| 0 <= v < n implies hop::opt_index(#[trigger] r@[v]) == binder(
                hs.take(i + 1),
                v,
            ) by {
                assert(hop::opt_index(r0[v]) == binder(hs.take(i as int), v));
            }
        }
        i = i + 1;
    }
    assert(hs.take(i as int) =~= hs);
    r
}

fn mark_hops(hops: &Vec<Hop>, n: usize, read: &mut Vec<bool>)
    requires
        old(read)@.len() == n,
        forall|i: int| 0 <= i < hops@.len() ==> step_wf(#[trigger] hop::steps_v(hops@)[i], n as nat),
    ensures
        final(read)@.len() == n,
        forall|v: int|
            0 <= v < n ==> #[trigger] final(read)@[v] == (old(read)@[v] || exists|i: int|
                0 <= i < hops@.len() && hop_reads(#[trigger] hop::steps_v(hops@)[i], v)),
{
    let ghost hs = hop::steps_v(hops@);
    let mut i: usize = 0;
    while i < hops.len()
        invariant
            i <= hops@.len(),
            hs == hop::steps_v(hops@),
            read@.len() == n,
            forall|i: int| 0 <= i < hops@.len() ==> step_wf(#[trigger] hs[i], n as nat),
            forall|v: int|
                0 <= v < n ==> #[trigger] read@[v] == (old(read)@[v] || exists|j: int|
                    0 <= j < i && hop_reads(#[trigger] hs[j], v)),
        decreases hops.len() - i,
    {
        assert(hs[i as int] == hops@[i as int].v());
        let ghost r0 = read@;
        match hops[i].end_vi {
            Some(e) => {
                if hops[i].varlen.is_some() || hops[i].rel_var.is_some() {
                    read.set(e, true);
                }
            },
            None => {},
        }
        proof {
            assert forall|v: int| 0 <= v < n implies #[trigger] read@[v] == (old(read)@[v]
                || exists|j: int| 0 <= j < i + 1 && hop_reads(#[trigger] hs[j], v)) by {
                assert(read@[v] == (r0[v] || hop_reads(hs[i as int], v)));
            }
        }
        i = i + 1;
    }
}

fn find_pair(w: &WherePred, vars: &Vec<String>) -> (r: Option<(usize, usize)>)
    requires
        is_pair(w.v()),
    ensures
        match r {
            Some((a, b)) => pair_of(w.v(), names::of(vars@)) == Some((a as int, b as int)) && a
                < vars@.len() && b < vars@.len(),
            None => pair_of(w.v(), names::of(vars@)) is None,
        },
{
    let (x, y): (&String, &String) = match &w.edge {
        Some(e) => (&e.src, &e.dst),
        None => match &w.id_other {
            Some((o, _)) => (&w.var, o),
            None => (&w.var, &w.var),
        },
    };
    match (name_index(vars, x), name_index(vars, y)) {
        (Some(a), Some(b)) => Some((a, b)),
        _ => None,
    }
}

/// Whether a kind is that of a node.
pub fn is_node(k: VarKind) -> (b: bool)
    ensures
        b == (k == VarKind::Node),
{
    match k {
        VarKind::Node => true,
        VarKind::Rel => false,
    }
}

fn mark_wheres(c: &preds::Chain, read: &mut Vec<bool>) -> (r: Option<Vec<Option<(usize, usize)>>>)
    requires
        chain_wf(c.v()),
        old(read)@.len() == c.vars@.len(),
    ensures
        match r {
            Some(pairs) => {
                &&& final(read)@.len() == c.vars@.len()
                &&& forall|v: int|
                    0 <= v < c.vars@.len() ==> #[trigger] final(read)@[v] == (old(read)@[v]
                        || exists|i: int|
                        0 <= i < c.wheres@.len() && where_reads(
                            #[trigger] c.v().wheres[i],
                            c.v(),
                            v,
                        ))
                &&& pairs@.len() == c.wheres@.len()
                &&& forall|i: int|
                    0 <= i < pairs@.len() ==> pair_is(
                        #[trigger] pairs@[i],
                        c.v().wheres[i],
                        c.v(),
                    )
                &&& forall|i: int|
                    0 <= i < c.wheres@.len() && is_pair(#[trigger] c.v().wheres[i]) ==> pair_of(
                        c.v().wheres[i],
                        c.v().vars,
                    ) is Some
            },
            None => exists|i: int|
                0 <= i < c.wheres@.len() && is_pair(#[trigger] c.v().wheres[i]) && pair_of(
                    c.v().wheres[i],
                    c.v().vars,
                ) is None,
        },
{
    let ghost cv = c.v();
    let mut pairs: Vec<Option<(usize, usize)>> = Vec::new();
    let mut i: usize = 0;
    while i < c.wheres.len()
        invariant
            i <= c.wheres@.len(),
            cv == c.v(),
            chain_wf(cv),
            cv.wheres.len() == c.wheres@.len(),
            read@.len() == c.vars@.len(),
            pairs@.len() == i,
            forall|j: int| 0 <= j < i ==> pair_is(#[trigger] pairs@[j], cv.wheres[j], cv),
            forall|j: int|
                0 <= j < i && is_pair(#[trigger] cv.wheres[j]) ==> pair_of(
                    cv.wheres[j],
                    cv.vars,
                ) is Some,
            forall|v: int|
                0 <= v < c.vars@.len() ==> #[trigger] read@[v] == (old(read)@[v] || exists|j: int|
                    0 <= j < i && where_reads(#[trigger] cv.wheres[j], cv, v)),
        decreases c.wheres.len() - i,
    {
        assert(cv.wheres[i as int] == c.wheres@[i as int].v());
        let ghost r0 = read@;
        let w = &c.wheres[i];
        if w.edge.is_some() || w.id_other.is_some() {
            match find_pair(w, &c.vars) {
                None => {
                    return None;
                },
                Some((a, b)) => {
                    if is_node(c.kinds[a]) && is_node(c.kinds[b]) {
                        pairs.push(Some((a, b)));
                    } else {
                        read.set(a, true);
                        read.set(b, true);
                        pairs.push(None);
                    }
                },
            }
        } else {
            match name_index(&c.vars, &w.var) {
                Some(v) => {
                    read.set(v, true);
                },
                None => {},
            }
            pairs.push(None);
        }
        proof {
            assert forall|v: int| 0 <= v < c.vars@.len() implies #[trigger] read@[v] == (old(
                read,
            )@[v] || exists|j: int|
                0 <= j < i + 1 && where_reads(#[trigger] cv.wheres[j], cv, v)) by {
                assert(read@[v] == (r0[v] || where_reads(cv.wheres[i as int], cv, v)));
            }
        }
        i = i + 1;
    }
    Some(pairs)
}

/// The two nodes that a conjunct compares, if it does.
spec fn pair_is(pair: Option<(usize, usize)>, w: WhereV, c: ChainV) -> bool {
    match pair {
        Some((a, b)) => is_cand(w, c) && pair_of(w, c.vars) == Some((a as int, b as int)) && a
            < c.vars.len() && b < c.vars.len(),
        None => !is_cand(w, c),
    }
}

/// The marks that were found, and what the rules looked at.
struct Found {
    f: Vec<bool>,
    binder_of: Vec<Option<usize>>,
    pairs: Vec<Option<(usize, usize)>>,
}

impl Found {
    spec fn wf(self, c: ChainV) -> bool {
        &&& self.f@.len() == c.vars.len()
        &&& self.binder_of@.len() == c.vars.len()
        &&& forall|v: int|
            0 <= v < c.vars.len() ==> hop::opt_index(#[trigger] self.binder_of@[v]) == binder(
                c.hops,
                v,
            )
        &&& forall|v: int| 0 <= v < c.vars.len() && #[trigger] self.f@[v] ==> binder(c.hops, v) is Some
        &&& self.pairs@.len() == c.wheres.len()
        &&& forall|i: int|
            0 <= i < self.pairs@.len() ==> pair_is(#[trigger] self.pairs@[i], c.wheres[i], c)
    }
}

fn first_folds(p: &AggPlan, m: &Marker) -> (f: Vec<bool>)
    requires
        m.wf(),
        m.plan@ == p.v(),
    ensures
        f@ == first_marks(p.v()),
        m.marks_ok(f@),
{
    let n: usize = p.chain.vars.len();
    let mut f: Vec<bool> = Vec::new();
    let mut v: usize = 0;
    while v < n
        invariant
            m.wf(),
            m.plan@ == p.v(),
            n == p.chain.vars@.len(),
            v <= n,
            f@.len() == v,
            forall|i: int| 0 <= i < v ==> #[trigger] f@[i] == starts_folded(p.v(), i),
        decreases n - v,
    {
        let b = !m.read[v] && m.binder_of[v].is_some() && is_node(p.chain.kinds[v]);
        f.push(b);
        v = v + 1;
    }
    assert(f@ =~= first_marks(p.v()));
    f
}

fn any_mark(f: &Vec<bool>) -> (b: bool)
    ensures
        b == (exists|v: int| 0 <= v < f@.len() && #[trigger] f@[v]),
{
    let mut i: usize = 0;
    while i < f.len()
        invariant
            i <= f@.len(),
            forall|j: int| 0 <= j < i ==> !#[trigger] f@[j],
        decreases f.len() - i,
    {
        if f[i] {
            return true;
        }
        i = i + 1;
    }
    false
}

fn find_marks(p: &AggPlan, on: bool) -> (r: Option<Found>)
    requires
        chain_wf(p.v().chain),
        readset::tail_wf(p.v()),
    ensures
        match r {
            Some(m) => fold_marks(p.v(), on) == Some(m.f@) && m.wf(p.v().chain),
            None => fold_marks(p.v(), on) is None,
        },
{
    if !on || !all_sites_count_star(&p.sites) {
        return None;
    }
    let n: usize = p.chain.vars.len();
    let mut read = agg_tail_read_set(p);
    let ghost tail = read@;
    proof {
        assert forall|i: int| 0 <= i < p.chain.hops@.len() implies step_wf(
            #[trigger] hop::steps_v(p.chain.hops@)[i],
            n as nat,
        ) by {
            assert(p.v().chain.hops[i] == hop::steps_v(p.chain.hops@)[i]);
        }
    }
    mark_hops(&p.chain.hops, n, &mut read);
    let ghost hopped = read@;
    let pairs = match mark_wheres(&p.chain, &mut read) {
        Some(pairs) => pairs,
        None => {
            return None;
        },
    };
    proof {
        let c = p.v().chain;
        assert(c.wheres.len() == p.chain.wheres@.len());
        assert(c.hops == hop::steps_v(p.chain.hops@));
        assert forall|v: int| 0 <= v < n implies #[trigger] read@[v] == is_read(p.v(), v) by {
            assert(tail[v] == readset::tail_reads(p.v(), v));
            assert(hopped[v] == (tail[v] || exists|i: int|
                0 <= i < c.hops.len() && hop_reads(#[trigger] c.hops[i], v)));
            assert(read@[v] == (hopped[v] || exists|i: int|
                0 <= i < c.wheres.len() && where_reads(#[trigger] c.wheres[i], c, v)));
        }
    }
    let m = Marker {
        hops: &p.chain.hops,
        vars: &p.chain.vars,
        binder_of: all_binders(&p.chain.hops, n),
        read,
        pairs,
        plan: Ghost(p.v()),
    };
    let f0 = first_folds(p, &m);
    let f = settle_marks(&m, f0);
    if any_mark(&f) {
        Some(Found { f, binder_of: m.binder_of, pairs: m.pairs })
    } else {
        None
    }
}

fn make_inline(w: &WherePred, level: usize, a: usize, other: usize) -> (r: InlinePred)
    requires
        is_pair(w.v()),
    ensures
        r.v() == match w.v().edge {
            Some(e) => InlineV::Edge {
                vi: other as int,
                dir: if level == a {
                    e.dir
                } else {
                    e.dir.flip()
                },
                types: e.types,
                negate: e.negate,
            },
            None => if (w.v().id_other->0).1 {
                InlineV::Ne(other as int)
            } else {
                InlineV::Eq(other as int)
            },
        },
{
    match &w.edge {
        Some(e) => InlinePred::EdgeToBound {
            vi: other,
            dir: if level == a {
                e.dir
            } else {
                e.dir.flipped()
            },
            types: copy_names(&e.types),
            negate: e.negate,
        },
        None => match &w.id_other {
            Some((_, ne)) => {
                if *ne {
                    InlinePred::NeBound(other)
                } else {
                    InlinePred::EqBound(other)
                }
            },
            None => InlinePred::EqBound(other),
        },
    }
}

fn set_folds(hops: &mut Vec<Hop>, f: &Vec<bool>)
    requires
        forall|i: int|
            0 <= i < old(hops)@.len() ==> step_wf(
                #[trigger] hop::steps_v(old(hops)@)[i],
                f@.len(),
            ),
    ensures
        final(hops)@.len() == old(hops)@.len(),
        forall|i: int|
            0 <= i < final(hops)@.len() ==> (#[trigger] final(hops)@[i]).v() == (StepHop {
                fold: step_folds(old(hops)@[i].v(), f@),
                ..old(hops)@[i].v()
            }),
{
    let mut i: usize = 0;
    while i < hops.len()
        invariant
            i <= hops@.len(),
            hops@.len() == old(hops)@.len(),
            forall|i: int|
                0 <= i < old(hops)@.len() ==> step_wf(
                    #[trigger] hop::steps_v(old(hops)@)[i],
                    f@.len(),
                ),
            forall|j: int|
                0 <= j < i ==> (#[trigger] hops@[j]).v() == (StepHop {
                    fold: step_folds(old(hops)@[j].v(), f@),
                    ..old(hops)@[j].v()
                }),
            forall|j: int| i <= j < hops@.len() ==> #[trigger] hops@[j] == old(hops)@[j],
        decreases hops.len() - i,
    {
        assert(hop::steps_v(old(hops)@)[i as int] == old(hops)@[i as int].v());
        let b = match hops[i].tgt {
            Some(_) => f[hops[i].src],
            None => match hops[i].end_vi {
                Some(e) => f[e],
                None => false,
            },
        };
        hops[i].fold = b;
        i = i + 1;
    }
}

fn attach_inlines(c: &preds::Chain, m: &Found, hops: &mut Vec<Hop>)
    requires
        chain_wf(c.v()),
        m.wf(c.v()),
        old(hops)@.len() == c.hops@.len(),
        forall|i: int|
            0 <= i < old(hops)@.len() ==> (#[trigger] old(hops)@[i]).v() == (StepHop {
                fold: step_folds(c.v().hops[i], m.f@),
                ..c.v().hops[i]
            }),
    ensures
        hop::steps_v(final(hops)@) == with_folds(c.v(), m.f@).hops,
{
    let ghost cv = c.v();
    let ghost f = m.f@;
    proof {
        assert forall|hi: int| 0 <= hi < hops@.len() implies (#[trigger] hops@[hi]).v() == (
        StepHop {
            fold: step_folds(cv.hops[hi], f),
            inline: cv.hops[hi].inline + inlines_at(cv, cv.wheres.take(0), f, hi),
            ..cv.hops[hi]
        }) by {
            seqs::lemma_keep_map_empty(
                cv.wheres,
                |w: WhereV| where_folds(cv, w, f) && where_at(cv, w, f) == hi,
                |w: WhereV| inline_of(cv, w, f),
            );
            assert(cv.hops[hi].inline + Seq::empty() =~= cv.hops[hi].inline);
        }
    }
    let mut i: usize = 0;
    while i < c.wheres.len()
        invariant
            cv == c.v(),
            chain_wf(cv),
            f == m.f@,
            m.wf(cv),
            i <= c.wheres@.len(),
            cv.wheres.len() == c.wheres@.len(),
            hops@.len() == cv.hops.len(),
            forall|hi: int|
                0 <= hi < hops@.len() ==> (#[trigger] hops@[hi]).v() == (StepHop {
                    fold: step_folds(cv.hops[hi], f),
                    inline: cv.hops[hi].inline + inlines_at(cv, cv.wheres.take(i as int), f, hi),
                    ..cv.hops[hi]
                }),
        decreases c.wheres.len() - i,
    {
        let ghost hops0 = hops@;
        let ghost w = cv.wheres[i as int];
        assert(w == c.wheres@[i as int].v());
        assert(pair_is(m.pairs@[i as int], w, cv));
        let mut at: Option<usize> = None;
        match m.pairs[i] {
            Some((a, b)) => {
                if m.f[a] || m.f[b] {
                    let (level, other) = pick_level(a, b, &m.f);
                    let pred = make_inline(&c.wheres[i], level, a, other);
                    assert(pred.v() == inline_of(cv, w, f));
                    proof {
                        lemma_binder(cv.hops, level as int);
                    }
                    match m.binder_of[level] {
                        Some(hi) => {
                            let ghost h0 = hops@[hi as int];
                            hops[hi].inline.push(pred);
                            at = Some(hi);
                            assert(hops@[hi as int].v().inline =~= h0.v().inline.push(
                                inline_of(cv, w, f),
                            ));
                        },
                        None => {},
                    }
                }
            },
            None => {},
        }
        proof {
            assert forall|hi: int| 0 <= hi < hops@.len() implies (#[trigger] hops@[hi]).v() == (
            StepHop {
                fold: step_folds(cv.hops[hi], f),
                inline: cv.hops[hi].inline + inlines_at(cv, cv.wheres.take(i + 1), f, hi),
                ..cv.hops[hi]
            }) by {
                let keep = |w: WhereV| where_folds(cv, w, f) && where_at(cv, w, f) == hi;
                seqs::lemma_keep_map_take(
                    cv.wheres,
                    i as int,
                    keep,
                    |w: WhereV| inline_of(cv, w, f),
                );
                assert(hops0[hi].v().inline == cv.hops[hi].inline + inlines_at(
                    cv,
                    cv.wheres.take(i as int),
                    f,
                    hi,
                ));
                if keep(w) {
                    assert(at == Some(hi as usize));
                    assert((cv.hops[hi].inline + inlines_at(cv, cv.wheres.take(i as int), f, hi)).push(
                        inline_of(cv, w, f),
                    ) =~= cv.hops[hi].inline + inlines_at(
                        cv,
                        cv.wheres.take(i as int),
                        f,
                        hi,
                    ).push(inline_of(cv, w, f)));
                } else {
                    assert(hops@[hi] == hops0[hi]);
                }
            }
        }
        i = i + 1;
    }
    assert(cv.wheres.take(i as int) =~= cv.wheres);
    assert(hop::steps_v(hops@) =~= with_folds(cv, f).hops);
}

fn kept_wheres(c: &preds::Chain, m: &Found) -> (r: Vec<WherePred>)
    requires
        m.wf(c.v()),
    ensures
        preds::wheres_v(r@) == with_folds(c.v(), m.f@).wheres,
{
    let ghost cv = c.v();
    let ghost f = m.f@;
    let ghost keep = |w: WhereV| !where_folds(cv, w, f);
    let mut r: Vec<WherePred> = Vec::new();
    let mut i: usize = 0;
    proof {
        assert(cv.wheres.take(0) =~= Seq::empty());
        seqs::lemma_filter_empty(keep);
        assert(preds::wheres_v(r@) =~= Seq::empty());
    }
    while i < c.wheres.len()
        invariant
            cv == c.v(),
            f == m.f@,
            m.wf(cv),
            keep == (|w: WhereV| !where_folds(cv, w, f)),
            i <= c.wheres@.len(),
            cv.wheres.len() == c.wheres@.len(),
            preds::wheres_v(r@) == cv.wheres.take(i as int).filter(keep),
        decreases c.wheres.len() - i,
    {
        let ghost r0 = r@;
        let ghost w = cv.wheres[i as int];
        proof {
            assert(w == c.wheres@[i as int].v());
            assert(pair_is(m.pairs@[i as int], w, cv));
            seqs::lemma_take_last(cv.wheres, i as int);
            seqs::lemma_filter_last(cv.wheres.take(i + 1), keep);
        }
        let gone = match m.pairs[i] {
            Some((a, b)) => m.f[a] || m.f[b],
            None => false,
        };
        if !gone {
            assert(keep(w));
            let x = c.wheres[i].copy();
            r.push(x);
            assert(preds::wheres_v(r@) =~= preds::wheres_v(r0).push(x.v()));
        } else {
            assert(!keep(w));
        }
        i = i + 1;
    }
    assert(cv.wheres.take(i as int) =~= cv.wheres);
    r
}

/// Marks the hops that a count folds, and moves the conjuncts that the fold
/// tests onto them. Nothing changes unless every aggregate is `count(*)`.
pub fn plan_count_fold(p: &mut AggPlan, levers: &Levers)
    requires
        chain_wf(old(p).v().chain),
        readset::tail_wf(old(p).v()),
    ensures
        final(p).v() == folded_plan(old(p).v(), levers::count_fold_on(*levers)),
{
    match find_marks(p, count_fold_enabled(levers)) {
        None => {},
        Some(m) => {
            let ghost cv = p.v().chain;
            let mut hops = crate::hop::copy_all(&p.chain.hops);
            proof {
                assert forall|i: int| 0 <= i < hops@.len() implies step_wf(
                    #[trigger] hop::steps_v(hops@)[i],
                    m.f@.len(),
                ) by {
                    assert(hop::steps_v(hops@)[i] == cv.hops[i]);
                }
            }
            let ghost hops0 = hops@;
            set_folds(&mut hops, &m.f);
            proof {
                assert forall|i: int| 0 <= i < hops@.len() implies (#[trigger] hops@[i]).v() == (
                StepHop { fold: step_folds(cv.hops[i], m.f@), ..cv.hops[i] }) by {
                    assert(hop::steps_v(hops0)[i] == cv.hops[i]);
                }
            }
            attach_inlines(&p.chain, &m, &mut hops);
            let wheres = kept_wheres(&p.chain, &m);
            p.chain.hops = hops;
            p.chain.wheres = wheres;
        },
    }
}

proof fn lemma_hops_fixed(p: AggV, f: Seq<bool>, n: nat, m: nat)
    requires
        n <= m,
        hops_pass(p, f, m) == f,
    ensures
        hops_pass(p, f, n) == f,
    decreases m - n,
{
    if n < m {
        let g = hops_pass(p, f, (m - 1) as nat);
        lemma_hops_drop(p, f, (m - 1) as nat);
        lemma_hop_drops(p, p.chain.hops[m - 1], g);
        lemma_drops_keep(hops_pass(p, f, m), g, f);
        lemma_hops_fixed(p, f, n, (m - 1) as nat);
    }
}

proof fn lemma_wheres_fixed(p: AggV, f: Seq<bool>, n: nat, m: nat)
    requires
        n <= m,
        wheres_pass(p, f, m) == f,
    ensures
        wheres_pass(p, f, n) == f,
    decreases m - n,
{
    if n < m {
        let g = wheres_pass(p, f, (m - 1) as nat);
        lemma_wheres_drop(p, f, (m - 1) as nat);
        lemma_where_drops(p.chain, p.chain.wheres[m - 1], g);
        lemma_drops_keep(wheres_pass(p, f, m), g, f);
        lemma_wheres_fixed(p, f, n, (m - 1) as nat);
    }
}

proof fn lemma_settled(p: AggV, f: Seq<bool>)
    ensures
        pass(p, settle(p, f)) == settle(p, f),
        drops(settle(p, f), f),
    decreases count_marks(f),
{
    lemma_pass_drops(p, f);
    lemma_drop_count(pass(p, f), f);
    if pass(p, f) != f {
        lemma_settled(p, pass(p, f));
        lemma_drops_keep(settle(p, f), pass(p, f), f);
    }
}

/// Whether marks keep what a fold needs of a step: an expansion out of a folded
/// variable folds, a step that stays closes onto no folded variable, and a
/// folded close reads a variable that is bound by then and binds no
/// relationship that is read.
pub open spec fn step_sound(p: AggV, h: StepHop, f: Seq<bool>) -> bool {
    if !f[h.src] {
        h.tgt matches Some(t) ==> !f[t]
    } else {
        match h.tgt {
            None => f[h.end_vi->0],
            Some(t) => !rel_read(p, h) && bound_at(p.chain.hops, t, h.src, f),
        }
    }
}

/// Whether a conjunct that a fold tests compares with a variable that is bound
/// by then.
pub open spec fn where_sound(c: ChainV, w: WhereV, f: Seq<bool>) -> bool {
    where_folds(c, w, f) ==> {
        let (a, b) = pair_of(w, c.vars)->0;
        let (level, other) = level_of(a, b, f);
        f[level] && bound_at(c.hops, other, level, f)
    }
}

/// A count folds nothing that is read: every folded variable is a node that
/// some step binds and nothing outside the fold reads, and what a fold itself
/// reads is bound when it is read.
pub proof fn law_fold_reads_bound(p: AggV, on: bool)
    requires
        chain_wf(p.chain),
        fold_marks(p, on) is Some,
    ensures
        (fold_marks(p, on)->0).len() == p.chain.vars.len(),
        forall|v: int|
            0 <= v < p.chain.vars.len() && #[trigger] (fold_marks(p, on)->0)[v] ==> starts_folded(
                p,
                v,
            ),
        forall|i: int|
            0 <= i < p.chain.hops.len() ==> step_sound(
                p,
                #[trigger] p.chain.hops[i],
                fold_marks(p, on)->0,
            ),
        forall|i: int|
            0 <= i < p.chain.wheres.len() ==> where_sound(
                p.chain,
                #[trigger] p.chain.wheres[i],
                fold_marks(p, on)->0,
            ),
{
    let f = fold_marks(p, on)->0;
    let f0 = first_marks(p);
    lemma_settled(p, f0);
    let n = p.chain.hops.len();
    let m = p.chain.wheres.len();
    let g = hops_pass(p, f, n);
    lemma_hops_drop(p, f, n);
    lemma_wheres_drop(p, g, m);
    lemma_drops_keep(pass(p, f), g, f);
    assert forall|v: int| 0 <= v < p.chain.vars.len() && #[trigger] f[v] implies starts_folded(
        p,
        v,
    ) by {
        assert(f0[v]);
    }
    assert forall|i: int| 0 <= i < n implies step_sound(p, #[trigger] p.chain.hops[i], f) by {
        lemma_hops_fixed(p, f, i as nat, n);
        lemma_hops_fixed(p, f, (i + 1) as nat, n);
        let h = p.chain.hops[i];
        assert(step_wf(h, p.chain.vars.len()));
        assert(hop_rule(p, h, f) == f);
        assert forall|v: int| #![trigger f[v]] 0 <= v < f.len() && f[v] implies unmark(f, v)
            != f by {
            assert(unmark(f, v)[v] != f[v]);
        }
    }
    assert forall|i: int| 0 <= i < m implies where_sound(p.chain, #[trigger] p.chain.wheres[i], f) by {
        lemma_wheres_fixed(p, f, i as nat, m);
        lemma_wheres_fixed(p, f, (i + 1) as nat, m);
        let w = p.chain.wheres[i];
        assert(where_rule(p.chain, w, f) == f);
        if where_folds(p.chain, w, f) {
            let (a, b) = pair_of(w, p.chain.vars)->0;
            lemma_pair_in(w, p.chain.vars);
            let (level, other) = level_of(a, b, f);
            assert(f[level]);
            assert(unmark(f, level)[level] != f[level]);
        }
    }
}

pub proof fn lemma_pair_in(w: WhereV, vars: Seq<Seq<char>>)
    ensures
        pair_of(w, vars) matches Some((a, b)) ==> 0 <= a < vars.len() && 0 <= b < vars.len(),
{
    let (x, y) = match w.edge {
        Some(e) => (e.src, e.dst),
        None => (w.var, (w.id_other->0).0),
    };
    names::lemma_position(vars, x);
    names::lemma_position(vars, y);
}

/// A conjunct is tested exactly once, by a fold or by a filter.
pub proof fn law_fold_keeps_conjuncts(c: ChainV, f: Seq<bool>, w: WhereV)
    ensures
        with_folds(c, f).wheres.contains(w) <==> c.wheres.contains(w) && !where_folds(c, w, f),
{
    let keep = |w: WhereV| !where_folds(c, w, f);
    seqs::lemma_filter_contains(c.wheres, keep, w);
}

} // verus!
