//! Where the steps of a chain stand: what they read is bound, what they bind
//! comes next, and a path goes on where it left off.

use vstd::prelude::*;

use crate::aggregate;
use crate::aggregate::pattern_fits;
use crate::chain;
use crate::chain::{add_hop, enter_path, walk_hops, walk_path, walk_paths, Allow, HopsV, Place};
use crate::fold::inline_index;
use crate::fold_plan;
use crate::graph::VarKind;
use crate::hop;
use crate::hop::{Hop, StepHop};
use crate::names;
use crate::plan::{aggregate_plan, AggV};
use crate::preds;
use crate::preds::chain_of;
use crate::query::{ClauseV, NodeV, PathV, PatternV, RelV};

verus! {

/// How many variables a step adds.
pub open spec fn adds(h: StepHop) -> nat {
    if h.varlen is Some {
        1
    } else {
        (if h.tgt is None {
            1nat
        } else {
            0
        }) + (if h.rel_var is Some {
            1nat
        } else {
            0
        })
    }
}

/// How many variables are bound after `k` steps, of which `first` are bound at
/// the start.
pub open spec fn width_at(hops: Seq<StepHop>, first: nat, k: int) -> nat
    decreases k,
{
    if k <= 0 {
        first
    } else {
        width_at(hops, first, k - 1) + adds(hops[k - 1])
    }
}

/// A step reads what is bound and binds the next variable, and one that goes
/// on with a path starts where the step before it ends.
pub open spec fn step_laid(hops: Seq<StepHop>, first: nat, k: int) -> bool {
    let h = hops[k];
    let w = width_at(hops, first, k);
    &&& 0 <= h.src < w
    &&& match h.tgt {
        Some(t) => 0 <= t < w && h.end_vi is None && h.varlen is None,
        None => h.end_vi == Some(w as int),
    }
    &&& h.varlen is Some ==> !h.track && !h.fold
    &&& h.track && !h.reset && k > 0 ==> hops[k - 1].track && hops[k - 1].tgt is None
        && hops[k - 1].end_vi == Some(h.src)
}

/// Every step of a chain is where it belongs.
pub open spec fn laid_out(hops: Seq<StepHop>, first: nat) -> bool {
    forall|k: int| 0 <= k < hops.len() ==> #[trigger] step_laid(hops, first, k)
}

/// What starts at a counted variable is counted.
pub open spec fn sealed(hops: Seq<StepHop>) -> bool {
    forall|j: int, k: int|
        #![trigger hops[j], hops[k]]
        0 <= j < hops.len() && 0 <= k < hops.len() && hops[j].fold && hops[j].tgt is None
            && hops[j].end_vi == Some(hops[k].src) ==> hops[k].fold
}

/// What the tests of counted steps read is a variable of the chain.
pub open spec fn tests_fit(hops: Seq<StepHop>, first: nat) -> bool {
    forall|i: int, k: int|
        #![trigger hops[i].inline[k]]
        0 <= i < hops.len() && 0 <= k < hops[i].inline.len() ==> 0 <= aggregate::inline_vi(
            hops[i].inline[k],
        ) < width_at(hops, first, hops.len() as int)
}

/// The steps of an optional match after `first` variables are where they
/// belong; they have a fixed length and test nothing.
pub open spec fn leg_laid(hops: Seq<StepHop>, first: nat) -> bool {
    &&& laid_out(hops, first)
    &&& forall|i: int|
        0 <= i < hops.len() ==> (#[trigger] hops[i]).varlen is None && hops[i].inline.len() == 0
}

/// An optional match that is counted: every step is, binds a node at most, and
/// the first starts a path of its own.
pub open spec fn leg_counted(hops: Seq<StepHop>, first: nat) -> bool {
    &&& leg_laid(hops, first)
    &&& forall|i: int|
        0 <= i < hops.len() ==> (#[trigger] hops[i]).fold && hops[i].rel_var is None
    &&& hops.len() > 0 ==> hops[0].reset
}

/// An optional match that is taken row by row.
pub open spec fn leg_plain(hops: Seq<StepHop>, first: nat) -> bool {
    leg_laid(hops, first) && forall|i: int| 0 <= i < hops.len() ==> !(#[trigger] hops[i]).fold
}

/// A chain that starts at one variable can run.
pub open spec fn runnable(hops: Seq<StepHop>) -> bool {
    laid_out(hops, 1) && sealed(hops) && tests_fit(hops, 1)
}

fn added(h: &Hop) -> (n: usize)
    ensures
        n == adds(h.v()),
        n <= 2,
{
    if h.varlen.is_some() {
        return 1;
    }
    let mut n: usize = 0;
    if h.tgt.is_none() {
        n = n + 1;
    }
    if h.rel_var.is_some() {
        n = n + 1;
    }
    n
}

fn same_index(a: Option<usize>, b: usize) -> (r: bool)
    ensures
        r == (hop::opt_index(a) == Some(b as int)),
{
    match a {
        Some(x) => x == b,
        None => false,
    }
}

fn is_step_laid(hops: &Vec<Hop>, first: usize, k: usize, w: usize) -> (b: bool)
    requires
        k < hops@.len(),
        w == width_at(hop::steps_v(hops@), first as nat, k as int),
    ensures
        b == step_laid(hop::steps_v(hops@), first as nat, k as int),
{
    let h = &hops[k];
    assert(hop::steps_v(hops@)[k as int] == h.v());
    if h.src >= w {
        return false;
    }
    let ends = match h.tgt {
        Some(t) => t < w && h.end_vi.is_none() && h.varlen.is_none(),
        None => same_index(h.end_vi, w),
    };
    if !ends || (h.varlen.is_some() && (h.track || h.fold)) {
        return false;
    }
    if h.track && !h.reset && k > 0 {
        let p = &hops[k - 1];
        assert(hop::steps_v(hops@)[k - 1] == p.v());
        return p.track && p.tgt.is_none() && same_index(p.end_vi, h.src);
    }
    true
}

fn is_sealed_at(hops: &Vec<Hop>, j: usize) -> (b: bool)
    requires
        j < hops@.len(),
    ensures
        b == forall|k: int|
            0 <= k < hops@.len() && hops@[j as int].fold && hops@[j as int].tgt is None
                && hops@[j as int].end_vi == Some((#[trigger] hops@[k]).src) ==> hops@[k].fold,
{
    let h = &hops[j];
    if !h.fold || h.tgt.is_some() {
        return true;
    }
    let mut k: usize = 0;
    while k < hops.len()
        invariant
            k <= hops@.len(),
            j < hops@.len(),
            *h == hops@[j as int],
            h.fold,
            h.tgt is None,
            forall|i: int|
                0 <= i < k && h.end_vi == Some((#[trigger] hops@[i]).src) ==> hops@[i].fold,
        decreases hops.len() - k,
    {
        if same_index(h.end_vi, hops[k].src) && !hops[k].fold {
            assert(hops@[j as int].end_vi == Some(hops@[k as int].src));
            return false;
        }
        k = k + 1;
    }
    true
}

/// Whether every step of a chain that starts at `first` variables is where it
/// belongs.
pub fn is_laid_out(hops: &Vec<Hop>, first: usize) -> (b: bool)
    requires
        hops@.len() < usize::MAX / 4,
        first < usize::MAX / 4,
    ensures
        b == laid_out(hop::steps_v(hops@), first as nat),
{
    let ghost ss = hop::steps_v(hops@);
    let mut w: usize = first;
    let mut k: usize = 0;
    while k < hops.len()
        invariant
            k <= hops@.len(),
            hops@.len() < usize::MAX / 4,
            first < usize::MAX / 4,
            ss == hop::steps_v(hops@),
            w == width_at(ss, first as nat, k as int),
            w <= first + 2 * k,
            forall|i: int| 0 <= i < k ==> #[trigger] step_laid(ss, first as nat, i),
        decreases hops.len() - k,
    {
        if !is_step_laid(hops, first, k, w) {
            assert(!step_laid(ss, first as nat, k as int));
            return false;
        }
        assert(ss[k as int] == hops@[k as int].v());
        w = w + added(&hops[k]);
        k = k + 1;
    }
    true
}

fn count_width(hops: &Vec<Hop>) -> (w: usize)
    requires
        hops@.len() < usize::MAX / 4,
    ensures
        w == width_at(hop::steps_v(hops@), 1, hops@.len() as int),
{
    let ghost ss = hop::steps_v(hops@);
    let mut w: usize = 1;
    let mut k: usize = 0;
    while k < hops.len()
        invariant
            k <= hops@.len(),
            hops@.len() < usize::MAX / 4,
            ss == hop::steps_v(hops@),
            w == width_at(ss, 1, k as int),
            w <= 1 + 2 * k,
        decreases hops.len() - k,
    {
        assert(ss[k as int] == hops@[k as int].v());
        w = w + added(&hops[k]);
        k = k + 1;
    }
    w
}

/// Whether a chain that starts at one variable can run.
pub fn can_run(hops: &Vec<Hop>) -> (b: bool)
    requires
        hops@.len() < usize::MAX / 4,
    ensures
        b == runnable(hop::steps_v(hops@)),
{
    let ghost ss = hop::steps_v(hops@);
    let ghost n = hops@.len() as int;
    if !is_laid_out(hops, 1) {
        return false;
    }
    let w = count_width(hops);
    let mut j: usize = 0;
    while j < hops.len()
        invariant
            j <= hops@.len(),
            ss == hop::steps_v(hops@),
            forall|a: int, b: int|
                #![trigger ss[a], ss[b]]
                0 <= a < j && 0 <= b < ss.len() && ss[a].fold && ss[a].tgt is None && ss[a].end_vi
                    == Some(ss[b].src) ==> ss[b].fold,
        decreases hops.len() - j,
    {
        if !is_sealed_at(hops, j) {
            proof {
                let b = choose|b: int|
                    0 <= b < hops@.len() && hops@[j as int].fold && hops@[j as int].tgt is None
                        && hops@[j as int].end_vi == Some((#[trigger] hops@[b]).src)
                        && !hops@[b].fold;
                assert(ss[j as int] == hops@[j as int].v() && ss[b] == hops@[b].v());
            }
            return false;
        }
        assert forall|b: int|
            0 <= b < ss.len() && ss[j as int].fold && ss[j as int].tgt is None
                && ss[j as int].end_vi == Some((#[trigger] ss[b]).src) implies ss[b].fold by {
            assert(ss[j as int] == hops@[j as int].v() && ss[b] == hops@[b].v());
            assert(hops@[j as int].end_vi == Some(hops@[b].src));
        }
        j = j + 1;
    }
    let mut i: usize = 0;
    while i < hops.len()
        invariant
            i <= hops@.len(),
            ss == hop::steps_v(hops@),
            n == hops@.len(),
            w == width_at(ss, 1, n),
            forall|a: int, b: int|
                #![trigger ss[a].inline[b]]
                0 <= a < i && 0 <= b < ss[a].inline.len() ==> 0 <= aggregate::inline_vi(
                    ss[a].inline[b],
                ) < w,
        decreases hops.len() - i,
    {
        assert(ss[i as int] == hops@[i as int].v());
        let mut k: usize = 0;
        while k < hops[i].inline.len()
            invariant
                i < hops@.len(),
                k <= hops@[i as int].inline@.len(),
                ss == hop::steps_v(hops@),
                n == hops@.len(),
                w == width_at(ss, 1, n),
                ss[i as int] == hops@[i as int].v(),
                forall|b: int|
                    0 <= b < k ==> 0 <= aggregate::inline_vi(#[trigger] ss[i as int].inline[b]) < w,
            decreases hops[i as int].inline.len() - k,
        {
            assert(ss[i as int].inline[k as int] == hops@[i as int].inline@[k as int].v());
            if inline_index(&hops[i].inline[k]) >= w {
                assert(!tests_fit(ss, 1));
                return false;
            }
            k = k + 1;
        }
        i = i + 1;
    }
    true
}

/// Whether an optional match after `first` variables can run, counted or row by
/// row.
pub fn can_extend(hops: &Vec<Hop>, first: usize) -> (b: bool)
    requires
        hops@.len() < usize::MAX / 4,
        first < usize::MAX / 4,
    ensures
        b == if hops@.len() > 0 && hops@[0].fold {
            leg_counted(hop::steps_v(hops@), first as nat)
        } else {
            leg_plain(hop::steps_v(hops@), first as nat)
        },
{
    let ghost ss = hop::steps_v(hops@);
    if !is_laid_out(hops, first) {
        return false;
    }
    let counted = hops.len() > 0 && hops[0].fold;
    proof {
        if hops@.len() > 0 {
            assert(ss[0] == hops@[0].v());
        }
    }
    if counted && !hops[0].reset {
        return false;
    }
    let mut i: usize = 0;
    while i < hops.len()
        invariant
            i <= hops@.len(),
            ss == hop::steps_v(hops@),
            counted == (hops@.len() > 0 && hops@[0].fold),
            forall|j: int|
                0 <= j < i ==> (#[trigger] ss[j]).varlen is None && ss[j].inline.len() == 0
                    && ss[j].fold == counted && (counted ==> ss[j].rel_var is None),
        decreases hops.len() - i,
    {
        let h = &hops[i];
        assert(ss[i as int] == h.v());
        if h.varlen.is_some() || h.inline.len() > 0 || h.fold != counted || (counted
            && h.rel_var.is_some()) {
            proof {
                assert(!(ss[i as int].varlen is None && ss[i as int].inline.len() == 0
                    && ss[i as int].fold == counted && (counted ==> ss[i as int].rel_var is None)));
            }
            return false;
        }
        i = i + 1;
    }
    true
}

/// Later steps find at least as much bound, and more past a step that binds.
pub proof fn lemma_width(hops: Seq<StepHop>, first: nat, a: int, b: int)
    requires
        0 <= a <= b <= hops.len(),
    ensures
        width_at(hops, first, a) <= width_at(hops, first, b),
        a < b && (hops[a].tgt is None || hops[a].varlen is Some) ==> width_at(hops, first, a)
            < width_at(hops, first, b),
        width_at(hops, first, b) <= width_at(hops, first, a) + 2 * (b - a),
    decreases b - a,
{
    if a < b {
        lemma_width(hops, first, a, b - 1);
    }
}

proof fn lemma_width_prefix(x: Seq<StepHop>, y: Seq<StepHop>, first: nat, k: int)
    requires
        k <= x.len(),
        k <= y.len(),
        forall|i: int| 0 <= i < k ==> adds(#[trigger] x[i]) == adds(y[i]),
    ensures
        width_at(x, first, k) == width_at(y, first, k),
    decreases k,
{
    if k > 0 {
        lemma_width_prefix(x, y, first, k - 1);
        assert(adds(x[k - 1]) == adds(y[k - 1]));
    }
}

/// Steps that add as much find as much bound.
pub proof fn lemma_width_same(x: Seq<StepHop>, y: Seq<StepHop>, first: nat)
    requires
        x.len() == y.len(),
        forall|i: int| 0 <= i < x.len() ==> adds(#[trigger] x[i]) == adds(y[i]),
    ensures
        forall|k: int| 0 <= k <= x.len() ==> #[trigger] width_at(x, first, k) == width_at(y, first, k),
{
    assert forall|k: int| 0 <= k <= x.len() implies #[trigger] width_at(x, first, k) == width_at(
        y,
        first,
        k,
    ) by {
        lemma_width_prefix(x, y, first, k);
    }
}

/// What holds of a pattern's steps while they are read.
spec fn kept(st: HopsV, first: nat) -> bool {
    &&& laid_out(st.hops, first)
    &&& st.vars.len() == width_at(st.hops, first, st.hops.len() as int)
    &&& forall|i: int| 0 <= i < st.hops.len() ==> !(#[trigger] st.hops[i]).fold
    &&& forall|i: int| 0 <= i < st.hops.len() ==> (#[trigger] st.hops[i]).inline.len() == 0
}

/// Where a path goes on.
spec fn goes_on(st: HopsV, src: int, path: int, n: int, total: int) -> bool {
    &&& 0 <= src < st.vars.len()
    &&& 0 < n < total ==> st.hops.len() > 0 && st.hops.last().end_vi == Some(src)
        && st.hops.last().tgt is None && st.hops.last().track
    &&& n == 0 && path == 0 ==> st.hops.len() == 0
}

proof fn lemma_add(st: HopsV, at: Place, src: int, rel: RelV, node: NodeV, allow: Allow, first: nat)
    requires
        kept(st, first),
        goes_on(st, src, at.path as int, at.hop as int, at.hops as int),
        at.hop < at.hops,
    ensures
        add_hop(st, at, src, rel, node, allow) matches Some((st1, s)) ==> kept(st1, first)
            && goes_on(st1, s, at.path as int, at.hop + 1, at.hops as int),
{
    match add_hop(st, at, src, rel, node, allow) {
        Some((st1, s)) => {
            let n = st.hops.len() as int;
            let h = st1.hops.last();
            assert(st1.hops =~= st.hops.push(h));
            if h.tgt is Some {
                names::lemma_position(st.vars, h.var);
            }
            lemma_width_prefix(st1.hops, st.hops, first, n);
            assert forall|k: int| 0 <= k < st1.hops.len() implies #[trigger] step_laid(
                st1.hops,
                first,
                k,
            ) by {
                lemma_width_prefix(st1.hops, st.hops, first, k);
                if k < n {
                    assert(step_laid(st.hops, first, k));
                    assert(st1.hops[k] == st.hops[k]);
                    if k > 0 {
                        assert(st1.hops[k - 1] == st.hops[k - 1]);
                    }
                } else if k > 0 {
                    assert(st1.hops[k - 1] == st.hops.last());
                }
            }
        },
        None => {},
    }
}

proof fn lemma_hops(
    st: HopsV,
    src: int,
    path: PathV,
    paths: usize,
    pi: usize,
    n: nat,
    allow: Allow,
    first: nat,
)
    requires
        kept(st, first),
        goes_on(st, src, pi as int, 0, path.hops.len() as int),
        n <= path.hops.len() <= usize::MAX,
    ensures
        walk_hops(st, src, path, paths, pi, n, allow) matches Some((st1, s)) ==> kept(st1, first)
            && goes_on(st1, s, pi as int, n as int, path.hops.len() as int),
    decreases n,
{
    if n > 0 {
        lemma_hops(st, src, path, paths, pi, (n - 1) as nat, allow, first);
        match walk_hops(st, src, path, paths, pi, (n - 1) as nat, allow) {
            Some((mid, s)) => {
                lemma_add(
                    mid,
                    Place { paths, path: pi, hops: path.hops.len() as usize, hop: (n - 1) as usize },
                    s,
                    path.hops[n - 1].0,
                    path.hops[n - 1].1,
                    allow,
                    first,
                );
            },
            None => {},
        }
    }
}

proof fn lemma_path(
    st: HopsV,
    path: PathV,
    paths: usize,
    pi: usize,
    fresh: bool,
    allow: Allow,
    first: nat,
)
    requires
        if fresh {
            st.vars.len() == 0 && st.hops.len() == 0 && first == 1
        } else {
            kept(st, first)
        },
        pi == 0 ==> st.hops.len() == 0,
        path.hops.len() <= usize::MAX,
    ensures
        walk_path(st, path, paths, pi, fresh, allow) matches Some(st1) ==> kept(st1, first),
{
    match enter_path(st, path, fresh, allow) {
        Some((mid, to)) => {
            match chain::node_name(st, path.start.var) {
                Some((named, x)) => {
                    names::lemma_position(st.vars, x);
                },
                None => {},
            }
            assert(mid.hops == st.hops);
            assert(kept(mid, first));
            match to {
                Some(src) => {
                    lemma_hops(mid, src, path, paths, pi, path.hops.len(), allow, first);
                },
                None => {},
            }
        },
        None => {},
    }
}

proof fn lemma_paths(st: HopsV, pattern: PatternV, scan: bool, n: nat, allow: Allow, first: nat)
    requires
        st.hops.len() == 0,
        if scan {
            st.vars.len() == 0 && first == 1
        } else {
            st.vars.len() == first
        },
        pattern_fits(pattern),
        n <= pattern.paths.len(),
    ensures
        walk_paths(st, pattern, scan, n, allow) matches Some(st1) ==> if n == 0 {
            st1 == st
        } else {
            kept(st1, first)
        },
    decreases n,
{
    if n > 0 {
        lemma_paths(st, pattern, scan, (n - 1) as nat, allow, first);
        match walk_paths(st, pattern, scan, (n - 1) as nat, allow) {
            Some(mid) => {
                lemma_path(
                    mid,
                    pattern.paths[n - 1],
                    pattern.paths.len() as usize,
                    (n - 1) as usize,
                    n == 1 && scan,
                    allow,
                    first,
                );
            },
            None => {},
        }
    }
}

/// The steps of a pattern are where they belong, and its variables are the one
/// it starts at and those its steps bind.
pub proof fn law_steps_are_laid_out(pattern: PatternV, allow: Allow)
    requires
        pattern_fits(pattern),
    ensures
        chain::scan_hops(pattern, allow) matches Some(h) ==> runnable(h.hops) && h.vars.len()
            == width_at(h.hops, 1, h.hops.len() as int),
{
    if pattern.paths.len() > 0 {
        lemma_paths(
            chain::before(Seq::empty(), Seq::empty(), Map::empty()),
            pattern,
            true,
            pattern.paths.len(),
            allow,
            1,
        );
    }
}

/// The steps of a pattern that starts at bound variables are where they belong.
pub proof fn law_bound_steps_are_laid_out(
    pattern: PatternV,
    vars: Seq<Seq<char>>,
    kinds: Seq<VarKind>,
    labels: Map<Seq<char>, Seq<Seq<char>>>,
    allow: Allow,
)
    requires
        pattern_fits(pattern),
    ensures
        chain::bound_hops(pattern, vars, kinds, labels, allow) matches Some(h) ==> laid_out(
            h.hops,
            vars.len(),
        ) && (forall|i: int|
            0 <= i < h.hops.len() ==> !(#[trigger] h.hops[i]).fold && h.hops[i].inline.len() == 0)
            && h.vars.len() == width_at(h.hops, vars.len(), h.hops.len() as int),
{
    if pattern.paths.len() > 0 {
        lemma_paths(
            chain::before(vars, kinds, labels),
            pattern,
            false,
            pattern.paths.len(),
            allow,
            vars.len(),
        );
    }
}

/// A chain that a count was planned on can run: its steps are where they
/// belong, what starts at a counted variable is counted, and what a counted
/// step tests is a variable of the chain.
pub proof fn law_planned_count_runs(q: Seq<ClauseV>, on: bool, p: AggV)
    requires
        aggregate::aggregate_of(q, on) == Some(p),
        q.len() > 0,
        q[0] matches ClauseV::Match { pattern, .. } && pattern_fits(pattern),
        p.chain.vars.len() <= usize::MAX,
    ensures
        runnable(p.chain.hops),
        p.chain.vars.len() == width_at(p.chain.hops, 1, p.chain.hops.len() as int),
{
    let pattern = q[0]->Match_pattern;
    let where_ = q[0]->Match_where_;
    law_steps_are_laid_out(pattern, preds::chain_allow());
    aggregate::law_steps_are_bound(pattern, preds::chain_allow());
    let c = chain_of(pattern, where_)->0;
    let with = if q.len() == 3 {
        Some((q[1]->With_where_, q[2]->Return_proj))
    } else {
        None
    };
    let proj = if q.len() == 3 {
        q[1]->With_proj
    } else {
        q[1]->Return_proj
    };
    let p0 = aggregate_plan(c, proj, with)->0;
    assert(p == fold_plan::folded_plan(p0, on));
    aggregate::lemma_agg_wf(c, proj, with);
    assert(p0.chain == c);
    match fold_plan::fold_marks(p0, on) {
        Some(f) => {
            fold_plan::law_fold_reads_bound(p0, on);
            let hops = p.chain.hops;
            assert(hops.len() == c.hops.len());
            assert forall|k: int| 0 <= k < hops.len() implies #[trigger] step_laid(hops, 1, k) by {
                lemma_width_prefix(hops, c.hops, 1, k);
                assert(step_laid(c.hops, 1, k));
                assert(fold_plan::step_wf(c.hops[k], c.vars.len()));
                if c.hops[k].varlen is Some && hops[k].fold {
                    let e = c.hops[k].end_vi->0;
                    assert(fold_plan::starts_folded(p0, e));
                    assert(fold_plan::hop_reads(c.hops[k], e));
                }
                if k > 0 {
                    assert(hops[k - 1].tgt == c.hops[k - 1].tgt);
                }
            }
            assert forall|j: int, k: int|
                #![trigger hops[j], hops[k]]
                0 <= j < hops.len() && 0 <= k < hops.len() && hops[j].fold && hops[j].tgt is None
                    && hops[j].end_vi == Some(hops[k].src) implies hops[k].fold by {
                assert(fold_plan::step_sound(p0, c.hops[k], f));
                assert(fold_plan::step_wf(c.hops[k], c.vars.len()));
                assert(f[c.hops[k].src]);
            }
            lemma_width_prefix(hops, c.hops, 1, hops.len() as int);
            assert forall|i: int, k: int|
                #![trigger hops[i].inline[k]]
                0 <= i < hops.len() && 0 <= k < hops[i].inline.len() implies 0
                <= aggregate::inline_vi(hops[i].inline[k]) < width_at(
                hops,
                1,
                hops.len() as int,
            ) by {
                aggregate::lemma_inlines_in(c, c.wheres, f, i);
                assert(c.hops[i].inline.len() == 0);
                assert(hops[i].inline =~= fold_plan::inlines_at(c, c.wheres, f, i));
            }
        },
        None => {},
    }
}

} // verus!
