//! Building the fold's lookups from a chain.

use std::collections::BTreeSet;
use vstd::prelude::*;

use crate::fold;
use crate::fold::{inline_index, FoldPlan, InlinePreds};
use crate::fold_model;
use crate::fold_model::FoldV;
use crate::graph::Graph;
use crate::hop::{copy_pred, Hop, InlinePred};
use crate::names;
use crate::names::has_name;
use crate::seqs;

verus! {

/// Whether a variable is in the subtree of counted hops below `u`.
pub open spec fn below(hops: Seq<Hop>, u: int, v: int) -> bool
    decreases v,
{
    v == u || exists|hi: int|
        0 <= hi < hops.len() && (#[trigger] hops[hi]).fold && hops[hi].tgt is None
            && hops[hi].end_vi == Some(v as usize) && v <= usize::MAX && (hops[hi].src as int) < v
            && below(hops, u, hops[hi].src as int)
}

/// Whether a hop below `u` reads only what is below `u` and keeps apart only
/// from hops that share no type with it.
pub open spec fn self_contained(
    hops: Seq<Hop>,
    preds: Seq<InlinePreds>,
    paths: Seq<usize>,
    u: int,
    hi: int,
) -> bool {
    let h = hops[hi];
    &&& h.tgt matches Some(t) ==> below(hops, u, t as int)
    &&& forall|k: int|
        0 <= k < preds[hi]@.len() ==> below(
            hops,
            u,
            fold::inline_var((#[trigger] preds[hi]@[k]).0),
        )
    &&& h.track ==> forall|gi: int|
        0 <= gi < hops.len() && gi != hi && #[trigger] paths[gi] == paths[hi]
            ==> fold_model::disjoint(names::of(hops[gi].types@), names::of(h.types@))
}

/// Whether a variable's level is a function of its node alone.
pub open spec fn memo_pure(
    hops: Seq<Hop>,
    preds: Seq<InlinePreds>,
    paths: Seq<usize>,
    u: int,
) -> bool {
    forall|hi: int|
        0 <= hi < hops.len() && (#[trigger] hops[hi]).fold && below(hops, u, hops[hi].src as int)
            ==> self_contained(hops, preds, paths, u, hi)
}

/// Whether two type lists share no type; a list that names no type shares one
/// with any list.
pub fn types_disjoint(a: &Vec<String>, b: &Vec<String>) -> (r: bool)
    ensures
        r == fold_model::disjoint(names::of(a@), names::of(b@)),
{
    if a.len() == 0 || b.len() == 0 {
        return false;
    }
    let mut i: usize = 0;
    while i < a.len()
        invariant
            i <= a.len(),
            a@.len() > 0,
            b@.len() > 0,
            forall|j: int| 0 <= j < i ==> !names::of(b@).contains(#[trigger] names::of(a@)[j]),
        decreases a.len() - i,
    {
        if has_name(b, &a[i]) {
            proof {
                assert(names::of(b@).contains(names::of(a@)[i as int]));
            }
            return false;
        }
        i = i + 1;
    }
    true
}

/// How many entries are not set.
spec fn unset(v: Seq<bool>) -> nat
    decreases v.len(),
{
    if v.len() == 0 {
        0
    } else {
        unset(v.drop_last()) + if v.last() {
            0nat
        } else {
            1nat
        }
    }
}

proof fn lemma_unset_update(v: Seq<bool>, i: int)
    requires
        0 <= i < v.len(),
        !v[i],
    ensures
        unset(v.update(i, true)) + 1 == unset(v),
    decreases v.len(),
{
    let w = v.update(i, true);
    if i == v.len() - 1 {
        assert(w.drop_last() =~= v.drop_last());
    } else {
        lemma_unset_update(v.drop_last(), i);
        assert(w.drop_last() =~= v.drop_last().update(i, true));
    }
}

/// What is reached from `u` is all that is below it.
proof fn lemma_closed(hops: Seq<Hop>, sub: Seq<bool>, u: int, v: int)
    requires
        0 <= u < sub.len(),
        sub[u],
        0 <= v < sub.len(),
        below(hops, u, v),
        forall|hi: int|
            0 <= hi < hops.len() && (#[trigger] hops[hi]).fold && hops[hi].src < sub.len()
                && sub[hops[hi].src as int] ==> (hops[hi].end_vi matches Some(e) ==> e < sub.len()
                && sub[e as int]),
    ensures
        sub[v],
    decreases v,
{
    if v != u {
        let hi = choose|hi: int|
            0 <= hi < hops.len() && (#[trigger] hops[hi]).fold && hops[hi].tgt is None
                && hops[hi].end_vi == Some(v as usize) && v <= usize::MAX && (hops[hi].src as int)
                < v && below(hops, u, hops[hi].src as int);
        lemma_closed(hops, sub, u, hops[hi].src as int);
        assert(hops[hi].end_vi == Some(v as usize));
    }
}

/// The lists of children are those of the chain.
pub open spec fn children_ok(hops: Seq<Hop>, children: Seq<Vec<usize>>) -> bool {
    &&& forall|v: int, k: int|
        #![trigger children[v]@[k]]
        0 <= v < children.len() && 0 <= k < children[v]@.len() ==> {
            let hi = children[v]@[k] as int;
            hi < hops.len() && hops[hi].fold && hops[hi].src == v
        }
    &&& forall|hi: int|
        0 <= hi < hops.len() && (#[trigger] hops[hi]).fold ==> hops[hi].src < children.len()
            && children[hops[hi].src as int]@.contains(hi as usize)
}

/// Whether a variable's level is a function of its node alone: every close and
/// inline predicate below it names only variables below it, and every hop
/// below it that keeps its path's relationships apart shares no type with
/// another hop of its path.
pub fn memo_ok_for(
    u: usize,
    hops: &Vec<Hop>,
    children: &Vec<Vec<usize>>,
    preds: &Vec<InlinePreds>,
    path_id: &Vec<usize>,
) -> (b: bool)
    requires
        u < children@.len(),
        preds@.len() == hops@.len(),
        path_id@.len() == hops@.len(),
        children_ok(hops@, children@),
        forall|hi: int|
            0 <= hi < hops@.len() ==> {
                let h = #[trigger] hops@[hi];
                &&& h.tgt matches Some(t) ==> t < children@.len() && h.end_vi is None
                &&& h.fold ==> (h.end_vi matches Some(e) ==> h.src < e && e < children@.len())
                &&& forall|k: int|
                    0 <= k < preds@[hi]@.len() ==> fold::inline_var(
                        (#[trigger] preds@[hi]@[k]).0,
                    ) < children@.len()
            },
    ensures
        b == memo_pure(hops@, preds@, path_id@, u as int),
{
    let n = children.len();
    let hn = hops.len();
    let mut sub: Vec<bool> = Vec::new();
    let mut i: usize = 0;
    while i < n
        invariant
            i <= n,
            sub@.len() == i,
            forall|j: int| 0 <= j < i ==> !sub@[j],
        decreases n - i,
    {
        sub.push(false);
        i = i + 1;
    }
    sub.set(u, true);
    let mut sub_hops: Vec<usize> = Vec::new();
    let mut stack: Vec<usize> = Vec::new();
    stack.push(u);
    assert(stack@[0] == u);
    while stack.len() > 0
        invariant
            hn == hops@.len(),
            n == children@.len(),
            sub@.len() == n,
            u < n,
            sub@[u as int],
            children_ok(hops@, children@),
            forall|hi: int|
                0 <= hi < hops@.len() ==> {
                    let h = #[trigger] hops@[hi];
                    &&& h.tgt matches Some(t) ==> t < children@.len() && h.end_vi is None
                    &&& h.fold ==> (h.end_vi matches Some(e) ==> h.src < e && e < children@.len())
                },
            forall|v: int| 0 <= v < n && #[trigger] sub@[v] ==> below(hops@, u as int, v),
            forall|k: int|
                0 <= k < stack@.len() ==> #[trigger] stack@[k] < n && sub@[stack@[k] as int],
            forall|hi: int|
                0 <= hi < hops@.len() && (#[trigger] hops@[hi]).fold && sub@[hops@[hi].src as int]
                    && !stack@.contains(hops@[hi].src) ==> sub_hops@.contains(hi as usize) && (
                hops@[hi].end_vi matches Some(e) ==> sub@[e as int]),
            forall|k: int|
                0 <= k < sub_hops@.len() ==> {
                    let hi = #[trigger] sub_hops@[k] as int;
                    hi < hops@.len() && hops@[hi].fold && sub@[hops@[hi].src as int]
                },
        decreases unset(sub@), stack@.len(),
    {
        let ghost stack0 = stack@;
        let v = match stack.pop() {
            Some(v) => v,
            None => 0,
        };
        assert(stack0[stack0.len() - 1] == v);
        assert(v < n && sub@[v as int]);
        assert forall|w: usize| w != v && !stack@.contains(w) implies !stack0.contains(w) by {
            if stack0.contains(w) {
                let k = choose|k: int| 0 <= k < stack0.len() && stack0[k] == w;
                assert(stack@[k] == w);
            }
        }
        let ghost sub0 = sub@;
        let mut k: usize = 0;
        while k < children[v].len()
            invariant
                hn == hops@.len(),
                n == children@.len(),
                v < n,
                k <= children@[v as int]@.len(),
                sub@.len() == n,
                u < n,
                sub@[u as int],
                sub@[v as int],
                children_ok(hops@, children@),
                forall|hi: int|
                    0 <= hi < hops@.len() ==> {
                        let h = #[trigger] hops@[hi];
                        &&& h.tgt matches Some(t) ==> t < children@.len() && h.end_vi is None
                        &&& h.fold ==> (h.end_vi matches Some(e) ==> h.src < e && e
                            < children@.len())
                    },
                forall|v: int| 0 <= v < n && #[trigger] sub@[v] ==> below(hops@, u as int, v),
                forall|k: int|
                    0 <= k < stack@.len() ==> #[trigger] stack@[k] < n && sub@[stack@[k] as int],
                forall|hi: int|
                    0 <= hi < hops@.len() && (#[trigger] hops@[hi]).fold && hops@[hi].src != v
                        && sub@[hops@[hi].src as int] && !stack@.contains(hops@[hi].src)
                        ==> sub_hops@.contains(hi as usize) && (hops@[hi].end_vi matches Some(e)
                        ==> sub@[e as int]),
                forall|j: int|
                    0 <= j < k ==> sub_hops@.contains(#[trigger] children@[v as int]@[j]) && (
                    hops@[children@[v as int]@[j] as int].end_vi matches Some(e)
                        ==> sub@[e as int]),
                forall|k: int|
                    0 <= k < sub_hops@.len() ==> {
                        let hi = #[trigger] sub_hops@[k] as int;
                        hi < hops@.len() && hops@[hi].fold && sub@[hops@[hi].src as int]
                    },
                unset(sub@) < unset(sub0) || (sub@ == sub0 && stack@.len() < stack0.len()),
            decreases children@[v as int]@.len() - k,
        {
            let hi = children[v][k];
            assert(children@[v as int]@[k as int] == hi);
            assert(hops@[hi as int].fold && hops@[hi as int].src == v);
            let ghost sh0 = sub_hops@;
            let ghost st0 = stack@;
            let ghost s0 = sub@;
            sub_hops.push(hi);
            assert forall|x: usize| sh0.contains(x) implies sub_hops@.contains(x) by {
                let q = choose|q: int| 0 <= q < sh0.len() && sh0[q] == x;
                assert(sub_hops@[q] == x);
            }
            assert(sub_hops@[sub_hops@.len() - 1] == hi);
            match hops[hi].end_vi {
                Some(e) => {
                    if !sub[e] {
                        proof {
                            lemma_unset_update(sub@, e as int);
                            assert(below(hops@, u as int, v as int));
                            assert(hops@[hi as int].tgt is None);
                            assert(below(hops@, u as int, e as int));
                        }
                        sub.set(e, true);
                        stack.push(e);
                        assert forall|w: usize| !stack@.contains(w) implies !st0.contains(w) && w
                            != e by {
                            if st0.contains(w) {
                                let q = choose|q: int| 0 <= q < st0.len() && st0[q] == w;
                                assert(stack@[q] == w);
                            }
                            assert(stack@[stack@.len() - 1] == e);
                        }
                    }
                },
                None => {},
            }
            proof {
                assert forall|q: int|
                    0 <= q < hops@.len() && (#[trigger] hops@[q]).fold && hops@[q].src != v
                        && sub@[hops@[q].src as int] && !stack@.contains(
                        hops@[q].src,
                    ) implies sub_hops@.contains(q as usize) && (hops@[q].end_vi matches Some(e)
                    ==> sub@[e as int]) by {
                    assert(!st0.contains(hops@[q].src));
                    assert(s0[hops@[q].src as int]);
                    assert(sh0.contains(q as usize));
                }
            }
            k = k + 1;
        }
        proof {
            assert forall|hi: int|
                0 <= hi < hops@.len() && (#[trigger] hops@[hi]).fold && sub@[hops@[hi].src as int]
                    && !stack@.contains(hops@[hi].src) implies sub_hops@.contains(hi as usize) && (
            hops@[hi].end_vi matches Some(e) ==> sub@[e as int]) by {
                if hops@[hi].src == v {
                    assert(children@[v as int]@.contains(hi as usize));
                    let j = choose|j: int|
                        0 <= j < children@[v as int]@.len() && children@[v as int]@[j]
                            == hi as usize;
                    assert(sub_hops@.contains(children@[v as int]@[j]));
                }
            }
        }
    }
    proof {
        assert forall|hi: int| 0 <= hi < hops@.len() && (#[trigger] hops@[hi]).fold
            && hops@[hi].src < sub@.len() && sub@[hops@[hi].src as int] implies (
        hops@[hi].end_vi matches Some(e) ==> e < sub@.len() && sub@[e as int]) by {
            assert(!stack@.contains(hops@[hi].src));
        }
        assert forall|v: int| 0 <= v < n implies (#[trigger] sub@[v] == below(hops@, u as int, v)) by {
            if below(hops@, u as int, v) {
                lemma_closed(hops@, sub@, u as int, v);
            }
        }
        assert forall|hi: int| 0 <= hi < hops@.len() && (#[trigger] hops@[hi]).fold && below(
            hops@,
            u as int,
            hops@[hi].src as int,
        ) implies sub_hops@.contains(hi as usize) by {
            assert(hops@[hi].src < n);
            assert(sub@[hops@[hi].src as int]);
            assert(!stack@.contains(hops@[hi].src));
        }
    }
    let mut s: usize = 0;
    while s < sub_hops.len()
        invariant
            hn == hops@.len(),
            s <= sub_hops@.len(),
            n == children@.len(),
            sub@.len() == n,
            preds@.len() == hops@.len(),
            path_id@.len() == hops@.len(),
            forall|v: int| 0 <= v < n ==> (#[trigger] sub@[v] == below(hops@, u as int, v)),
            forall|k: int|
                0 <= k < sub_hops@.len() ==> {
                    let hi = #[trigger] sub_hops@[k] as int;
                    hi < hops@.len() && hops@[hi].fold && sub@[hops@[hi].src as int]
                },
            children_ok(hops@, children@),
            forall|hi: int|
                0 <= hi < hops@.len() ==> {
                    let h = #[trigger] hops@[hi];
                    &&& h.tgt matches Some(t) ==> t < children@.len() && h.end_vi is None
                    &&& forall|k: int|
                        0 <= k < preds@[hi]@.len() ==> fold::inline_var(
                            (#[trigger] preds@[hi]@[k]).0,
                        ) < children@.len()
                },
            forall|k: int|
                0 <= k < s ==> self_contained(
                    hops@,
                    preds@,
                    path_id@,
                    u as int,
                    #[trigger] sub_hops@[k] as int,
                ),
        decreases sub_hops.len() - s,
    {
        let hi = sub_hops[s];
        assert(sub_hops@[s as int] == hi);
        let ghost bad = !self_contained(hops@, preds@, path_id@, u as int, hi as int);
        assert(hops@[hi as int].fold && hops@[hi as int].src < n);
        assert(bad ==> !memo_pure(hops@, preds@, path_id@, u as int)) by {
            assert(hops@[hi as int].fold && below(hops@, u as int, hops@[hi as int].src as int));
        }
        match hops[hi].tgt {
            Some(t) => {
                if !sub[t] {
                    return false;
                }
            },
            None => {},
        }
        let mut k: usize = 0;
        while k < preds[hi].len()
            invariant
                k <= preds@[hi as int]@.len(),
                hi < hops@.len(),
                n == children@.len(),
                sub@.len() == n,
                preds@.len() == hops@.len(),
                forall|v: int| 0 <= v < n ==> (#[trigger] sub@[v] == below(hops@, u as int, v)),
                forall|k: int|
                    0 <= k < preds@[hi as int]@.len() ==> fold::inline_var(
                        (#[trigger] preds@[hi as int]@[k]).0,
                    ) < children@.len(),
                bad == !self_contained(hops@, preds@, path_id@, u as int, hi as int),
                bad ==> !memo_pure(hops@, preds@, path_id@, u as int),
                forall|j: int|
                    0 <= j < k ==> below(
                        hops@,
                        u as int,
                        fold::inline_var((#[trigger] preds@[hi as int]@[j]).0),
                    ),
            decreases preds@[hi as int]@.len() - k,
        {
            let o = inline_index(&preds[hi][k].0);
            assert(fold::inline_var(preds@[hi as int]@[k as int].0) == o);
            if !sub[o] {
                assert(!below(
                    hops@,
                    u as int,
                    fold::inline_var(preds@[hi as int]@[k as int].0),
                ));
                return false;
            }
            k = k + 1;
        }
        if hops[hi].track {
            let mut gi: usize = 0;
            while gi < hops.len()
                invariant
                    gi <= hops@.len(),
                    hi < hops@.len(),
                    hops@[hi as int].track,
                    path_id@.len() == hops@.len(),
                    bad == !self_contained(hops@, preds@, path_id@, u as int, hi as int),
                    bad ==> !memo_pure(hops@, preds@, path_id@, u as int),
                    forall|j: int|
                        0 <= j < gi && j != hi && #[trigger] path_id@[j] == path_id@[hi as int]
                            ==> fold_model::disjoint(
                            names::of(hops@[j].types@),
                            names::of(hops@[hi as int].types@),
                        ),
                decreases hops.len() - gi,
            {
                if gi != hi && path_id[gi] == path_id[hi] && !types_disjoint(
                    &hops[gi].types,
                    &hops[hi].types,
                ) {
                    assert(path_id@[gi as int] == path_id@[hi as int]);
                    return false;
                }
                gi = gi + 1;
            }
        }
        s = s + 1;
    }
    proof {
        assert forall|hi: int| 0 <= hi < hops@.len() && (#[trigger] hops@[hi]).fold && below(
            hops@,
            u as int,
            hops@[hi].src as int,
        ) implies self_contained(hops@, preds@, path_id@, u as int, hi) by {
            assert(sub_hops@.contains(hi as usize));
            let k = choose|k: int| 0 <= k < sub_hops@.len() && sub_hops@[k] == hi as usize;
            assert(self_contained(hops@, preds@, path_id@, u as int, sub_hops@[k] as int));
        }
    }
    true
}


/// One past the largest variable that a list of inline predicates reads.
pub open spec fn inline_width(ps: Seq<InlinePred>) -> int
    decreases ps.len(),
{
    if ps.len() == 0 {
        0
    } else {
        let a = inline_width(ps.drop_last());
        let b = fold::inline_var(ps.last()) + 1;
        if a >= b {
            a
        } else {
            b
        }
    }
}

/// The larger of two widths.
pub open spec fn wider(a: int, b: int) -> int {
    if a >= b {
        a
    } else {
        b
    }
}

/// One past the largest variable that a hop mentions.
pub open spec fn hop_width(h: Hop) -> int {
    let a = wider(
        h.src + 1,
        match h.tgt {
            Some(t) => t + 1,
            None => 0,
        },
    );
    let b = wider(
        match h.end_vi {
            Some(e) => e + 1,
            None => 0,
        },
        inline_width(h.inline@),
    );
    wider(a, b)
}

/// How many variables a chain mentions, at least `min`.
pub open spec fn fold_width(hops: Seq<Hop>, min: int) -> int
    decreases hops.len(),
{
    if hops.len() == 0 {
        min
    } else {
        wider(fold_width(hops.drop_last(), min), hop_width(hops.last()))
    }
}

/// A chain mentions at least so many variables.
pub proof fn lemma_width_min(hops: Seq<Hop>, min: int)
    ensures
        min <= fold_width(hops, min),
    decreases hops.len(),
{
    if hops.len() > 0 {
        lemma_width_min(hops.drop_last(), min);
    }
}

proof fn lemma_inline_width(ps: Seq<InlinePred>, k: int)
    requires
        0 <= k < ps.len(),
    ensures
        fold::inline_var(ps[k]) < inline_width(ps),
    decreases ps.len(),
{
    if k < ps.len() - 1 {
        lemma_inline_width(ps.drop_last(), k);
    }
}

proof fn lemma_fold_width(hops: Seq<Hop>, min: int, i: int)
    requires
        0 <= i < hops.len(),
    ensures
        hop_width(hops[i]) <= fold_width(hops, min),
        min <= fold_width(hops, min),
    decreases hops.len(),
{
    lemma_fold_width_min(hops, min);
    if i < hops.len() - 1 {
        lemma_fold_width(hops.drop_last(), min, i);
    }
}

proof fn lemma_fold_width_min(hops: Seq<Hop>, min: int)
    ensures
        min <= fold_width(hops, min),
    decreases hops.len(),
{
    if hops.len() > 0 {
        lemma_fold_width_min(hops.drop_last(), min);
    }
}

fn larger(a: usize, b: usize) -> (r: usize)
    ensures
        r == wider(a as int, b as int),
{
    if a >= b {
        a
    } else {
        b
    }
}

/// How many variables a chain mentions, at least `min`.
fn width_of(hops: &Vec<Hop>, min: usize) -> (n: usize)
    requires
        forall|i: int|
            0 <= i < hops@.len() ==> {
                let h = #[trigger] hops@[i];
                &&& h.src < usize::MAX
                &&& h.tgt matches Some(t) ==> t < usize::MAX
                &&& h.end_vi matches Some(e) ==> e < usize::MAX
                &&& forall|k: int|
                    0 <= k < h.inline@.len() ==> fold::inline_var(#[trigger] h.inline@[k])
                        < usize::MAX
            },
    ensures
        n == fold_width(hops@, min as int),
{
    let mut n = min;
    let mut i: usize = 0;
    assert(hops@.take(0) =~= Seq::empty());
    while i < hops.len()
        invariant
            i <= hops@.len(),
            n == fold_width(hops@.take(i as int), min as int),
            forall|i: int|
                0 <= i < hops@.len() ==> {
                    let h = #[trigger] hops@[i];
                    &&& h.src < usize::MAX
                    &&& h.tgt matches Some(t) ==> t < usize::MAX
                    &&& h.end_vi matches Some(e) ==> e < usize::MAX
                    &&& forall|k: int|
                        0 <= k < h.inline@.len() ==> fold::inline_var(#[trigger] h.inline@[k])
                            < usize::MAX
                },
        decreases hops.len() - i,
    {
        let h = &hops[i];
        assert(hops@[i as int].src < usize::MAX);
        let a = larger(
            h.src + 1,
            match h.tgt {
                Some(t) => t + 1,
                None => 0,
            },
        );
        let mut q: usize = 0;
        let mut k: usize = 0;
        assert(h.inline@.take(0) =~= Seq::empty());
        while k < h.inline.len()
            invariant
                k <= h.inline@.len(),
                q == inline_width(h.inline@.take(k as int)),
                forall|k: int|
                    0 <= k < h.inline@.len() ==> fold::inline_var(#[trigger] h.inline@[k])
                        < usize::MAX,
            decreases h.inline.len() - k,
        {
            assert(fold::inline_var(h.inline@[k as int]) < usize::MAX);
            proof {
                seqs::lemma_take_last(h.inline@, k as int);
            }
            q = larger(q, inline_index(&h.inline[k]) + 1);
            k = k + 1;
        }
        assert(h.inline@.take(k as int) =~= h.inline@);
        let b = larger(
            match h.end_vi {
                Some(e) => e + 1,
                None => 0,
            },
            q,
        );
        proof {
            seqs::lemma_take_last(hops@, i as int);
        }
        n = larger(n, larger(a, b));
        i = i + 1;
    }
    assert(hops@.take(i as int) =~= hops@);
    n
}

proof fn lemma_below_same(p: FoldV, hops: Seq<Hop>, u: int, v: int)
    requires
        p.hops.len() == hops.len(),
        forall|i: int|
            0 <= i < hops.len() ==> {
                let c = #[trigger] p.hops[i];
                let h = hops[i];
                &&& c.src == h.src
                &&& c.fold == h.fold
                &&& c.tgt == fold::opt_int(h.tgt)
                &&& c.end == fold::opt_int(h.end_vi)
            },
    ensures
        below(hops, u, v) == fold_model::below(p, u, v),
    decreases v,
{
    if v != u {
        if below(hops, u, v) {
            let hi = choose|hi: int|
                0 <= hi < hops.len() && (#[trigger] hops[hi]).fold && hops[hi].tgt is None
                    && hops[hi].end_vi == Some(v as usize) && v <= usize::MAX && (
                hops[hi].src as int) < v && below(hops, u, hops[hi].src as int);
            lemma_below_same(p, hops, u, hops[hi].src as int);
            assert(p.hops[hi].fold && p.hops[hi].end == Some(v));
        }
        if fold_model::below(p, u, v) {
            let hi = choose|hi: int|
                0 <= hi < p.hops.len() && (#[trigger] p.hops[hi]).fold && p.hops[hi].tgt is None
                    && p.hops[hi].end == Some(v) && 0 <= p.hops[hi].src < v && fold_model::below(
                    p,
                    u,
                    p.hops[hi].src,
                );
            lemma_below_same(p, hops, u, p.hops[hi].src);
            assert(hops[hi].fold && hops[hi].end_vi == Some(v as usize));
        }
    }
}

proof fn lemma_pure_same(
    p: FoldV,
    g: Graph,
    hops: Seq<Hop>,
    members: Seq<Option<BTreeSet<u64>>>,
    tokens: Seq<Option<Vec<u32>>>,
    preds: Seq<InlinePreds>,
    paths: Seq<usize>,
    u: int,
)
    requires
        p == fold::fold_view(g, hops, members, tokens, p.width),
        preds.len() == hops.len(),
        paths.len() == hops.len(),
        forall|i: int| 0 <= i < hops.len() ==> #[trigger] paths[i] == fold::path_of(hops, i),
        forall|i: int|
            0 <= i < hops.len() ==> {
                &&& (#[trigger] preds[i])@.len() == hops[i].inline@.len()
                &&& forall|k: int|
                    0 <= k < preds[i]@.len() ==> fold::resolved(
                        g,
                        #[trigger] preds[i]@[k],
                        hops[i].inline@[k],
                    )
            },
    ensures
        memo_pure(hops, preds, paths, u) == fold_model::memo_pure(p, u),
{
    assert forall|v: int| below(hops, u, v) == #[trigger] fold_model::below(p, u, v) by {
        lemma_below_same(p, hops, u, v);
    }
    assert forall|hi: int| 0 <= hi < hops.len() implies #[trigger] self_contained(
        hops,
        preds,
        paths,
        u,
        hi,
    ) == fold_model::self_contained(p, u, hi) by {
        let h = hops[hi];
        let c = p.hops[hi];
        assert(preds[hi]@.len() == h.inline@.len());
        assert(c.preds.len() == h.inline@.len());
        assert forall|k: int| 0 <= k < c.preds.len() implies fold_model::pred_var(
            #[trigger] c.preds[k],
        ) == fold::inline_var(preds[hi]@[k].0) by {
            assert(fold::resolved(g, preds[hi]@[k], h.inline@[k]));
        }
        if self_contained(hops, preds, paths, u, hi) {
            if c.tgt is Some {
                assert(below(hops, u, h.tgt->0 as int));
                assert(fold_model::below(p, u, c.tgt->0));
            }
            assert forall|k: int| 0 <= k < c.preds.len() implies fold_model::below(
                p,
                u,
                fold_model::pred_var(#[trigger] c.preds[k]),
            ) by {
                assert(below(hops, u, fold::inline_var(preds[hi]@[k].0)));
            }
            assert forall|gi: int|
                c.track && 0 <= gi < p.hops.len() && gi != hi && (#[trigger] p.hops[gi]).path
                    == c.path implies fold_model::disjoint(p.hops[gi].types, c.types) by {
                assert(paths[gi] == paths[hi]);
            }
        }
        if fold_model::self_contained(p, u, hi) {
            if h.tgt is Some {
                assert(fold_model::below(p, u, c.tgt->0));
                assert(below(hops, u, h.tgt->0 as int));
            }
            assert forall|k: int| 0 <= k < preds[hi]@.len() implies below(
                hops,
                u,
                fold::inline_var((#[trigger] preds[hi]@[k]).0),
            ) by {
                assert(fold_model::below(p, u, fold_model::pred_var(c.preds[k])));
            }
            assert forall|gi: int|
                h.track && 0 <= gi < hops.len() && gi != hi && #[trigger] paths[gi]
                    == paths[hi] implies fold_model::disjoint(
                names::of(hops[gi].types@),
                names::of(h.types@),
            ) by {
                assert(p.hops[gi].path == c.path);
            }
        }
    }
    if memo_pure(hops, preds, paths, u) {
        assert forall|hi: int| 0 <= hi < p.hops.len() && (#[trigger] p.hops[hi]).fold
            && fold_model::below(p, u, p.hops[hi].src) implies fold_model::self_contained(
            p,
            u,
            hi,
        ) by {
            assert(hops[hi].fold && below(hops, u, hops[hi].src as int));
            assert(self_contained(hops, preds, paths, u, hi));
        }
    }
    if fold_model::memo_pure(p, u) {
        assert forall|hi: int| 0 <= hi < hops.len() && (#[trigger] hops[hi]).fold && below(
            hops,
            u,
            hops[hi].src as int,
        ) implies self_contained(hops, preds, paths, u, hi) by {
            assert(p.hops[hi].fold && fold_model::below(p, u, p.hops[hi].src));
            assert(self_contained(hops, preds, paths, u, hi) == fold_model::self_contained(
                p,
                u,
                hi,
            ));
        }
    }
}

proof fn lemma_view_wf(
    g: Graph,
    hops: Seq<Hop>,
    members: Seq<Option<BTreeSet<u64>>>,
    tokens: Seq<Option<Vec<u32>>>,
    min: int,
)
    requires
        fold::chain_ok(g, hops, tokens),
    ensures
        fold::fold_view(g, hops, members, tokens, fold_width(hops, min)).wf(),
{
    let w = fold_width(hops, min);
    let p = fold::fold_view(g, hops, members, tokens, w);
    assert forall|hi: int| 0 <= hi < p.hops.len() implies {
        let h = #[trigger] p.hops[hi];
        &&& 0 <= h.src < p.width
        &&& h.tokens == p.g.type_tokens(h.types)
        &&& h.fold && h.tgt is None ==> (h.end matches Some(u) && h.src < u < p.width)
        &&& h.tgt matches Some(t) ==> 0 <= t < p.width
        &&& forall|k: int|
            0 <= k < h.preds.len() ==> 0 <= fold_model::pred_var(#[trigger] h.preds[k]) < p.width
    } by {
        lemma_fold_width(hops, min, hi);
        let h = hops[hi];
        assert(hops[hi].src < usize::MAX);
        assert forall|k: int| 0 <= k < p.hops[hi].preds.len() implies 0 <= fold_model::pred_var(
            #[trigger] p.hops[hi].preds[k],
        ) < p.width by {
            lemma_inline_width(h.inline@, k);
        }
    }
    assert forall|a: int, b: int|
        #![trigger p.hops[a], p.hops[b]]
        0 <= a < p.hops.len() && 0 <= b < p.hops.len() && p.hops[a].fold && p.hops[a].tgt is None
            && p.hops[a].end == Some(p.hops[b].src) implies a < b && (p.hops[b].track
        && !p.hops[b].reset ==> p.hops[a].path == p.hops[b].path) by {
        assert(hops[a].end_vi == Some(hops[b].src));
    }
}

/// Whether any hop of a chain has an inline predicate that probes an edge.
pub open spec fn any_edge_pred(hops: Seq<Hop>) -> bool {
    exists|hi: int, k: int|
        0 <= hi < hops.len() && 0 <= k < hops[hi].inline@.len() && (
        #[trigger] hops[hi].inline@[k]) is EdgeToBound
}

impl<'a> FoldPlan<'a> {
    /// The lookups of a chain: as wide as the variables it mentions and at
    /// least `min_vars`, remembering levels where `memo_on` and their count is
    /// a function of their node.
    pub fn new(
        g: &'a Graph,
        hops: &'a Vec<Hop>,
        members: &'a Vec<Option<BTreeSet<u64>>>,
        tokens: &'a Vec<Option<Vec<u32>>>,
        min_vars: usize,
        cap: Option<u64>,
        memo_on: bool,
    ) -> (plan: FoldPlan<'a>)
        requires
            fold::chain_ok(*g, hops@, tokens@),
            members@.len() == hops@.len(),
            cap matches Some(c) ==> c <= i64::MAX,
        ensures
            plan.wf(),
            plan.graph == g,
            plan.hops == hops,
            plan.members == members,
            plan.tokens == tokens,
            plan.cap == cap,
            plan.children@.len() == fold_width(hops@, min_vars as int),
            forall|u: int|
                0 <= u < plan.memo_ok@.len() ==> #[trigger] plan.memo_ok@[u] == (memo_on
                    && fold_model::is_folded(plan.view(), u) && fold_model::memo_pure(
                    plan.view(),
                    u,
                )),
            plan.has_edge_pred == any_edge_pred(hops@),
            plan.memo_cap == match g.row_budget {
                Some(b) => b,
                None => 0x1000_0000usize,
            },
    {
        let hn = hops.len();
        let nvars = width_of(hops, min_vars);
        let ghost p = fold::fold_view(*g, hops@, members@, tokens@, nvars as int);
        proof {
            lemma_view_wf(*g, hops@, members@, tokens@, min_vars as int);
        }
        let mut folded: Vec<bool> = Vec::new();
        let mut children: Vec<Vec<usize>> = Vec::new();
        let mut i: usize = 0;
        while i < nvars
            invariant
                i <= nvars,
                folded@.len() == i,
                children@.len() == i,
                forall|j: int| 0 <= j < i ==> !folded@[j],
                forall|j: int| 0 <= j < i ==> (#[trigger] children@[j])@ == Seq::<usize>::empty(),
            decreases nvars - i,
        {
            folded.push(false);
            children.push(Vec::new());
            i = i + 1;
        }
        let ghost f = |x: usize| x as int;
        proof {
            assert forall|u: int| 0 <= u < nvars implies (
            #[trigger] children@[u])@.map_values(f) == fold_model::kids_upto(p.hops, u, 0) by {
                assert(children@[u]@.map_values(f) =~= Seq::<int>::empty());
            }
        }
        let mut hi: usize = 0;
        while hi < hops.len()
            invariant
                hn == hops@.len(),
                hi <= hops@.len(),
                p == fold::fold_view(*g, hops@, members@, tokens@, nvars as int),
                p.wf(),
                f == (|x: usize| x as int),
                children@.len() == nvars,
                folded@.len() == nvars,
                forall|u: int|
                    0 <= u < nvars ==> (#[trigger] children@[u])@.map_values(f)
                        == fold_model::kids_upto(p.hops, u, hi as nat),
                forall|v: int|
                    0 <= v < nvars ==> (#[trigger] folded@[v] <==> exists|q: int|
                        0 <= q < hi && (#[trigger] p.hops[q]).fold && p.hops[q].tgt is None
                            && p.hops[q].end == Some(v)),
                fold::chain_ok(*g, hops@, tokens@),
            decreases hops.len() - hi,
        {
            let ghost folded0 = folded@;
            let ghost ch0 = children@;
            let ghost c = p.hops[hi as int];
            assert(hops@[hi as int].src < usize::MAX);
            assert(0 <= c.src < p.width);
            if hops[hi].fold {
                children[hops[hi].src].push(hi);
                match hops[hi].end_vi {
                    Some(e) => {
                        assert(c.tgt is None);
                        folded.set(e, true);
                        assert(p.hops[hi as int].end == Some(e as int));
                    },
                    None => {},
                }
            }
            proof {
                assert forall|u: int| 0 <= u < nvars implies (#[trigger] children@[u])@.map_values(f)
                    == fold_model::kids_upto(p.hops, u, (hi + 1) as nat) by {
                    assert(ch0[u]@.map_values(f) == fold_model::kids_upto(p.hops, u, hi as nat));
                    if c.fold && c.src == u {
                        assert(children@[u]@ == ch0[u]@.push(hi));
                        assert(children@[u]@.map_values(f) =~= ch0[u]@.map_values(f).push(
                            hi as int,
                        ));
                    } else {
                        assert(children@[u]@ == ch0[u]@);
                    }
                }
                assert forall|v: int| 0 <= v < nvars implies (#[trigger] folded@[v]
                    <==> exists|q: int|
                    0 <= q < hi + 1 && (#[trigger] p.hops[q]).fold && p.hops[q].tgt is None
                        && p.hops[q].end == Some(v)) by {
                    if folded@[v] {
                        if folded0[v] {
                            let q = choose|q: int|
                                0 <= q < hi && (#[trigger] p.hops[q]).fold && p.hops[q].tgt is None
                                    && p.hops[q].end == Some(v);
                            assert(0 <= q < hi + 1);
                        } else {
                            assert(p.hops[hi as int].end == Some(v));
                        }
                    }
                    if exists|q: int|
                        0 <= q < hi + 1 && (#[trigger] p.hops[q]).fold && p.hops[q].tgt is None
                            && p.hops[q].end == Some(v) {
                        let q = choose|q: int|
                            0 <= q < hi + 1 && (#[trigger] p.hops[q]).fold && p.hops[q].tgt is None
                                && p.hops[q].end == Some(v);
                        if q < hi {
                            assert(folded0[v]);
                        }
                    }
                }
            }
            hi = hi + 1;
        }
        assert forall|v: int| 0 <= v < nvars implies #[trigger] folded@[v] == fold_model::is_folded(
            p,
            v,
        ) by {}
        let mut root: Vec<bool> = Vec::new();
        let mut preds: Vec<InlinePreds> = Vec::new();
        let mut path_id: Vec<usize> = Vec::new();
        let mut has_edge_pred = false;
        let mut pid: usize = 0;
        let mut hi: usize = 0;
        while hi < hops.len()
            invariant
                hn == hops@.len(),
                hi <= hops@.len(),
                p == fold::fold_view(*g, hops@, members@, tokens@, nvars as int),
                p.wf(),
                g.wf(),
                folded@.len() == nvars,
                forall|v: int|
                    0 <= v < nvars ==> #[trigger] folded@[v] == fold_model::is_folded(p, v),
                root@.len() == hi,
                preds@.len() == hi,
                path_id@.len() == hi,
                hi == 0 ==> pid == 0,
                hi > 0 ==> pid == fold::path_of(hops@, hi - 1),
                pid <= hi,
                forall|i: int|
                    0 <= i < hi ==> #[trigger] root@[i] == (hops@[i].fold && !fold_model::is_folded(
                        p,
                        hops@[i].src as int,
                    )),
                forall|i: int|
                    0 <= i < hi ==> #[trigger] path_id@[i] == fold::path_of(hops@, i),
                forall|i: int|
                    0 <= i < hi ==> {
                        &&& (#[trigger] preds@[i])@.len() == hops@[i].inline@.len()
                        &&& forall|k: int|
                            0 <= k < preds@[i]@.len() ==> fold::resolved(
                                *g,
                                #[trigger] preds@[i]@[k],
                                hops@[i].inline@[k],
                            )
                    },
                has_edge_pred <==> exists|i: int, k: int|
                    0 <= i < hi && 0 <= k < hops@[i].inline@.len() && (
                    #[trigger] hops@[i].inline@[k]) is EdgeToBound,
            decreases hops.len() - hi,
        {
            let h = &hops[hi];
            assert(p.hops[hi as int].src < p.width);
            root.push(h.fold && !folded[h.src]);
            if hi > 0 && h.reset {
                pid = pid + 1;
            }
            path_id.push(pid);
            let mut ps: InlinePreds = Vec::new();
            let mut k: usize = 0;
            let ghost edge0 = has_edge_pred;
            while k < h.inline.len()
                invariant
                    k <= h.inline@.len(),
                    g.wf(),
                    hi < hops@.len(),
                    *h == hops@[hi as int],
                    ps@.len() == k,
                    forall|j: int|
                        0 <= j < k ==> fold::resolved(*g, #[trigger] ps@[j], h.inline@[j]),
                    has_edge_pred <==> edge0 || exists|j: int|
                        0 <= j < k && (#[trigger] h.inline@[j]) is EdgeToBound,
                decreases h.inline.len() - k,
            {
                let q = copy_pred(&h.inline[k]);
                let toks = match &q {
                    InlinePred::EdgeToBound { types, .. } => {
                        has_edge_pred = true;
                        assert(h.inline@[k as int] is EdgeToBound);
                        g.type_tokens_peek(types)
                    },
                    _ => None,
                };
                ps.push((q, toks));
                k = k + 1;
            }
            preds.push(ps);
            proof {
                assert(preds@[hi as int]@ == ps@);
                if has_edge_pred && !edge0 {
                    let j = choose|j: int|
                        0 <= j < h.inline@.len() && (#[trigger] h.inline@[j]) is EdgeToBound;
                    assert(hops@[hi as int].inline@[j] is EdgeToBound);
                }
                if exists|i: int, k: int|
                    0 <= i < hi + 1 && 0 <= k < hops@[i].inline@.len() && (
                    #[trigger] hops@[i].inline@[k]) is EdgeToBound {
                    let (i, k) = choose|i: int, k: int|
                        0 <= i < hi + 1 && 0 <= k < hops@[i].inline@.len() && (
                        #[trigger] hops@[i].inline@[k]) is EdgeToBound;
                    if i == hi {
                        assert(h.inline@[k] is EdgeToBound);
                    }
                }
            }
            hi = hi + 1;
        }
        proof {
            assert forall|v: int, k: int|
                #![trigger children@[v]@[k]]
                0 <= v < children@.len() && 0 <= k < children@[v]@.len() implies {
                let c = children@[v]@[k] as int;
                c < hops@.len() && hops@[c].fold && hops@[c].src == v
            } by {
                fold_model::lemma_kids(p, v);
                assert(children@[v]@.map_values(f)[k] == fold_model::kids(p, v)[k]);
            }
            assert forall|c: int| 0 <= c < hops@.len() && (
            #[trigger] hops@[c]).fold implies hops@[c].src < children@.len()
                && children@[hops@[c].src as int]@.contains(c as usize) by {
                let v = hops@[c].src as int;
                fold_model::lemma_kids(p, v);
                assert(p.hops[c].fold && p.hops[c].src == v);
                assert(fold_model::kids(p, v).contains(c));
                let k = choose|k: int| 0 <= k < fold_model::kids(p, v).len() && fold_model::kids(
                    p,
                    v,
                )[k] == c;
                assert(children@[v]@.map_values(f)[k] == c);
                assert(children@[v]@[k] == c as usize);
            }
            assert(children_ok(hops@, children@));
            assert forall|c: int| 0 <= c < hops@.len() implies {
                let h = #[trigger] hops@[c];
                &&& h.tgt matches Some(t) ==> t < children@.len() && h.end_vi is None
                &&& h.fold ==> (h.end_vi matches Some(e) ==> h.src < e && e < children@.len())
                &&& forall|k: int|
                    0 <= k < preds@[c]@.len() ==> fold::inline_var(
                        (#[trigger] preds@[c]@[k]).0,
                    ) < children@.len()
            } by {
                let h = hops@[c];
                let q = p.hops[c];
                assert forall|k: int| 0 <= k < preds@[c]@.len() implies fold::inline_var(
                    (#[trigger] preds@[c]@[k]).0,
                ) < children@.len() by {
                    assert(fold::resolved(*g, preds@[c]@[k], h.inline@[k]));
                    assert(0 <= fold_model::pred_var(q.preds[k]) < p.width);
                }
            }
        }
        let mut memo_ok: Vec<bool> = Vec::new();
        let mut u: usize = 0;
        while u < nvars
            invariant
                u <= nvars,
                p == fold::fold_view(*g, hops@, members@, tokens@, nvars as int),
                folded@.len() == nvars,
                children@.len() == nvars,
                preds@.len() == hops@.len(),
                path_id@.len() == hops@.len(),
                children_ok(hops@, children@),
                forall|v: int|
                    0 <= v < nvars ==> #[trigger] folded@[v] == fold_model::is_folded(p, v),
                forall|i: int|
                    0 <= i < hops@.len() ==> #[trigger] path_id@[i] == fold::path_of(hops@, i),
                forall|i: int|
                    0 <= i < hops@.len() ==> {
                        &&& (#[trigger] preds@[i])@.len() == hops@[i].inline@.len()
                        &&& forall|k: int|
                            0 <= k < preds@[i]@.len() ==> fold::resolved(
                                *g,
                                #[trigger] preds@[i]@[k],
                                hops@[i].inline@[k],
                            )
                    },
                forall|c: int|
                    0 <= c < hops@.len() ==> {
                        let h = #[trigger] hops@[c];
                        &&& h.tgt matches Some(t) ==> t < children@.len() && h.end_vi is None
                        &&& h.fold ==> (h.end_vi matches Some(e) ==> h.src < e && e
                            < children@.len())
                        &&& forall|k: int|
                            0 <= k < preds@[c]@.len() ==> fold::inline_var(
                                (#[trigger] preds@[c]@[k]).0,
                            ) < children@.len()
                    },
                memo_ok@.len() == u,
                forall|v: int|
                    0 <= v < u ==> #[trigger] memo_ok@[v] == (memo_on && fold_model::is_folded(p, v)
                        && fold_model::memo_pure(p, v)),
            decreases nvars - u,
        {
            proof {
                lemma_pure_same(
                    p,
                    *g,
                    hops@,
                    members@,
                    tokens@,
                    preds@,
                    path_id@,
                    u as int,
                );
                assert(folded@[u as int] == fold_model::is_folded(p, u as int));
            }
            memo_ok.push(memo_on && folded[u] && memo_ok_for(u, hops, &children, &preds, &path_id));
            u = u + 1;
        }
        let memo_cap: usize = match g.row_budget {
            Some(b) => b,
            None => 0x1000_0000,
        };
        FoldPlan {
            graph: g,
            hops,
            members,
            tokens,
            children,
            preds,
            memo_ok,
            root,
            has_edge_pred,
            memo_cap,
            cap,
        }
    }
}

} // verus!
