//! The count fold: hops that nothing reads are counted into row weights and
//! never expanded.

use std::collections::BTreeSet;
use vstd::prelude::*;

use crate::fold_model;
use crate::fold_model::{CountHop, FoldV, PredV};
use crate::graph;
use crate::graph::{member_admits, Adj, Dir, Graph, NULL_ID};
use crate::hop;
use crate::hop::{Hop, InlinePred};
use crate::names;
use crate::names::{has_id, repeat_id};
use crate::seqs;

verus! {

/// One hop's inline predicates with their type tokens.
pub type InlinePreds = Vec<(InlinePred, Option<Vec<u32>>)>;

/// The variable that an inline predicate reads.
pub open spec fn inline_var(p: InlinePred) -> int {
    match p {
        InlinePred::NeBound(o) => o as int,
        InlinePred::EqBound(o) => o as int,
        InlinePred::EdgeToBound { vi, .. } => vi as int,
    }
}

/// The variable that an inline predicate reads.
pub fn inline_index(p: &InlinePred) -> (o: usize)
    ensures
        o == inline_var(*p),
{
    match p {
        InlinePred::NeBound(o) => *o,
        InlinePred::EqBound(o) => *o,
        InlinePred::EdgeToBound { vi, .. } => *vi,
    }
}

/// The path of a hop: path 0 starts at hop 0, every later one at a hop that resets.
pub open spec fn path_of(hops: Seq<Hop>, i: int) -> int
    decreases i,
{
    if i <= 0 {
        0
    } else {
        path_of(hops, i - 1) + if hops[i].reset {
            1int
        } else {
            0
        }
    }
}

/// What an inline predicate says on a graph.
pub open spec fn pred_view(g: Graph, p: InlinePred) -> PredV {
    match p {
        InlinePred::NeBound(o) => PredV::Ne(o as int),
        InlinePred::EqBound(o) => PredV::Eq(o as int),
        InlinePred::EdgeToBound { vi, dir, types, negate } => PredV::Edge {
            vi: vi as int,
            dir,
            tokens: g.type_tokens(names::of(types@)),
            negate,
        },
    }
}

/// An optional index as an integer.
pub open spec fn opt_int(o: Option<usize>) -> Option<int> {
    match o {
        Some(i) => Some(i as int),
        None => None,
    }
}

/// An optional member set.
pub open spec fn own_members(m: Option<BTreeSet<u64>>) -> Option<Set<u64>> {
    match m {
        Some(s) => Some(s@),
        None => None,
    }
}

/// A hop as the fold reads it.
pub open spec fn count_hop(
    g: Graph,
    hops: Seq<Hop>,
    members: Seq<Option<BTreeSet<u64>>>,
    tokens: Seq<Option<Vec<u32>>>,
    i: int,
) -> CountHop {
    let h = hops[i];
    CountHop {
        src: h.src as int,
        dir: h.dir,
        types: names::of(h.types@),
        tokens: graph::tokens_view(tokens[i]),
        members: own_members(members[i]),
        track: h.track,
        reset: h.reset,
        tgt: opt_int(h.tgt),
        end: opt_int(h.end_vi),
        preds: h.inline@.map_values(|p: InlinePred| pred_view(g, p)),
        fold: h.fold,
        path: path_of(hops, i),
    }
}

/// A chain as the fold reads it.
pub open spec fn fold_view(
    g: Graph,
    hops: Seq<Hop>,
    members: Seq<Option<BTreeSet<u64>>>,
    tokens: Seq<Option<Vec<u32>>>,
    width: int,
) -> FoldV {
    FoldV {
        g,
        hops: Seq::new(hops.len(), |i: int| count_hop(g, hops, members, tokens, i)),
        width,
    }
}

/// The hops are in binding order and their tokens are those of their types.
pub open spec fn chain_ok(g: Graph, hops: Seq<Hop>, tokens: Seq<Option<Vec<u32>>>) -> bool {
    &&& g.wf()
    &&& tokens.len() == hops.len()
    &&& forall|i: int|
        0 <= i < hops.len() ==> {
            let h = #[trigger] hops[i];
            &&& graph::tokens_view(tokens[i]) == g.type_tokens(names::of(h.types@))
            &&& h.src < usize::MAX
            &&& h.tgt matches Some(t) ==> t < usize::MAX && h.end_vi is None
            &&& h.end_vi matches Some(e) ==> e < usize::MAX
            &&& h.fold && h.tgt is None ==> (h.end_vi matches Some(e) && h.src < e)
            &&& forall|k: int|
                0 <= k < h.inline@.len() ==> inline_var(#[trigger] h.inline@[k]) < usize::MAX
        }
    &&& forall|a: int, b: int|
        #![trigger hops[a], hops[b]]
        0 <= a < hops.len() && 0 <= b < hops.len() && hops[a].fold && hops[a].tgt is None
            && hops[a].end_vi == Some(hops[b].src) ==> a < b && (hops[b].track && !hops[b].reset
            ==> path_of(hops, a) == path_of(hops, b))
}

/// The fold's lookups, built once per chain.
pub struct FoldPlan<'a> {
    pub graph: &'a Graph,
    pub hops: &'a Vec<Hop>,
    /// Per hop, the member set of its end labels.
    pub members: &'a Vec<Option<BTreeSet<u64>>>,
    /// Per hop, its type tokens.
    pub tokens: &'a Vec<Option<Vec<u32>>>,
    /// Per variable, the counted hops that start at it, in hop order.
    pub children: Vec<Vec<usize>>,
    /// Per hop, its inline predicates with their tokens.
    pub preds: Vec<InlinePreds>,
    /// Per variable, whether its level is remembered per node.
    pub memo_ok: Vec<bool>,
    /// Per hop, whether it is counted and starts at a variable that is not.
    pub root: Vec<bool>,
    /// Whether any inline predicate probes an edge.
    pub has_edge_pred: bool,
    /// Node ids from here on are not remembered.
    pub memo_cap: usize,
    /// The total at which counting may stop.
    pub cap: Option<u64>,
}

/// Whether a predicate with its tokens says what another says.
pub open spec fn resolved(g: Graph, q: (InlinePred, Option<Vec<u32>>), p: InlinePred) -> bool {
    &&& hop::same_pred(q.0, p)
    &&& q.0 is EdgeToBound ==> graph::tokens_view(q.1) == g.type_tokens(
        names::of(q.0->types@),
    )
}

impl<'a> FoldPlan<'a> {
    /// The chain as the fold reads it.
    pub open spec fn view(self) -> FoldV {
        fold_view(
            *self.graph,
            self.hops@,
            self.members@,
            self.tokens@,
            self.children@.len() as int,
        )
    }

    /// The lookups are those of the chain.
    pub open spec fn wf(self) -> bool {
        &&& self.view().wf()
        &&& self.members@.len() == self.hops@.len()
        &&& self.tokens@.len() == self.hops@.len()
        &&& self.preds@.len() == self.hops@.len()
        &&& self.root@.len() == self.hops@.len()
        &&& self.memo_ok@.len() == self.children@.len()
        &&& forall|u: int|
            0 <= u < self.children@.len() ==> (#[trigger] self.children@[u])@.map_values(
                |x: usize| x as int,
            ) == fold_model::kids(self.view(), u)
        &&& forall|hi: int|
            0 <= hi < self.hops@.len() ==> {
                &&& (#[trigger] self.preds@[hi])@.len() == self.hops@[hi].inline@.len()
                &&& forall|k: int|
                    0 <= k < self.preds@[hi]@.len() ==> resolved(
                        *self.graph,
                        #[trigger] self.preds@[hi]@[k],
                        self.hops@[hi].inline@[k],
                    )
            }
        &&& forall|u: int|
            0 <= u < self.memo_ok@.len() && #[trigger] self.memo_ok@[u] ==> fold_model::memo_pure(
                self.view(),
                u,
            )
        &&& forall|hi: int|
            0 <= hi < self.hops@.len() ==> #[trigger] self.root@[hi] == (self.hops@[hi].fold
                && !fold_model::is_folded(self.view(), self.hops@[hi].src as int))
        &&& self.cap matches Some(c) ==> c <= i64::MAX
    }
}

/// The state of one fold.
pub struct FoldState {
    /// Per variable, the remembered counts by node; the largest `u64` is none.
    pub memo: Vec<Vec<u64>>,
    /// Per variable, its current node.
    pub bind: Vec<u64>,
    /// The relationships that the current path has used.
    pub used: Vec<u64>,
}

/// Every remembered count is the count of its level at that node.
pub open spec fn memo_valid(p: FoldV, memo_ok: Seq<bool>, memo: Seq<Vec<u64>>) -> bool {
    forall|u: int, i: int|
        #![trigger memo[u]@[i]]
        0 <= u < memo.len() && 0 <= i < memo[u]@.len() && memo[u]@[i] != u64::MAX && memo_ok[u]
            ==> fold_model::level_value(
            p,
            u,
            fold_model::only(p, u, i as u64),
            Seq::empty(),
            i as u64,
        ) == Some(memo[u]@[i] as nat)
}

impl FoldState {
    /// The state fits the plan and remembers only true counts.
    pub open spec fn wf(self, plan: FoldPlan) -> bool {
        &&& self.memo@.len() == plan.children@.len()
        &&& self.bind@.len() == plan.children@.len()
        &&& memo_valid(plan.view(), plan.memo_ok@, self.memo@)
    }

    /// A state that remembers nothing and binds nothing.
    pub fn new(plan: &FoldPlan) -> (st: FoldState)
        ensures
            st.wf(*plan),
            st.used@.len() == 0,
            st.bind@ == Seq::new(plan.children@.len(), |v: int| NULL_ID),
    {
        let n = plan.children.len();
        FoldState { memo: names::empty_lists(n), bind: repeat_id(NULL_ID, n), used: Vec::new() }
    }
}

/// A count as a number.
pub open spec fn opt_nat(r: Option<u64>) -> Option<nat> {
    match r {
        Some(n) => Some(n as nat),
        None => None,
    }
}

/// How many relationships join `node` to `want` outside `used`. An undirected
/// question, and a directed one where the graph asks for it, is put to the
/// bound end.
pub fn close_count(
    g: &Graph,
    node: u64,
    dir: Dir,
    tokens: &Option<Vec<u32>>,
    want: u64,
    used: &Vec<u64>,
) -> (n: u64)
    requires
        g.wf(),
    ensures
        n == graph::closing(g.adj(node, dir, graph::tokens_view(*tokens)), want, used@),
{
    proof {
        graph::law_bound_probe(*g, node, want, dir, graph::tokens_view(*tokens), used@);
    }
    if matches!(dir, Dir::Both) {
        g.count_edges(want, Dir::Both, tokens, node, used)
    } else if g.directed_bound_probe {
        g.count_edges(want, dir.flipped(), tokens, node, used)
    } else {
        g.count_edges(node, dir, tokens, want, used)
    }
}

/// Whether an inline predicate holds of a node.
pub fn pred_holds(
    g: &Graph,
    bind: &Vec<u64>,
    peer: u64,
    pred: &InlinePred,
    tokens: &Option<Vec<u32>>,
) -> (b: bool)
    requires
        g.wf(),
        inline_var(*pred) < bind@.len(),
        *pred is EdgeToBound ==> graph::tokens_view(*tokens) == g.type_tokens(
            names::of(pred->types@),
        ),
    ensures
        b == fold_model::pred_holds(*g, bind@, peer, pred_view(*g, *pred)),
{
    match pred {
        InlinePred::NeBound(o) => peer != bind[*o],
        InlinePred::EqBound(o) => peer == bind[*o],
        InlinePred::EdgeToBound { vi, dir, types, negate } => {
            let none: Vec<u64> = Vec::new();
            let n = close_count(g, peer, *dir, tokens, bind[*vi], &none);
            (n > 0) != *negate
        },
    }
}

/// Whether every inline predicate of a hop holds of a node.
fn all_hold(plan: &FoldPlan, hi: usize, bind: &Vec<u64>, peer: u64) -> (b: bool)
    requires
        plan.wf(),
        hi < plan.hops@.len(),
        bind@.len() == plan.children@.len(),
    ensures
        b == fold_model::preds_hold(*plan.graph, bind@, peer, plan.view().hops[hi as int].preds),
{
    let ghost ps = plan.view().hops[hi as int].preds;
    let preds = &plan.preds[hi];
    assert(plan.preds@[hi as int]@.len() == plan.hops@[hi as int].inline@.len());
    let mut k: usize = 0;
    while k < preds.len()
        invariant
            k <= preds@.len(),
            plan.wf(),
            hi < plan.hops@.len(),
            bind@.len() == plan.children@.len(),
            preds@ == plan.preds@[hi as int]@,
            preds@.len() == ps.len(),
            ps == plan.view().hops[hi as int].preds,
            ps.len() == plan.hops@[hi as int].inline@.len(),
            forall|j: int|
                0 <= j < k ==> fold_model::pred_holds(
                    *plan.graph,
                    bind@,
                    peer,
                    #[trigger] ps[j],
                ),
        decreases preds.len() - k,
    {
        let ghost p = plan.hops@[hi as int].inline@[k as int];
        proof {
            assert(resolved(*plan.graph, plan.preds@[hi as int]@[k as int], p));
            assert(ps[k as int] == pred_view(*plan.graph, p));
            assert(pred_view(*plan.graph, preds@[k as int].0) == pred_view(*plan.graph, p));
            let h = plan.view().hops[hi as int];
            assert(0 <= fold_model::pred_var(h.preds[k as int]) < plan.view().width);
        }
        if !pred_holds(plan.graph, bind, peer, &preds[k].0, &preds[k].1) {
            proof {
                assert(!fold_model::pred_holds(*plan.graph, bind@, peer, ps[k as int]));
            }
            return false;
        }
        k = k + 1;
    }
    true
}

/// The number of walks through a counted hop and all below it, from `node`;
/// `None` when a sum or product overflows.
pub fn hop_sum(plan: &FoldPlan, st: &mut FoldState, hi: usize, node: u64) -> (r: Option<u64>)
    requires
        plan.wf(),
        old(st).wf(*plan),
        hi < plan.hops@.len(),
        plan.hops@[hi as int].fold,
        fold_model::unbound_past(
            plan.view(),
            old(st).bind@,
            plan.hops@[hi as int].src as int,
        ),
        plan.hops@[hi as int].track && !plan.hops@[hi as int].reset ==> fold_model::used_earlier(
            plan.view(),
            old(st).used@,
            hi as int,
        ),
    ensures
        final(st).wf(*plan),
        final(st).bind@ == old(st).bind@,
        final(st).used@ == old(st).used@,
        opt_nat(r) == fold_model::hop_eval(
            plan.view(),
            hi as int,
            old(st).bind@,
            old(st).used@,
            node,
        ),
    decreases plan.children@.len() - plan.hops@[hi as int].src, 2nat,
{
    let ghost p = plan.view();
    let ghost h = p.hops[hi as int];
    let ghost bind0 = st.bind@;
    let ghost used0 = st.used@;
    let ghost base = fold_model::hop_base(h, used0);
    let hop = &plan.hops[hi];
    let tokens = &plan.tokens[hi];
    let inherits = hop.track && !hop.reset;
    let mut saved: Vec<u64> = Vec::new();
    if !inherits {
        std::mem::swap(&mut saved, &mut st.used);
    }
    assert(st.used@ =~= base);
    let out: Option<u64> = match hop.tgt {
        Some(t) => Some(close_count(plan.graph, node, hop.dir, tokens, st.bind[t], &st.used)),
        None => {
            let u = match hop.end_vi {
                Some(u) => u,
                None => 0,
            };
            assert(h.src < u < p.width);
            assert(fold_model::is_folded(p, u as int)) by {
                assert(p.hops[hi as int].fold);
            }
            assert(bind0[u as int] == NULL_ID);
            let es = plan.graph.adjacent(node, hop.dir, tokens);
            let mut total: u64 = 0;
            let mut over = false;
            let mut i: usize = 0;
            proof {
                assert(es@.take(0) =~= Seq::empty());
                assert(st.bind@.update(u as int, NULL_ID) =~= bind0);
            }
            while i < es.len() && !over
                invariant
                    i <= es@.len(),
                    plan.wf(),
                    p == plan.view(),
                    hi < plan.hops@.len(),
                    hop == plan.hops@[hi as int],
                    h == p.hops[hi as int],
                    hop.fold,
                    hop.tgt is None,
                    hop.end_vi == Some(u),
                    h.src < u < p.width,
                    es@ == p.g.adj(node, h.dir, h.tokens),
                    st.wf(*plan),
                    st.used@ == base,
                    base == fold_model::hop_base(h, used0),
                    h.track && !h.reset ==> fold_model::used_earlier(p, used0, hi as int),
                    bind0.len() == p.width,
                    bind0[u as int] == NULL_ID,
                    st.bind@.update(u as int, NULL_ID) == bind0,
                    fold_model::unbound_past(p, bind0, h.src),
                    !over ==> fold_model::edges_eval(p, hi as int, bind0, base, es@.take(i as int))
                        == Some(total as nat),
                    over ==> fold_model::edges_eval(p, hi as int, bind0, base, es@) is None,
                decreases es.len() - i,
            {
                let e = es[i];
                let peer = e.peer;
                proof {
                    seqs::lemma_take_last(es@, i as int);
                    lemma_edges_none(p, hi as int, bind0, base, es@, i + 1);
                }
                st.bind.set(u, peer);
                let ghost b = bind0.update(u as int, peer);
                assert(st.bind@ =~= b);
                let member = match &plan.members[hi] {
                    None => true,
                    Some(s) => member_admits(Some(s), peer),
                };
                assert(member == graph::is_member(h.members, peer));
                if member && !(hop.track && has_id(&st.used, e.rel)) && all_hold(
                    plan,
                    hi,
                    &st.bind,
                    peer,
                ) {
                    assert(fold_model::takes(p, h, b, base, e));
                    if hop.track {
                        st.used.push(e.rel);
                    }
                    assert(st.used@ =~= fold_model::used_below(h, base, e));
                    proof {
                        fold_model::lemma_used_below(p, hi as int, used0, node, i as int);
                        assert(fold_model::unbound_past(p, b, u as int)) by {
                            assert forall|v: int|
                                u < v < p.width && #[trigger] fold_model::is_folded(
                                    p,
                                    v,
                                ) implies b[v] == NULL_ID by {}
                        }
                    }
                    let w = level(plan, st, u, peer);
                    if hop.track {
                        st.used.pop();
                        assert(st.used@ =~= base);
                    }
                    match w {
                        None => {
                            over = true;
                        },
                        Some(w) => match total.checked_add(w) {
                            Some(t) => {
                                total = t;
                            },
                            None => {
                                over = true;
                            },
                        },
                    }
                }
                assert(st.bind@.update(u as int, NULL_ID) =~= bind0);
                i = i + 1;
            }
            st.bind.set(u, NULL_ID);
            assert(st.bind@ =~= bind0);
            if over {
                None
            } else {
                proof {
                    assert(es@.take(i as int) =~= es@);
                }
                Some(total)
            }
        },
    };
    if !inherits {
        std::mem::swap(&mut saved, &mut st.used);
    }
    out
}

/// A prefix whose sum overflows overflows whole.
proof fn lemma_edges_none(
    p: FoldV,
    hi: int,
    bind: Seq<u64>,
    base: Seq<u64>,
    es: Seq<Adj>,
    i: int,
)
    requires
        0 <= i <= es.len(),
    ensures
        fold_model::edges_eval(p, hi, bind, base, es.take(i)) is None ==> fold_model::edges_eval(
            p,
            hi,
            bind,
            base,
            es,
        ) is None,
    decreases es.len() - i,
{
    if i == es.len() {
        assert(es.take(i) =~= es);
    } else {
        seqs::lemma_take_last(es, i);
        lemma_edges_none(p, hi, bind, base, es, i + 1);
    }
}

/// A product that overflows, or is zero, stays so.
proof fn lemma_level_stop(
    p: FoldV,
    u: int,
    n: nat,
    m: nat,
    bind: Seq<u64>,
    used: Seq<u64>,
    node: u64,
)
    requires
        n <= m <= fold_model::kids(p, u).len(),
    ensures
        fold_model::level_eval(p, u, n, bind, used, node) is None ==> fold_model::level_eval(
            p,
            u,
            m,
            bind,
            used,
            node,
        ) is None,
        n > 0 && fold_model::level_eval(p, u, n, bind, used, node) == Some(0nat)
            ==> fold_model::level_eval(p, u, m, bind, used, node) == Some(0nat),
    decreases m - n,
{
    if n < m {
        lemma_level_stop(p, u, n + 1, m, bind, used, node);
    }
}

/// What a variable's level counts at a node, remembered where the plan allows it.
pub fn level(plan: &FoldPlan, st: &mut FoldState, u: usize, node: u64) -> (r: Option<u64>)
    requires
        plan.wf(),
        old(st).wf(*plan),
        u < plan.children@.len(),
        old(st).bind@[u as int] == node,
        fold_model::unbound_past(plan.view(), old(st).bind@, u as int),
        fold_model::used_ok_at(plan.view(), old(st).used@, u as int),
    ensures
        final(st).wf(*plan),
        final(st).bind@ == old(st).bind@,
        final(st).used@ == old(st).used@,
        opt_nat(r) == fold_model::level_value(
            plan.view(),
            u as int,
            old(st).bind@,
            old(st).used@,
            node,
        ),
    decreases plan.children@.len() - u, 3nat,
{
    let ghost p = plan.view();
    let ghost bind0 = st.bind@;
    let ghost used0 = st.used@;
    let memo_ok = plan.memo_ok[u];
    proof {
        if memo_ok {
            assert(plan.memo_ok@[u as int]);
            fold_model::law_memo_is_pure(p, u as int, bind0, used0, node);
        }
    }
    if memo_ok && node < st.memo[u].len() as u64 {
        let m = st.memo[u][node as usize];
        if m != u64::MAX {
            assert(st.memo@[u as int]@[node as int] == m);
            return Some(m);
        }
    }
    let ghost ks = fold_model::kids(p, u as int);
    assert(plan.children@[u as int]@.map_values(|x: usize| x as int) == ks);
    let count = plan.children[u].len();
    assert(count == ks.len());
    let mut w: u64 = 1;
    let mut k: usize = 0;
    while k < count && w != 0
        invariant
            k <= count,
            plan.wf(),
            p == plan.view(),
            u < plan.children@.len(),
            ks == fold_model::kids(p, u as int),
            count == ks.len(),
            plan.children@[u as int]@.map_values(|x: usize| x as int) == ks,
            st.wf(*plan),
            bind0 == old(st).bind@,
            used0 == old(st).used@,
            st.bind@ == bind0,
            st.used@ == used0,
            fold_model::unbound_past(p, bind0, u as int),
            fold_model::used_ok_at(p, used0, u as int),
            fold_model::level_eval(p, u as int, k as nat, bind0, used0, node) == Some(w as nat),
            w == 0 ==> k > 0,
        decreases count - k,
    {
        let ci = plan.children[u][k];
        proof {
            assert(plan.children@[u as int]@.map_values(|x: usize| x as int)[k as int] == ci);
            fold_model::lemma_kids(p, u as int);
            assert(ks[k as int] == ci);
            assert(p.hops[ci as int].fold && p.hops[ci as int].src == u);
            assert(plan.hops@[ci as int].fold);
            lemma_level_stop(
                p,
                u as int,
                (k + 1) as nat,
                count as nat,
                bind0,
                used0,
                node,
            );
        }
        match hop_sum(plan, st, ci, node) {
            None => {
                return None;
            },
            Some(s) => match w.checked_mul(s) {
                None => {
                    return None;
                },
                Some(x) => {
                    w = x;
                },
            },
        }
        k = k + 1;
    }
    proof {
        lemma_level_stop(p, u as int, k as nat, count as nat, bind0, used0, node);
    }
    if memo_ok && node < plan.memo_cap as u64 {
        let i = node as usize;
        let ghost before = st.memo@;
        if st.memo[u].len() <= i {
            st.memo[u].resize(i + 1, u64::MAX);
        }
        st.memo[u].set(i, w);
        proof {
            assert(memo_valid(p, plan.memo_ok@, st.memo@)) by {
                assert forall|v: int, j: int|
                    #![trigger st.memo@[v]@[j]]
                    0 <= v < st.memo@.len() && 0 <= j < st.memo@[v]@.len() && st.memo@[v]@[j]
                        != u64::MAX && plan.memo_ok@[v] implies fold_model::level_value(
                    p,
                    v,
                    fold_model::only(p, v, j as u64),
                    Seq::empty(),
                    j as u64,
                ) == Some(st.memo@[v]@[j] as nat) by {
                    if v != u {
                        assert(st.memo@[v] == before[v]);
                        assert(before[v]@[j] == st.memo@[v]@[j]);
                    } else if j != i {
                        assert(j < before[v]@.len());
                        assert(before[v]@[j] == st.memo@[v]@[j]);
                    }
                }
            }
        }
    }
    Some(w)
}

} // verus!
