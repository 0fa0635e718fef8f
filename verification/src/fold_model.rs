//! What a counted subtree of hops counts, and when its count is a function of
//! its node alone.

use vstd::prelude::*;

use crate::graph;
use crate::graph::{Adj, Dir, Graph, NULL_ID};
use crate::names;
use crate::seqs;

verus! {

/// A predicate that a counted hop tests.
pub enum PredV {
    Ne(int),
    Eq(int),
    Edge { vi: int, dir: Dir, tokens: Option<Seq<u32>>, negate: bool },
}

/// A counted hop.
pub struct CountHop {
    pub src: int,
    pub dir: Dir,
    pub types: Seq<Seq<char>>,
    pub tokens: Option<Seq<u32>>,
    pub members: Option<Set<u64>>,
    pub track: bool,
    pub reset: bool,
    pub tgt: Option<int>,
    pub end: Option<int>,
    pub preds: Seq<PredV>,
    pub fold: bool,
    pub path: int,
}

/// A chain with counted hops.
pub struct FoldV {
    pub g: Graph,
    pub hops: Seq<CountHop>,
    pub width: int,
}

/// Whether a type list shares no type with another. A list that names no
/// type admits every one, so it shares a type with any list.
pub open spec fn disjoint(a: Seq<Seq<char>>, b: Seq<Seq<char>>) -> bool {
    &&& a.len() > 0
    &&& b.len() > 0
    &&& forall|i: int| 0 <= i < a.len() ==> !b.contains(#[trigger] a[i])
}

/// The counted hops among the first `n` that start at a variable, in order.
pub open spec fn kids_upto(hops: Seq<CountHop>, u: int, n: nat) -> Seq<int>
    decreases n,
{
    if n == 0 {
        Seq::empty()
    } else if hops[n - 1].fold && hops[n - 1].src == u {
        kids_upto(hops, u, (n - 1) as nat).push(n - 1)
    } else {
        kids_upto(hops, u, (n - 1) as nat)
    }
}

/// The counted hops that start at a variable, in order.
pub open spec fn kids(p: FoldV, u: int) -> Seq<int> {
    kids_upto(p.hops, u, p.hops.len())
}

pub proof fn lemma_kids_upto(hops: Seq<CountHop>, u: int, n: nat)
    requires
        n <= hops.len(),
    ensures
        forall|k: int|
            0 <= k < kids_upto(hops, u, n).len() ==> {
                let c = #[trigger] kids_upto(hops, u, n)[k];
                0 <= c < n && hops[c].fold && hops[c].src == u
            },
        forall|c: int|
            0 <= c < n && (#[trigger] hops[c]).fold && hops[c].src == u ==> kids_upto(
                hops,
                u,
                n,
            ).contains(c),
    decreases n,
{
    if n > 0 {
        lemma_kids_upto(hops, u, (n - 1) as nat);
        let a = kids_upto(hops, u, (n - 1) as nat);
        let b = kids_upto(hops, u, n);
        assert forall|c: int|
            0 <= c < n && (#[trigger] hops[c]).fold && hops[c].src == u implies b.contains(c) by {
            if c < n - 1 {
                assert(a.contains(c));
                let k = choose|k: int| 0 <= k < a.len() && a[k] == c;
                assert(b[k] == c);
            } else {
                assert(b[b.len() - 1] == c);
            }
        }
    }
}

/// The children of a variable are exactly the counted hops that start at it.
pub proof fn lemma_kids(p: FoldV, u: int)
    ensures
        forall|k: int|
            0 <= k < kids(p, u).len() ==> {
                let c = #[trigger] kids(p, u)[k];
                0 <= c < p.hops.len() && p.hops[c].fold && p.hops[c].src == u
            },
        forall|c: int|
            0 <= c < p.hops.len() && (#[trigger] p.hops[c]).fold && p.hops[c].src == u ==> kids(
                p,
                u,
            ).contains(c),
{
    lemma_kids_upto(p.hops, u, p.hops.len());
}

/// The relationships that a hop's walk has used when it starts.
pub open spec fn hop_base(h: CountHop, used: Seq<u64>) -> Seq<u64> {
    if h.track && !h.reset {
        used
    } else {
        Seq::empty()
    }
}

/// The relationships used below an edge.
pub open spec fn used_below(h: CountHop, base: Seq<u64>, e: Adj) -> Seq<u64> {
    if h.track {
        base.push(e.rel)
    } else {
        base
    }
}

/// Whether a predicate holds of a node.
pub open spec fn pred_holds(g: Graph, bind: Seq<u64>, node: u64, p: PredV) -> bool {
    match p {
        PredV::Ne(o) => node != bind[o],
        PredV::Eq(o) => node == bind[o],
        PredV::Edge { vi, dir, tokens, negate } => (graph::closing(
            g.adj(node, dir, tokens),
            bind[vi],
            Seq::empty(),
        ) > 0) != negate,
    }
}

/// Whether every predicate of a hop holds of a node.
pub open spec fn preds_hold(g: Graph, bind: Seq<u64>, node: u64, ps: Seq<PredV>) -> bool {
    forall|k: int| 0 <= k < ps.len() ==> pred_holds(g, bind, node, #[trigger] ps[k])
}

/// Whether a counted hop takes an edge, with its end bound to the node the
/// edge leads to.
pub open spec fn takes(p: FoldV, h: CountHop, bind: Seq<u64>, base: Seq<u64>, e: Adj) -> bool {
    &&& graph::is_member(h.members, e.peer)
    &&& !(h.track && base.contains(e.rel))
    &&& preds_hold(p.g, bind, e.peer, h.preds)
}

/// The number of walks through a counted hop and all below it, from `node`;
/// `None` when a sum or product on the way is past the largest `u64`.
pub open spec fn hop_eval(p: FoldV, hi: int, bind: Seq<u64>, used: Seq<u64>, node: u64) -> Option<
    nat,
>
    decreases p.width - p.hops[hi].src, 2nat, 0nat,
{
    let h = p.hops[hi];
    let base = hop_base(h, used);
    let es = p.g.adj(node, h.dir, h.tokens);
    match h.tgt {
        Some(t) => Some(graph::closing(es, bind[t], base)),
        None => edges_eval(p, hi, bind, base, es),
    }
}

/// The sum over a hop's edges of what each edge leads to.
pub open spec fn edges_eval(
    p: FoldV,
    hi: int,
    bind: Seq<u64>,
    base: Seq<u64>,
    es: Seq<Adj>,
) -> Option<nat>
    decreases p.width - p.hops[hi].src, 1nat, es.len(),
{
    let h = p.hops[hi];
    let u = h.end->0;
    if es.len() == 0 || !(h.src < u < p.width) {
        Some(0)
    } else {
        match edges_eval(p, hi, bind, base, es.drop_last()) {
            None => None,
            Some(a) => {
                let e = es.last();
                let b = bind.update(u, e.peer);
                if !takes(p, h, b, base, e) {
                    Some(a)
                } else {
                    match level_eval(p, u, kids(p, u).len(), b, used_below(h, base, e), e.peer) {
                        None => None,
                        Some(w) => if a + w <= u64::MAX {
                            Some((a + w) as nat)
                        } else {
                            None
                        },
                    }
                }
            },
        }
    }
}

/// The product of the first `n` counted hops that start at a variable. A
/// factor of zero ends it.
pub open spec fn level_eval(
    p: FoldV,
    u: int,
    n: nat,
    bind: Seq<u64>,
    used: Seq<u64>,
    node: u64,
) -> Option<nat>
    decreases p.width - u, 3nat, n,
{
    if n == 0 || n > kids(p, u).len() {
        Some(1)
    } else {
        match level_eval(p, u, (n - 1) as nat, bind, used, node) {
            None => None,
            Some(a) => if a == 0 {
                Some(0)
            } else {
                proof {
                    lemma_kids(p, u);
                    assert(p.hops[kids(p, u)[n - 1]].src == u);
                }
                match hop_eval(p, kids(p, u)[n - 1], bind, used, node) {
                    None => None,
                    Some(s) => if a * s <= u64::MAX {
                        Some((a * s) as nat)
                    } else {
                        None
                    },
                }
            },
        }
    }
}

/// What a variable's level counts.
pub open spec fn level_value(p: FoldV, u: int, bind: Seq<u64>, used: Seq<u64>, node: u64) -> Option<
    nat,
> {
    level_eval(p, u, kids(p, u).len(), bind, used, node)
}

/// The number of walks through a counted hop and all below it, from `node`.
pub open spec fn hop_count(p: FoldV, hi: int, bind: Seq<u64>, used: Seq<u64>, node: u64) -> nat
    decreases p.width - p.hops[hi].src, 2nat, 0nat,
{
    let h = p.hops[hi];
    let base = hop_base(h, used);
    let es = p.g.adj(node, h.dir, h.tokens);
    match h.tgt {
        Some(t) => graph::closing(es, bind[t], base),
        None => edges_count(p, hi, bind, base, es),
    }
}

/// The number of walks over a hop's edges.
pub open spec fn edges_count(
    p: FoldV,
    hi: int,
    bind: Seq<u64>,
    base: Seq<u64>,
    es: Seq<Adj>,
) -> nat
    decreases p.width - p.hops[hi].src, 1nat, es.len(),
{
    let h = p.hops[hi];
    let u = h.end->0;
    if es.len() == 0 || !(h.src < u < p.width) {
        0
    } else {
        let e = es.last();
        let b = bind.update(u, e.peer);
        edges_count(p, hi, bind, base, es.drop_last()) + if takes(p, h, b, base, e) {
            level_count(p, u, kids(p, u).len(), b, used_below(h, base, e), e.peer)
        } else {
            0
        }
    }
}

/// The number of ways to walk the first `n` counted hops that start at a variable.
pub open spec fn level_count(
    p: FoldV,
    u: int,
    n: nat,
    bind: Seq<u64>,
    used: Seq<u64>,
    node: u64,
) -> nat
    decreases p.width - u, 3nat, n,
{
    if n == 0 || n > kids(p, u).len() {
        1
    } else {
        proof {
            lemma_kids(p, u);
            assert(p.hops[kids(p, u)[n - 1]].src == u);
        }
        level_count(p, u, (n - 1) as nat, bind, used, node) * hop_count(
            p,
            kids(p, u)[n - 1],
            bind,
            used,
            node,
        )
    }
}

/// A count that does not overflow is the number of walks.
pub proof fn law_count_is_exact(p: FoldV, hi: int, bind: Seq<u64>, used: Seq<u64>, node: u64)
    ensures
        hop_eval(p, hi, bind, used, node) matches Some(n) ==> n == hop_count(
            p,
            hi,
            bind,
            used,
            node,
        ),
    decreases p.width - p.hops[hi].src, 2nat, 0nat,
{
    let h = p.hops[hi];
    if h.tgt is None {
        lemma_edges_exact(
            p,
            hi,
            bind,
            hop_base(h, used),
            p.g.adj(node, h.dir, h.tokens),
        );
    }
}

proof fn lemma_edges_exact(p: FoldV, hi: int, bind: Seq<u64>, base: Seq<u64>, es: Seq<Adj>)
    ensures
        edges_eval(p, hi, bind, base, es) matches Some(n) ==> n == edges_count(
            p,
            hi,
            bind,
            base,
            es,
        ),
    decreases p.width - p.hops[hi].src, 1nat, es.len(),
{
    let h = p.hops[hi];
    let u = h.end->0;
    if es.len() > 0 && h.src < u < p.width {
        lemma_edges_exact(p, hi, bind, base, es.drop_last());
        let e = es.last();
        lemma_level_exact(
            p,
            u,
            kids(p, u).len(),
            bind.update(u, e.peer),
            used_below(h, base, e),
            e.peer,
        );
    }
}

proof fn lemma_level_exact(
    p: FoldV,
    u: int,
    n: nat,
    bind: Seq<u64>,
    used: Seq<u64>,
    node: u64,
)
    ensures
        level_eval(p, u, n, bind, used, node) matches Some(w) ==> w == level_count(
            p,
            u,
            n,
            bind,
            used,
            node,
        ),
    decreases p.width - u, 3nat, n,
{
    if 0 < n && n <= kids(p, u).len() {
        lemma_level_exact(p, u, (n - 1) as nat, bind, used, node);
        lemma_kids(p, u);
        let c = kids(p, u)[n - 1];
        assert(p.hops[c].src == u);
        law_count_is_exact(p, c, bind, used, node);
        let a = level_count(p, u, (n - 1) as nat, bind, used, node);
        let s = hop_count(p, c, bind, used, node);
        if level_eval(p, u, (n - 1) as nat, bind, used, node) == Some(0nat) {
            assert(a * s == 0) by (nonlinear_arith)
                requires
                    a == 0,
            ;
        }
    }
}

/// Whether a variable is bound by a counted hop.
pub open spec fn is_folded(p: FoldV, v: int) -> bool {
    exists|hi: int|
        0 <= hi < p.hops.len() && (#[trigger] p.hops[hi]).fold && p.hops[hi].tgt is None
            && p.hops[hi].end == Some(v)
}

/// Counted variables past `u` are not bound.
pub open spec fn unbound_past(p: FoldV, bind: Seq<u64>, u: int) -> bool {
    forall|v: int| u < v < p.width && #[trigger] is_folded(p, v) ==> bind[v] == NULL_ID
}

/// The variables of a predicate are in range.
pub open spec fn pred_var(q: PredV) -> int {
    match q {
        PredV::Ne(o) => o,
        PredV::Eq(o) => o,
        PredV::Edge { vi, .. } => vi,
    }
}

impl FoldV {
    /// The hops are in binding order: a hop ends past its source, comes before
    /// the hops that start at its end, and continues the path of the hop that
    /// binds its source when it continues one.
    pub open spec fn wf(self) -> bool {
        &&& self.g.wf()
        &&& forall|hi: int|
            0 <= hi < self.hops.len() ==> {
                let h = #[trigger] self.hops[hi];
                &&& 0 <= h.src < self.width
                &&& h.tokens == self.g.type_tokens(h.types)
                &&& h.fold && h.tgt is None ==> (h.end matches Some(u) && h.src < u < self.width)
                &&& h.tgt matches Some(t) ==> 0 <= t < self.width
                &&& forall|k: int|
                    0 <= k < h.preds.len() ==> 0 <= pred_var(#[trigger] h.preds[k]) < self.width
            }
        &&& forall|a: int, b: int|
            #![trigger self.hops[a], self.hops[b]]
            0 <= a < self.hops.len() && 0 <= b < self.hops.len() && self.hops[a].fold
                && self.hops[a].tgt is None && self.hops[a].end == Some(self.hops[b].src) ==> a < b
                && (self.hops[b].track && !self.hops[b].reset ==> self.hops[a].path
                == self.hops[b].path)
    }
}

/// Every relationship of a walk was taken by an earlier hop of the hop's path.
pub open spec fn used_earlier(p: FoldV, used: Seq<u64>, hi: int) -> bool {
    forall|k: int| 0 <= k < used.len() ==> taken_earlier(p, #[trigger] used[k], hi)
}

/// A relationship has a type of an earlier hop of the same path.
pub open spec fn taken_earlier(p: FoldV, rel: u64, hi: int) -> bool {
    exists|gi: int|
        0 <= gi < hi && (#[trigger] p.hops[gi]).path == p.hops[hi].path && p.g.rel_typed(
            rel,
            p.hops[gi].tokens,
        )
}

/// [`used_earlier`] for each continuing hop that starts at a variable.
pub open spec fn used_ok_at(p: FoldV, used: Seq<u64>, u: int) -> bool {
    forall|c: int|
        0 <= c < p.hops.len() && (#[trigger] p.hops[c]).fold && p.hops[c].src == u
            && p.hops[c].track && !p.hops[c].reset ==> used_earlier(p, used, c)
}

/// Whether a variable is in the subtree of counted hops below `u`.
pub open spec fn below(p: FoldV, u: int, v: int) -> bool
    decreases v,
{
    v == u || exists|hi: int|
        0 <= hi < p.hops.len() && (#[trigger] p.hops[hi]).fold && p.hops[hi].tgt is None
            && p.hops[hi].end == Some(v) && 0 <= p.hops[hi].src < v && below(p, u, p.hops[hi].src)
}

/// Whether a hop of the subtree reads only the subtree and keeps apart only
/// from hops that share no type with it.
pub open spec fn self_contained(p: FoldV, u: int, hi: int) -> bool {
    let h = p.hops[hi];
    &&& h.tgt matches Some(t) ==> below(p, u, t)
    &&& forall|k: int| 0 <= k < h.preds.len() ==> below(p, u, pred_var(#[trigger] h.preds[k]))
    &&& h.track ==> forall|gi: int|
        0 <= gi < p.hops.len() && gi != hi && (#[trigger] p.hops[gi]).path == h.path ==> disjoint(
            p.hops[gi].types,
            h.types,
        )
}

/// Whether a variable's level counts the same whatever else is bound and used.
pub open spec fn memo_pure(p: FoldV, u: int) -> bool {
    forall|hi: int|
        0 <= hi < p.hops.len() && (#[trigger] p.hops[hi]).fold && below(p, u, p.hops[hi].src)
            ==> self_contained(p, u, hi)
}

/// A binding of one variable.
pub open spec fn only(p: FoldV, u: int, node: u64) -> Seq<u64> {
    Seq::new(p.width as nat, |v: int| NULL_ID).update(u, node)
}

/// A token of a type list names a type of the list.
proof fn lemma_tokens_of(g: Graph, ts: Seq<Seq<char>>, k: u32)
    requires
        g.types@.len() <= u32::MAX,
        g.tokens_of(ts).contains(k),
    ensures
        k < g.types@.len(),
        ts.contains(names::of(g.types@)[k as int]),
    decreases ts.len(),
{
    if ts.len() > 0 {
        let d = ts.drop_last();
        names::lemma_position(names::of(g.types@), ts.last());
        let s = g.tokens_of(ts);
        let j = choose|j: int| 0 <= j < s.len() && s[j] == k;
        match names::position(names::of(g.types@), ts.last()) {
            Some(i) => {
                if j == s.len() - 1 {
                    assert(k == i as u32);
                    assert(ts[ts.len() - 1] == names::of(g.types@)[k as int]);
                } else {
                    assert(g.tokens_of(d)[j] == k);
                    lemma_tokens_of(g, d, k);
                    let m = choose|m: int| 0 <= m < d.len() && d[m] == names::of(g.types@)[k as int];
                    assert(ts[m] == d[m]);
                }
            },
            None => {
                lemma_tokens_of(g, d, k);
                let m = choose|m: int| 0 <= m < d.len() && d[m] == names::of(g.types@)[k as int];
                assert(ts[m] == d[m]);
            },
        }
    }
}

/// An edge of a node is an entry of the graph with an admitted type.
pub proof fn lemma_adj_entry(g: Graph, node: u64, dir: Dir, t: Option<Seq<u32>>, i: int)
    requires
        0 <= i < g.adj(node, dir, t).len(),
    ensures
        graph::admits(t, g.adj(node, dir, t)[i].typ),
        exists|s: bool, n: int, k: int| #[trigger]
            g.has_entry(s, n, k) && g.entry(s, n, k) == g.adj(node, dir, t)[i],
{
    let e = g.adj(node, dir, t)[i];
    let o = graph::row_of(g.out@, node);
    let n = graph::row_of(g.into@, node);
    let p = |e: Adj| graph::admits(t, e.typ);
    let q = |e: Adj| e.peer != node;
    if dir == Dir::Out || (dir == Dir::Both && i < graph::typed(o, t).len()) {
        lemma_filter_from(o, p, i);
        let k = choose|k: int| 0 <= k < o.len() && o[k] == e;
        assert(g.has_entry(true, node as int, k) && g.entry(true, node as int, k) == e);
    } else {
        let k = if dir == Dir::In {
            lemma_filter_from(n, p, i);
            choose|k: int| 0 <= k < n.len() && n[k] == e
        } else {
            let j = i - graph::typed(o, t).len();
            lemma_filter_from(graph::typed(n, t), q, j);
            let m = choose|m: int|
                0 <= m < graph::typed(n, t).len() && graph::typed(n, t)[m] == e;
            lemma_filter_from(n, p, m);
            choose|k: int| 0 <= k < n.len() && n[k] == e
        };
        assert(g.has_entry(false, node as int, k) && g.entry(false, node as int, k) == e);
    }
}

proof fn lemma_filter_from<A>(s: Seq<A>, p: spec_fn(A) -> bool, i: int)
    requires
        0 <= i < s.filter(p).len(),
    ensures
        p(s.filter(p)[i]),
        exists|k: int| 0 <= k < s.len() && s[k] == s.filter(p)[i],
    decreases s.len(),
{
    if s.len() == 0 {
        seqs::lemma_filter_empty(p);
        assert(s =~= Seq::empty());
    } else {
        let d = s.drop_last();
        seqs::lemma_filter_last(s, p);
        if i < d.filter(p).len() {
            lemma_filter_from(d, p, i);
            let k = choose|k: int| 0 <= k < d.len() && d[k] == d.filter(p)[i];
            assert(s[k] == s.filter(p)[i]);
        } else {
            assert(s[s.len() - 1] == s.filter(p)[i]);
        }
    }
}

/// An edge of a hop whose types no other hop of its path shares was not used before.
proof fn lemma_fresh(p: FoldV, hi: int, used: Seq<u64>, node: u64, i: int)
    requires
        p.wf(),
        0 <= hi < p.hops.len(),
        used_earlier(p, used, hi),
        forall|gi: int|
            0 <= gi < p.hops.len() && gi != hi && (#[trigger] p.hops[gi]).path == p.hops[hi].path
                ==> disjoint(p.hops[gi].types, p.hops[hi].types),
        0 <= i < p.g.adj(node, p.hops[hi].dir, p.hops[hi].tokens).len(),
    ensures
        !used.contains(p.g.adj(node, p.hops[hi].dir, p.hops[hi].tokens)[i].rel),
{
    let h = p.hops[hi];
    let e = p.g.adj(node, h.dir, h.tokens)[i];
    lemma_adj_entry(p.g, node, h.dir, h.tokens, i);
    if used.contains(e.rel) {
        let k = choose|k: int| 0 <= k < used.len() && used[k] == e.rel;
        assert(taken_earlier(p, used[k], hi));
        let gi = choose|gi: int|
            0 <= gi < hi && (#[trigger] p.hops[gi]).path == p.hops[hi].path && p.g.rel_typed(
                used[k],
                p.hops[gi].tokens,
            );
        let (s1, n1, k1) = choose|s: bool, n: int, k: int| #[trigger]
            p.g.has_entry(s, n, k) && p.g.entry(s, n, k).rel == e.rel && graph::admits(
                p.hops[gi].tokens,
                p.g.entry(s, n, k).typ,
            );
        let (s2, n2, k2) = choose|s: bool, n: int, k: int| #[trigger]
            p.g.has_entry(s, n, k) && p.g.entry(s, n, k) == e;
        assert(p.g.entry(s1, n1, k1).typ == p.g.entry(s2, n2, k2).typ);
        let t = e.typ;
        assert(disjoint(p.hops[gi].types, h.types));
        assert(p.g.tokens_of(p.hops[gi].types).contains(t));
        assert(p.g.tokens_of(h.types).contains(t));
        lemma_tokens_of(p.g, p.hops[gi].types, t);
        lemma_tokens_of(p.g, h.types, t);
        let name = names::of(p.g.types@)[t as int];
        let m = choose|m: int| 0 <= m < p.hops[gi].types.len() && p.hops[gi].types[m] == name;
        assert(!h.types.contains(p.hops[gi].types[m]));
    }
}

/// Leaving out relationships that no edge has leaves nothing out.
proof fn lemma_closing_fresh(es: Seq<Adj>, want: u64, used: Seq<u64>)
    requires
        forall|i: int| 0 <= i < es.len() ==> !used.contains((#[trigger] es[i]).rel),
    ensures
        graph::closing(es, want, used) == graph::closing(es, want, Seq::empty()),
    decreases es.len(),
{
    if es.len() > 0 {
        let d = es.drop_last();
        assert forall|i: int| 0 <= i < d.len() implies !used.contains((#[trigger] d[i]).rel) by {
            assert(!used.contains(es[i].rel));
        }
        lemma_closing_fresh(d, want, used);
        assert(!used.contains(es[es.len() - 1].rel));
    }
}

/// The relationships used below an edge are known to each hop that continues there.
pub proof fn lemma_used_below(p: FoldV, hi: int, used: Seq<u64>, node: u64, i: int)
    requires
        p.wf(),
        0 <= hi < p.hops.len(),
        p.hops[hi].fold,
        p.hops[hi].tgt is None,
        p.hops[hi].track && !p.hops[hi].reset ==> used_earlier(p, used, hi),
        0 <= i < p.g.adj(node, p.hops[hi].dir, p.hops[hi].tokens).len(),
    ensures
        used_ok_at(
            p,
            used_below(
                p.hops[hi],
                hop_base(p.hops[hi], used),
                p.g.adj(node, p.hops[hi].dir, p.hops[hi].tokens)[i],
            ),
            p.hops[hi].end->0,
        ),
{
    let h = p.hops[hi];
    let e = p.g.adj(node, h.dir, h.tokens)[i];
    let base = hop_base(h, used);
    let after = used_below(h, base, e);
    let u = h.end->0;
    lemma_adj_entry(p.g, node, h.dir, h.tokens, i);
    assert(p.g.rel_typed(e.rel, h.tokens)) by {
        let (s, n, k) = choose|s: bool, n: int, k: int| #[trigger]
            p.g.has_entry(s, n, k) && p.g.entry(s, n, k) == e;
        assert(p.g.has_entry(s, n, k) && p.g.entry(s, n, k).rel == e.rel);
    }
    assert forall|c: int|
        0 <= c < p.hops.len() && (#[trigger] p.hops[c]).fold && p.hops[c].src == u
            && p.hops[c].track && !p.hops[c].reset implies used_earlier(p, after, c) by {
        assert(p.hops[hi].end == Some(p.hops[c].src));
        assert(hi < c && p.hops[hi].path == p.hops[c].path);
        assert forall|k: int| 0 <= k < after.len() implies taken_earlier(
            p,
            #[trigger] after[k],
            c,
        ) by {
            if k < base.len() {
                assert(after[k] == used[k]);
                assert(taken_earlier(p, used[k], hi));
                let gi = choose|gi: int|
                    0 <= gi < hi && (#[trigger] p.hops[gi]).path == p.hops[hi].path
                        && p.g.rel_typed(used[k], p.hops[gi].tokens);
                assert(0 <= gi < c && p.hops[gi].path == p.hops[c].path);
            } else {
                assert(after[k] == e.rel);
                assert(0 <= hi < c && p.hops[hi].path == p.hops[c].path);
            }
        }
    }
}

/// Two bindings agree below a variable.
pub open spec fn agree(p: FoldV, u: int, a: Seq<u64>, b: Seq<u64>) -> bool {
    &&& a.len() == p.width
    &&& b.len() == p.width
    &&& forall|v: int| 0 <= v < p.width && #[trigger] below(p, u, v) ==> a[v] == b[v]
}

proof fn lemma_below_end(p: FoldV, u: int, hi: int)
    requires
        p.wf(),
        0 <= hi < p.hops.len(),
        p.hops[hi].fold,
        p.hops[hi].tgt is None,
        below(p, u, p.hops[hi].src),
    ensures
        below(p, u, p.hops[hi].end->0),
{
}

proof fn lemma_hop_pure(
    p: FoldV,
    u: int,
    hi: int,
    b1: Seq<u64>,
    b2: Seq<u64>,
    us1: Seq<u64>,
    us2: Seq<u64>,
    node: u64,
)
    requires
        p.wf(),
        memo_pure(p, u),
        0 <= hi < p.hops.len(),
        p.hops[hi].fold,
        below(p, u, p.hops[hi].src),
        agree(p, u, b1, b2),
        p.hops[hi].track && !p.hops[hi].reset ==> used_earlier(p, us1, hi),
        p.hops[hi].track && !p.hops[hi].reset ==> used_earlier(p, us2, hi),
    ensures
        hop_eval(p, hi, b1, us1, node) == hop_eval(p, hi, b2, us2, node),
    decreases p.width - p.hops[hi].src, 2nat, 0nat,
{
    let h = p.hops[hi];
    let es = p.g.adj(node, h.dir, h.tokens);
    let c1 = hop_base(h, us1);
    let c2 = hop_base(h, us2);
    assert(self_contained(p, u, hi));
    assert forall|i: int| 0 <= i < es.len() && h.track implies !c1.contains(
        (#[trigger] es[i]).rel,
    ) && !c2.contains(es[i].rel) by {
        if !h.reset {
            lemma_fresh(p, hi, us1, node, i);
            lemma_fresh(p, hi, us2, node, i);
        }
    }
    match h.tgt {
        Some(t) => {
            if h.track {
                lemma_closing_fresh(es, b1[t], c1);
                lemma_closing_fresh(es, b2[t], c2);
            }
            assert(below(p, u, t));
        },
        None => {
            lemma_edges_pure(p, u, hi, b1, b2, us1, us2, node, es.len() as int);
            assert(es.take(es.len() as int) =~= es);
        },
    }
}

proof fn lemma_edges_pure(
    p: FoldV,
    u: int,
    hi: int,
    b1: Seq<u64>,
    b2: Seq<u64>,
    us1: Seq<u64>,
    us2: Seq<u64>,
    node: u64,
    n: int,
)
    requires
        p.wf(),
        memo_pure(p, u),
        0 <= hi < p.hops.len(),
        p.hops[hi].fold,
        p.hops[hi].tgt is None,
        below(p, u, p.hops[hi].src),
        agree(p, u, b1, b2),
        p.hops[hi].track && !p.hops[hi].reset ==> used_earlier(p, us1, hi),
        p.hops[hi].track && !p.hops[hi].reset ==> used_earlier(p, us2, hi),
        0 <= n <= p.g.adj(node, p.hops[hi].dir, p.hops[hi].tokens).len(),
    ensures
        edges_eval(
            p,
            hi,
            b1,
            hop_base(p.hops[hi], us1),
            p.g.adj(node, p.hops[hi].dir, p.hops[hi].tokens).take(n),
        ) == edges_eval(
            p,
            hi,
            b2,
            hop_base(p.hops[hi], us2),
            p.g.adj(node, p.hops[hi].dir, p.hops[hi].tokens).take(n),
        ),
    decreases p.width - p.hops[hi].src, 1nat, n,
{
    let h = p.hops[hi];
    let es = p.g.adj(node, h.dir, h.tokens);
    let v = h.end->0;
    let c1 = hop_base(h, us1);
    let c2 = hop_base(h, us2);
    if n > 0 {
        lemma_edges_pure(p, u, hi, b1, b2, us1, us2, node, n - 1);
        seqs::lemma_take_last(es, n - 1);
        let e = es[n - 1];
        let d1 = b1.update(v, e.peer);
        let d2 = b2.update(v, e.peer);
        assert(self_contained(p, u, hi));
        lemma_below_end(p, u, hi);
        assert(agree(p, u, d1, d2));
        if h.track && !h.reset {
            lemma_fresh(p, hi, us1, node, n - 1);
            lemma_fresh(p, hi, us2, node, n - 1);
        }
        assert(preds_hold(p.g, d1, e.peer, h.preds) == preds_hold(p.g, d2, e.peer, h.preds)) by {
            assert forall|k: int| 0 <= k < h.preds.len() implies pred_holds(
                p.g,
                d1,
                e.peer,
                #[trigger] h.preds[k],
            ) == pred_holds(p.g, d2, e.peer, h.preds[k]) by {
                assert(below(p, u, pred_var(h.preds[k])));
            }
        }
        assert(takes(p, h, d1, c1, e) == takes(p, h, d2, c2, e));
        lemma_used_below(p, hi, us1, node, n - 1);
        lemma_used_below(p, hi, us2, node, n - 1);
        lemma_level_pure(
            p,
            u,
            v,
            kids(p, v).len(),
            d1,
            d2,
            used_below(h, c1, e),
            used_below(h, c2, e),
            e.peer,
        );
    }
}

proof fn lemma_level_pure(
    p: FoldV,
    u: int,
    v: int,
    n: nat,
    b1: Seq<u64>,
    b2: Seq<u64>,
    us1: Seq<u64>,
    us2: Seq<u64>,
    node: u64,
)
    requires
        p.wf(),
        memo_pure(p, u),
        0 <= v < p.width,
        below(p, u, v),
        agree(p, u, b1, b2),
        used_ok_at(p, us1, v),
        used_ok_at(p, us2, v),
    ensures
        level_eval(p, v, n, b1, us1, node) == level_eval(p, v, n, b2, us2, node),
    decreases p.width - v, 3nat, n,
{
    if 0 < n && n <= kids(p, v).len() {
        lemma_level_pure(p, u, v, (n - 1) as nat, b1, b2, us1, us2, node);
        lemma_kids(p, v);
        let c = kids(p, v)[n - 1];
        assert(0 <= c < p.hops.len() && p.hops[c].fold && p.hops[c].src == v);
        lemma_hop_pure(p, u, c, b1, b2, us1, us2, node);
    }
}

pub proof fn lemma_below_past(p: FoldV, u: int, v: int)
    requires
        0 <= u,
        below(p, u, v),
        v != u,
    ensures
        v > u,
        is_folded(p, v),
    decreases v,
{
    let hi = choose|hi: int|
        0 <= hi < p.hops.len() && (#[trigger] p.hops[hi]).fold && p.hops[hi].tgt is None
            && p.hops[hi].end == Some(v) && 0 <= p.hops[hi].src < v && below(p, u, p.hops[hi].src);
    if p.hops[hi].src != u {
        lemma_below_past(p, u, p.hops[hi].src);
    }
}

/// The count of a level whose subtree reads only itself and keeps apart only
/// from hops that share no type with it depends on its node alone: not on the
/// other bindings, nor on the relationships used before. Remembering it per
/// node therefore changes no count.
pub proof fn law_memo_is_pure(p: FoldV, u: int, bind: Seq<u64>, used: Seq<u64>, node: u64)
    requires
        p.wf(),
        0 <= u < p.width,
        memo_pure(p, u),
        bind.len() == p.width,
        bind[u] == node,
        unbound_past(p, bind, u),
        used_ok_at(p, used, u),
    ensures
        level_value(p, u, bind, used, node) == level_value(
            p,
            u,
            only(p, u, node),
            Seq::empty(),
            node,
        ),
{
    let b2 = only(p, u, node);
    assert forall|v: int| 0 <= v < p.width && #[trigger] below(p, u, v) implies bind[v] == b2[v] by {
        if v != u {
            lemma_below_past(p, u, v);
        }
    }
    assert(below(p, u, u));
    assert(used_ok_at(p, Seq::empty(), u));
    lemma_level_pure(p, u, u, kids(p, u).len(), bind, b2, used, Seq::empty(), node);
}

} // verus!
