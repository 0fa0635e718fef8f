//! A chain can be read back: each hop of a pattern is a step that goes as the hop is
//! written, and what a pattern asks of its nodes is among the conditions.

use vstd::prelude::*;

use crate::ast;
use crate::ast::{ExprV, HeadV, Op};
use crate::chain;
use crate::chain::{add_hop, enter_path, walk_hops, walk_paths, Allow, HopsV, Place};
use crate::graph::VarKind;
use crate::hop::StepHop;
use crate::names;
use crate::preds;
use crate::preds::{chain_of, full_where, where_pred, where_preds, ChainV, WhereV};
use crate::query::{NodeV, PathV, PatternV, RelDir, RelV};
use crate::seqs;

verus! {

/// The condition that a property of a variable has a value.
pub open spec fn has_value(x: Seq<char>, key: Seq<char>, val: ExprV) -> ExprV {
    ExprV {
        head: HeadV::Op(Op::Eq),
        args: seq![
            ExprV {
                head: HeadV::Prop(key),
                args: seq![ExprV { head: HeadV::Var(x), args: Seq::empty() }],
            },
            val,
        ],
    }
}

/// Whether a condition is that a variable has the one property of a map.
pub open spec fn asks_prop(c: ExprV, x: Seq<char>, props: ExprV) -> bool {
    props.head matches HeadV::MapOf(keys) && keys.len() == 1 && props.args.len() == 1 && c
        == has_value(x, keys[0], props.args[0])
}

/// Whether one of some conditions is that a variable has the one property of a map.
pub open spec fn asked(cs: Seq<ExprV>, x: Seq<char>, props: ExprV) -> bool {
    exists|i: int| 0 <= i < cs.len() && asks_prop(#[trigger] cs[i], x, props)
}

/// The variable that a step leads to.
pub open spec fn lands(s: StepHop) -> int {
    match s.tgt {
        Some(t) => t,
        None => s.end_vi->0,
    }
}

/// Whether a step goes as a hop is written: over its types, in its direction, as far as
/// it may, to its end, which has its name and its labels.
pub open spec fn goes_as(vars: Seq<Seq<char>>, kinds: Seq<VarKind>, s: StepHop, h: (RelV, NodeV)) -> bool {
    &&& s.types == h.0.types
    &&& s.types.len() > 0
    &&& match h.0.dir {
        RelDir::Out => s.dir is Out,
        RelDir::In => s.dir is In,
        RelDir::Undirected => s.dir is Both,
    }
    &&& s.rel_var == h.0.var
    &&& h.0.props is None
    &&& match h.0.length {
        None => s.varlen is None,
        Some(l) => l.max is Some && s.varlen == l.max && (l.min is None || l.min == Some(1u64))
            && s.tgt is None && s.rel_var is None,
    }
    &&& s.labels == h.1.labels
    &&& h.1.var matches Some(x) ==> s.var == x
    &&& h.1.var is None ==> s.tgt is None
    &&& s.tgt is None ==> s.end_vi is Some
    &&& 0 <= lands(s) < vars.len() && vars[lands(s)] == s.var
    &&& s.tgt is None ==> lands(s) < kinds.len() && kinds[lands(s)] is Node
    &&& 0 <= s.src < vars.len()
    &&& !s.fold
    &&& s.inline.len() == 0
}

/// Where a hop starts: at the node of that name, and at one without a name where the
/// hop before it led.
pub open spec fn starts_as(vars: Seq<Seq<char>>, hops: Seq<StepHop>, k: int, from: NodeV) -> bool {
    match from.var {
        Some(x) => vars[hops[k].src] == x,
        None => if k == 0 {
            hops[k].src == 0
        } else {
            hops[k].src == lands(hops[k - 1])
        },
    }
}

/// The hops of the first `n` paths, one after the other, each with where it starts.
pub open spec fn hops_of(ps: Seq<PathV>, n: nat) -> Seq<(NodeV, (RelV, NodeV))>
    decreases n,
{
    if n == 0 {
        Seq::empty()
    } else {
        hops_of(ps, (n - 1) as nat) + path_hops(ps[n - 1], ps[n - 1].hops.len())
    }
}

/// The first `n` hops of a path, each with where it starts.
pub open spec fn path_hops(p: PathV, n: nat) -> Seq<(NodeV, (RelV, NodeV))> {
    Seq::new(
        n,
        |i: int|
            (
                if i == 0 {
                    p.start
                } else {
                    p.hops[i - 1].1
                },
                p.hops[i],
            ),
    )
}

/// Whether steps are those of hops, and conditions on nodes are those of their ends.
pub open spec fn reads_back(st: HopsV, hs: Seq<(NodeV, (RelV, NodeV))>) -> bool {
    &&& st.hops.len() == hs.len()
    &&& st.vars.len() == st.kinds.len()
    &&& forall|k: int|
        0 <= k < hs.len() ==> goes_as(st.vars, st.kinds, #[trigger] st.hops[k], hs[k].1)
            && starts_as(st.vars, st.hops, k, hs[k].0)
    &&& forall|k: int|
        0 <= k < hs.len() ==> ((#[trigger] hs[k]).1.1.props matches Some(e) ==> asked(
            st.node_anchors,
            st.hops[k].var,
            e,
        ))
    &&& forall|i: int|
        0 <= i < st.node_anchors.len() ==> from_hop(#[trigger] st.node_anchors[i], st.hops, hs)
}

/// Whether a condition is what a hop asks of its end.
pub open spec fn from_hop(c: ExprV, hops: Seq<StepHop>, hs: Seq<(NodeV, (RelV, NodeV))>) -> bool {
    exists|k: int|
        0 <= k < hs.len() && ((#[trigger] hs[k]).1.1.props matches Some(e) && asks_prop(
            c,
            hops[k].var,
            e,
        ))
}

/// A state that is the same but for more that is bound, one more step and conditions.
spec fn extends(a: HopsV, b: HopsV, s: StepHop) -> bool {
    &&& b.hops == a.hops.push(s)
    &&& a.vars.len() <= b.vars.len()
    &&& forall|v: int| 0 <= v < a.vars.len() ==> a.vars[v] == #[trigger] b.vars[v]
    &&& forall|v: int| 0 <= v < a.kinds.len() ==> a.kinds[v] == #[trigger] b.kinds[v]
    &&& b.kinds.len() == b.vars.len()
    &&& b.a_var == a.a_var && b.a_labels == a.a_labels && b.start_anchor == a.start_anchor
}

proof fn lemma_extend(
    a: HopsV,
    b: HopsV,
    hs: Seq<(NodeV, (RelV, NodeV))>,
    from: NodeV,
    h: (RelV, NodeV),
    s: StepHop,
)
    requires
        reads_back(a, hs),
        extends(a, b, s),
        goes_as(b.vars, b.kinds, s, h),
        match from.var {
            Some(x) => b.vars[s.src] == x,
            None => if hs.len() == 0 {
                s.src == 0
            } else {
                s.src == lands(a.hops.last())
            },
        },
        match h.1.props {
            Some(e) => b.node_anchors.len() == a.node_anchors.len() + 1 && b.node_anchors.drop_last()
                == a.node_anchors && asks_prop(b.node_anchors.last(), s.var, e),
            None => b.node_anchors == a.node_anchors,
        },
    ensures
        reads_back(b, hs.push((from, h))),
{
    let n = hs.len() as int;
    let all = hs.push((from, h));
    assert forall|k: int| 0 <= k < all.len() implies goes_as(
        b.vars,
        b.kinds,
        #[trigger] b.hops[k],
        all[k].1,
    ) && starts_as(b.vars, b.hops, k, all[k].0) by {
        if k < n {
            let t = a.hops[k];
            assert(b.hops[k] == t && all[k] == hs[k]);
            assert(goes_as(a.vars, a.kinds, t, hs[k].1));
            assert(a.vars[t.src] == b.vars[t.src]);
            assert(a.vars[lands(t)] == b.vars[lands(t)]);
            if t.tgt is None {
                assert(a.kinds[lands(t)] == b.kinds[lands(t)]);
            }
            if k > 0 {
                assert(b.hops[k - 1] == a.hops[k - 1]);
            }
        } else if n > 0 {
            assert(b.hops[n - 1] == a.hops.last());
        }
    }
    assert forall|k: int| 0 <= k < all.len() implies ((#[trigger] all[k]).1.1.props matches Some(e)
        ==> asked(b.node_anchors, b.hops[k].var, e)) by {
        if all[k].1.1.props is Some {
            let e = all[k].1.1.props->0;
            if k < n {
                assert(all[k] == hs[k] && b.hops[k] == a.hops[k]);
                assert(hs[k].1.1.props is Some);
                assert(asked(a.node_anchors, a.hops[k].var, e));
                let i = choose|i: int|
                    0 <= i < a.node_anchors.len() && asks_prop(
                        #[trigger] a.node_anchors[i],
                        a.hops[k].var,
                        e,
                    );
                assert(b.node_anchors[i] == a.node_anchors[i]) by {
                    if h.1.props is Some {
                        assert(b.node_anchors.drop_last()[i] == a.node_anchors[i]);
                    }
                }
                assert(asks_prop(b.node_anchors[i], b.hops[k].var, e));
            } else {
                assert(asks_prop(b.node_anchors[b.node_anchors.len() - 1], b.hops[k].var, e));
            }
        }
    }
    assert forall|i: int| 0 <= i < b.node_anchors.len() implies from_hop(
        #[trigger] b.node_anchors[i],
        b.hops,
        all,
    ) by {
        if i < a.node_anchors.len() {
            assert(b.node_anchors[i] == a.node_anchors[i]) by {
                if h.1.props is Some {
                    assert(b.node_anchors.drop_last()[i] == a.node_anchors[i]);
                }
            }
            assert(from_hop(a.node_anchors[i], a.hops, hs));
            let k = choose|k: int|
                0 <= k < hs.len() && ((#[trigger] hs[k]).1.1.props matches Some(e) && asks_prop(
                    a.node_anchors[i],
                    a.hops[k].var,
                    e,
                ));
            assert(all[k] == hs[k] && b.hops[k] == a.hops[k]);
        } else {
            assert(all[n] == (from, h) && b.hops[n] == s);
        }
    }
}

/// One more hop.
proof fn lemma_hop(
    st: HopsV,
    hs: Seq<(NodeV, (RelV, NodeV))>,
    at: Place,
    src: int,
    from: NodeV,
    h: (RelV, NodeV),
    allow: Allow,
)
    requires
        reads_back(st, hs),
        0 <= src < st.vars.len(),
        match from.var {
            Some(x) => st.vars[src] == x,
            None => if hs.len() == 0 {
                src == 0
            } else {
                src == lands(st.hops.last())
            },
        },
        add_hop(st, at, src, h.0, h.1, allow) is Some,
    ensures
        ({
            let (end, next) = add_hop(st, at, src, h.0, h.1, allow)->0;
            &&& reads_back(end, hs.push((from, h)))
            &&& end.a_var == st.a_var && end.a_labels == st.a_labels && end.start_anchor
                == st.start_anchor
            &&& st.vars.len() <= end.vars.len()
            &&& st.vars.len() > 0 ==> end.vars[0] == st.vars[0]
            &&& h.0.length is None && end.hops.last().tgt is None ==> next == lands(end.hops.last())
                && 0 <= next < end.vars.len() && (h.1.var matches Some(x) ==> end.vars[next] == x)
            &&& end.hops.last().tgt is Some ==> at.hop + 1 == at.hops
            &&& h.0.length is Some ==> at.paths == 1 && at.hops == 1
        }),
{
    let (end, next) = add_hop(st, at, src, h.0, h.1, allow)->0;
    let s = end.hops.last();
    let rel = h.0;
    let node = h.1;
    if rel.length is Some {
        assert(extends(st, end, s));
        lemma_extend(st, end, hs, from, h, s);
    } else {
        let (named, x) = chain::node_name(st, node.var)->0;
        names::lemma_position(named.vars, x);
        if node.var is None {
            lemma_free(st.vars, st.anon);
            assert(names::position(named.vars, x) is None);
        }
        let anchor = chain::prop_anchor(node.props);
        if node.props is Some {
            let c = chain::anchor_eq(x, anchor->0);
            assert(end.node_anchors == st.node_anchors.push(c));
            assert(end.node_anchors.drop_last() =~= st.node_anchors);
            let e = node.props->0;
            assert(c == has_value(x, e.head->MapOf_0[0], e.args[0]));
            assert(asks_prop(end.node_anchors.last(), s.var, e));
        }
        assert(extends(st, end, s));
        assert(goes_as(end.vars, end.kinds, s, h));
        lemma_extend(st, end, hs, from, h, s);
    }
}

proof fn lemma_free(vars: Seq<Seq<char>>, n: nat)
    ensures
        chain::free_anon(vars, n) matches Some(k) ==> !vars.contains(chain::anon_name(k)),
    decreases u64::MAX - n,
{
    if n < u64::MAX && vars.contains(chain::anon_name(n)) {
        lemma_free(vars, n + 1);
    }
}

/// The first hops of a path.
proof fn lemma_hops(
    st: HopsV,
    hs: Seq<(NodeV, (RelV, NodeV))>,
    src: int,
    path: PathV,
    paths: usize,
    pi: usize,
    n: nat,
    allow: Allow,
)
    requires
        reads_back(st, hs),
        n <= path.hops.len() <= usize::MAX,
        0 <= src < st.vars.len(),
        match path.start.var {
            Some(x) => st.vars[src] == x,
            None => hs.len() == 0 && src == 0,
        },
        walk_hops(st, src, path, paths, pi, n, allow) is Some,
    ensures
        ({
            let (end, next) = walk_hops(st, src, path, paths, pi, n, allow)->0;
            &&& reads_back(end, hs + path_hops(path, n))
            &&& end.a_var == st.a_var && end.a_labels == st.a_labels && end.start_anchor
                == st.start_anchor
            &&& end.vars.len() > 0 && end.vars[0] == st.vars[0]
            &&& n < path.hops.len() ==> 0 <= next < end.vars.len() && (if n == 0 {
                next == src && end == st
            } else {
                next == lands(end.hops.last()) && (path.hops[n - 1].1.var matches Some(x)
                    ==> end.vars[next] == x)
            })
        }),
    decreases n,
{
    if n == 0 {
        assert(hs + path_hops(path, 0) =~= hs);
    } else {
        let m = (n - 1) as nat;
        lemma_hops(st, hs, src, path, paths, pi, m, allow);
        let (mid, s) = walk_hops(st, src, path, paths, pi, m, allow)->0;
        let from = if m == 0 {
            path.start
        } else {
            path.hops[m - 1].1
        };
        let at = Place { paths, path: pi, hops: path.hops.len() as usize, hop: m as usize };
        let before = hs + path_hops(path, m);
        assert(m == 0 ==> before =~= hs);
        lemma_hop(mid, before, at, s, from, path.hops[m as int], allow);
        assert(before.push((from, path.hops[m as int])) =~= hs + path_hops(path, n));
    }
}

/// The start of a path.
proof fn lemma_enter(st: HopsV, hs: Seq<(NodeV, (RelV, NodeV))>, path: PathV, fresh: bool, allow: Allow)
    requires
        reads_back(st, hs),
        fresh ==> hs.len() == 0 && st.vars.len() == 0,
        enter_path(st, path, fresh, allow) is Some,
    ensures
        ({
            let (end, src) = enter_path(st, path, fresh, allow)->0;
            &&& reads_back(end, hs)
            &&& path.var is None && !path.shortest
            &&& !fresh ==> path.start.props is None && end.start_anchor == st.start_anchor
                && end.a_var == st.a_var && end.a_labels == st.a_labels && end.vars == st.vars
            &&& fresh ==> {
                &&& end.a_labels == path.start.labels
                &&& end.vars.len() > 0 && end.vars[0] == end.a_var
                &&& path.start.var matches Some(x) ==> end.a_var == x
                &&& match path.start.props {
                    Some(e) => e.head matches HeadV::MapOf(keys) && keys.len() == 1 && e.args.len()
                        == 1 && end.start_anchor == Some((keys[0], e.args[0])),
                    None => end.start_anchor == st.start_anchor,
                }
            }
            &&& src is None <==> path.hops.len() == 0
            &&& src matches Some(i) ==> 0 <= i < end.vars.len() && match path.start.var {
                Some(x) => end.vars[i] == x,
                None => hs.len() == 0 && i == 0,
            }
        }),
{
    let (end, src) = enter_path(st, path, fresh, allow)->0;
    let (named, x) = chain::node_name(st, path.start.var)->0;
    names::lemma_position(st.vars, x);
    assert forall|k: int| 0 <= k < hs.len() implies goes_as(
        end.vars,
        end.kinds,
        #[trigger] end.hops[k],
        hs[k].1,
    ) && starts_as(end.vars, end.hops, k, hs[k].0) by {
        assert(goes_as(st.vars, st.kinds, st.hops[k], hs[k].1));
    }
    assert forall|i: int| 0 <= i < end.node_anchors.len() implies from_hop(
        #[trigger] end.node_anchors[i],
        end.hops,
        hs,
    ) by {
        assert(from_hop(st.node_anchors[i], st.hops, hs));
    }
}

/// What a scanned start asks for.
pub open spec fn start_reads_back(st: HopsV, n: NodeV) -> bool {
    &&& st.a_labels == n.labels
    &&& n.var matches Some(x) ==> st.a_var == x
    &&& st.vars.len() > 0 && st.vars[0] == st.a_var
    &&& match n.props {
        Some(e) => e.head matches HeadV::MapOf(keys) && keys.len() == 1 && e.args.len() == 1
            && st.start_anchor == Some((keys[0], e.args[0])),
        None => st.start_anchor is None,
    }
}

proof fn lemma_paths(pattern: PatternV, n: nat, allow: Allow)
    requires
        0 < n <= pattern.paths.len() <= usize::MAX,
        forall|j: int|
            0 <= j < pattern.paths.len() ==> (#[trigger] pattern.paths[j]).hops.len() <= usize::MAX,
        walk_paths(
            chain::before(Seq::empty(), Seq::empty(), Map::empty()),
            pattern,
            true,
            n,
            allow,
        ) is Some,
    ensures
        ({
            let st = walk_paths(
                chain::before(Seq::empty(), Seq::empty(), Map::empty()),
                pattern,
                true,
                n,
                allow,
            )->0;
            &&& reads_back(st, hops_of(pattern.paths, n))
            &&& start_reads_back(st, pattern.paths[0].start)
            &&& forall|j: int|
                0 <= j < n ==> (#[trigger] pattern.paths[j]).var is None && !pattern.paths[j].shortest
                    && (j > 0 ==> pattern.paths[j].start.props is None)
        }),
    decreases n,
{
    let b = chain::before(Seq::empty(), Seq::empty(), Map::empty());
    let p = pattern.paths[n - 1];
    let m = (n - 1) as nat;
    let mid = walk_paths(b, pattern, true, m, allow)->0;
    let hs = hops_of(pattern.paths, m);
    if m > 0 {
        lemma_paths(pattern, m, allow);
    }
    assert(reads_back(mid, hs));
    lemma_enter(mid, hs, p, m == 0, allow);
    let (st, src) = enter_path(mid, p, m == 0, allow)->0;
    assert(p.hops.len() <= usize::MAX);
    match src {
        None => {
            assert(hs + path_hops(p, 0) =~= hs);
        },
        Some(i) => {
            lemma_hops(
                st,
                hs,
                i,
                p,
                pattern.paths.len() as usize,
                m as usize,
                p.hops.len(),
                allow,
            );
        },
    }
}

/// Conditions joined to another.
proof fn lemma_and_all(w: Option<ExprV>, more: Seq<ExprV>, c: ExprV)
    ensures
        joined(preds::and_all(w, more)).contains(c) <==> joined(w).contains(c) || exists|i: int|
            0 <= i < more.len() && ast::conjuncts(#[trigger] more[i]).contains(c),
    decreases more.len(),
{
    if more.len() > 0 {
        let p = more.drop_last();
        let x = more.last();
        lemma_and_all(w, p, c);
        let a = preds::and_all(w, p);
        match a {
            Some(e) => {
                let both = ast::bin_v(Op::And, e, x);
                assert(both.args[0] == e && both.args[1] == x);
                assert(ast::conjuncts(both) == ast::conjuncts(e) + ast::conjuncts(x));
                lemma_add_contains(ast::conjuncts(e), ast::conjuncts(x), c);
            },
            None => {},
        }
        if exists|i: int| 0 <= i < more.len() && ast::conjuncts(#[trigger] more[i]).contains(c) {
            let i = choose|i: int|
                0 <= i < more.len() && ast::conjuncts(#[trigger] more[i]).contains(c);
            if i < p.len() {
                assert(p[i] == more[i]);
            }
        }
        if exists|i: int| 0 <= i < p.len() && ast::conjuncts(#[trigger] p[i]).contains(c) {
            let i = choose|i: int| 0 <= i < p.len() && ast::conjuncts(#[trigger] p[i]).contains(c);
            assert(more[i] == p[i]);
        }
        if ast::conjuncts(x).contains(c) {
            assert(more[more.len() - 1] == x);
        }
    }
}

proof fn lemma_add_contains(a: Seq<ExprV>, b: Seq<ExprV>, c: ExprV)
    ensures
        (a + b).contains(c) <==> a.contains(c) || b.contains(c),
{
    if a.contains(c) {
        let i = choose|i: int| 0 <= i < a.len() && a[i] == c;
        assert((a + b)[i] == c);
    }
    if b.contains(c) {
        let i = choose|i: int| 0 <= i < b.len() && b[i] == c;
        assert((a + b)[a.len() + i] == c);
    }
    if (a + b).contains(c) {
        let i = choose|i: int| 0 <= i < (a + b).len() && (a + b)[i] == c;
        if i < a.len() {
            assert(a[i] == c);
        } else {
            assert(b[i - a.len()] == c);
        }
    }
}

/// The conjuncts of a condition, none where there is none.
pub open spec fn joined(w: Option<ExprV>) -> Seq<ExprV> {
    match w {
        Some(w) => ast::conjuncts(w),
        None => Seq::empty(),
    }
}

/// What a pattern asks of a node by its properties, for the node of a step or of the
/// scanned start.
pub open spec fn pattern_asks(
    c: ChainV,
    pattern: PatternV,
    hs: Seq<(NodeV, (RelV, NodeV))>,
    cond: ExprV,
) -> bool {
    ||| pattern.paths[0].start.props matches Some(e) && asks_prop(cond, c.a_var, e)
    ||| from_hop(cond, c.hops, hs)
}

/// The conditions of a chain, as they are written.
pub open spec fn exprs_in(c: ChainV) -> Seq<ExprV> {
    c.wheres.map_values(|p: WhereV| p.expr)
}

/// Which conditions a chain has.
proof fn lemma_cond(pattern: PatternV, w: Option<ExprV>, h: HopsV, c: ChainV, cond: ExprV)
    requires
        exprs_in(c) == joined(full_where(h, w)),
        c.hops == h.hops,
        c.a_var == h.a_var,
        reads_back(h, hops_of(pattern.paths, pattern.paths.len())),
        start_reads_back(h, pattern.paths[0].start),
    ensures
        exprs_in(c).contains(cond) <==> joined(w).contains(cond) || pattern_asks(
            c,
            pattern,
            hops_of(pattern.paths, pattern.paths.len()),
            cond,
        ),
{
    let hs = hops_of(pattern.paths, pattern.paths.len());
    let first = match (h.start_anchor, w) {
        (Some(a), Some(w)) => Some(ast::bin_v(Op::And, chain::anchor_eq(h.a_var, a), w)),
        (Some(a), None) => Some(chain::anchor_eq(h.a_var, a)),
        (None, w) => w,
    };
    lemma_and_all(first, h.node_anchors, cond);
    if let Some(a) = h.start_anchor {
        let eq = chain::anchor_eq(h.a_var, a);
        assert(eq == has_value(h.a_var, a.0, a.1));
        assert(ast::conjuncts(eq) == seq![eq]);
        assert(seq![eq][0] == eq);
        if let Some(w) = w {
            let both = ast::bin_v(Op::And, eq, w);
            assert(both.args[0] == eq && both.args[1] == w);
            assert(ast::conjuncts(both) == ast::conjuncts(eq) + ast::conjuncts(w));
            lemma_add_contains(ast::conjuncts(eq), ast::conjuncts(w), cond);
        }
        assert(joined(first).contains(cond) <==> joined(w).contains(cond) || cond == eq);
        assert(cond == eq <==> (pattern.paths[0].start.props matches Some(e) && asks_prop(
            cond,
            c.a_var,
            e,
        )));
    }
    if exists|i: int|
        0 <= i < h.node_anchors.len() && ast::conjuncts(#[trigger] h.node_anchors[i]).contains(
            cond,
        ) {
        let i = choose|i: int|
            0 <= i < h.node_anchors.len() && ast::conjuncts(
                #[trigger] h.node_anchors[i],
            ).contains(cond);
        let a = h.node_anchors[i];
        assert(from_hop(a, h.hops, hs));
        assert(a.head == HeadV::Op(Op::Eq));
        assert(ast::conjuncts(a) == seq![a]);
        assert(cond == a);
    }
    if from_hop(cond, c.hops, hs) {
        let k = choose|k: int|
            0 <= k < hs.len() && ((#[trigger] hs[k]).1.1.props matches Some(e) && asks_prop(
                cond,
                c.hops[k].var,
                e,
            ));
        let e = hs[k].1.1.props->0;
        assert(asked(h.node_anchors, h.hops[k].var, e));
        let i = choose|i: int|
            0 <= i < h.node_anchors.len() && asks_prop(
                #[trigger] h.node_anchors[i],
                h.hops[k].var,
                e,
            );
        let a = h.node_anchors[i];
        assert(a == cond);
        assert(ast::conjuncts(a) == seq![a]);
        assert(seq![a][0] == cond);
    }
}

/// A chain can be read back. Each hop of its pattern, path by path, is a step that goes
/// as the hop is written and starts where it does; its start is the start of the first
/// path; and its conditions are those that are written and those that the nodes ask for
/// by their properties, and no others, each planned as it is written.
pub proof fn law_chain_reads_back(pattern: PatternV, w: Option<ExprV>, c: ChainV)
    requires
        chain_of(pattern, w) == Some(c),
        pattern.paths.len() <= usize::MAX,
        forall|j: int|
            0 <= j < pattern.paths.len() ==> (#[trigger] pattern.paths[j]).hops.len() <= usize::MAX,
    ensures
        ({
            let hs = hops_of(pattern.paths, pattern.paths.len());
            &&& pattern.paths.len() > 0
            &&& c.hops.len() == hs.len()
            &&& forall|k: int|
                0 <= k < hs.len() ==> goes_as(c.vars, c.kinds, #[trigger] c.hops[k], hs[k].1)
                    && starts_as(c.vars, c.hops, k, hs[k].0)
            &&& c.a_labels == pattern.paths[0].start.labels
            &&& pattern.paths[0].start.var matches Some(x) ==> c.a_var == x
            &&& c.vars.len() > 0 && c.vars[0] == c.a_var
            &&& forall|j: int|
                0 <= j < pattern.paths.len() ==> (#[trigger] pattern.paths[j]).var is None
                    && !pattern.paths[j].shortest && (j > 0 ==> pattern.paths[j].start.props is None)
            &&& forall|cond: ExprV|
                #[trigger] exprs_in(c).contains(cond) <==> joined(w).contains(cond) || pattern_asks(
                    c,
                    pattern,
                    hs,
                    cond,
                )
            &&& forall|k: int|
                0 <= k < hs.len() ==> ((#[trigger] hs[k]).1.1.props matches Some(e) ==> asked(
                    exprs_in(c),
                    c.hops[k].var,
                    e,
                ))
            &&& pattern.paths[0].start.props matches Some(e) ==> asked(
                exprs_in(c),
                c.a_var,
                e,
            )
            &&& c.start_anchor matches Some((key, val)) ==> pattern.paths[0].start.props is Some
                && exprs_in(c).contains(has_value(c.a_var, key, val))
            &&& forall|i: int|
                0 <= i < c.wheres.len() ==> where_pred((#[trigger] c.wheres[i]).expr, c.vars)
                    == Some(c.wheres[i])
        }),
{
    let n = pattern.paths.len();
    let allow = preds::chain_allow();
    let h = chain::scan_hops(pattern, allow)->0;
    lemma_paths(pattern, n, allow);
    let hs = hops_of(pattern.paths, n);
    let full = full_where(h, w);
    let plan = |e: ExprV| where_pred(e, h.vars);
    let es = exprs_in(c);
    assert(es =~= joined(full)) by {
        if full is Some {
            let all = ast::conjuncts(full->0);
            assert(c.wheres == all.map_values(|e: ExprV| plan(e)->0));
            assert forall|i: int| 0 <= i < all.len() implies es[i] == all[i] by {
                assert(plan(all[i]) is Some);
            }
        }
    }
    assert forall|i: int| 0 <= i < c.wheres.len() implies where_pred(
        (#[trigger] c.wheres[i]).expr,
        c.vars,
    ) == Some(c.wheres[i]) by {
        let all = ast::conjuncts(full->0);
        assert(plan(all[i]) is Some);
    }
    assert forall|cond: ExprV| #[trigger] exprs_in(c).contains(cond) <==> joined(w).contains(cond)
        || pattern_asks(c, pattern, hs, cond) by {
        lemma_cond(pattern, w, h, c, cond);
    }
    assert forall|k: int| 0 <= k < hs.len() implies ((#[trigger] hs[k]).1.1.props matches Some(e)
        ==> asked(es, c.hops[k].var, e)) by {
        if hs[k].1.1.props is Some {
            let e = hs[k].1.1.props->0;
            assert(asked(h.node_anchors, h.hops[k].var, e));
            let i = choose|i: int|
                0 <= i < h.node_anchors.len() && asks_prop(
                    #[trigger] h.node_anchors[i],
                    h.hops[k].var,
                    e,
                );
            let a = h.node_anchors[i];
            assert(from_hop(a, c.hops, hs));
            assert(exprs_in(c).contains(a));
            let j = choose|j: int| 0 <= j < es.len() && es[j] == a;
            assert(asks_prop(es[j], c.hops[k].var, e));
        }
    }
    if let Some(e) = pattern.paths[0].start.props {
        let a = has_value(c.a_var, e.head->MapOf_0[0], e.args[0]);
        assert(asks_prop(a, c.a_var, e));
        assert(exprs_in(c).contains(a));
        let j = choose|j: int| 0 <= j < es.len() && es[j] == a;
        assert(asks_prop(es[j], c.a_var, e));
    }
}

proof fn lemma_bound_paths(
    pattern: PatternV,
    b: HopsV,
    n: nat,
    allow: Allow,
)
    requires
        n <= pattern.paths.len() <= usize::MAX,
        forall|j: int|
            0 <= j < pattern.paths.len() ==> (#[trigger] pattern.paths[j]).hops.len() <= usize::MAX,
        reads_back(b, Seq::empty()),
        walk_paths(b, pattern, false, n, allow) is Some,
    ensures
        ({
            let st = walk_paths(b, pattern, false, n, allow)->0;
            &&& reads_back(st, hops_of(pattern.paths, n))
            &&& forall|j: int|
                0 <= j < n ==> (#[trigger] pattern.paths[j]).var is None && !pattern.paths[j].shortest
                    && pattern.paths[j].start.props is None
        }),
    decreases n,
{
    if n > 0 {
        let p = pattern.paths[n - 1];
        let m = (n - 1) as nat;
        lemma_bound_paths(pattern, b, m, allow);
        let mid = walk_paths(b, pattern, false, m, allow)->0;
        let hs = hops_of(pattern.paths, m);
        lemma_enter(mid, hs, p, false, allow);
        let (st, src) = enter_path(mid, p, false, allow)->0;
        assert(p.hops.len() <= usize::MAX);
        assert(p.start.var is Some);
        match src {
            None => {
                assert(hs + path_hops(p, 0) =~= hs);
            },
            Some(i) => {
                lemma_hops(
                    st,
                    hs,
                    i,
                    p,
                    pattern.paths.len() as usize,
                    m as usize,
                    p.hops.len(),
                    allow,
                );
            },
        }
    }
}

/// Whether steps go as hops are written, one by one.
pub open spec fn steps_back(
    hops: Seq<StepHop>,
    vars: Seq<Seq<char>>,
    kinds: Seq<VarKind>,
    hs: Seq<(NodeV, (RelV, NodeV))>,
) -> bool {
    &&& hops.len() == hs.len()
    &&& forall|k: int|
        0 <= k < hs.len() ==> goes_as(vars, kinds, #[trigger] hops[k], hs[k].1) && starts_as(
            vars,
            hops,
            k,
            hs[k].0,
        )
}

/// Planned conditions, as they are written.
pub open spec fn written(ps: Seq<WhereV>) -> Seq<ExprV> {
    ps.map_values(|p: WhereV| p.expr)
}

/// Whether planned conditions are some that are written and those that nodes ask for by
/// their properties, and no others, each planned as it is written.
pub open spec fn conds_back(
    ps: Seq<WhereV>,
    vars: Seq<Seq<char>>,
    hops: Seq<StepHop>,
    hs: Seq<(NodeV, (RelV, NodeV))>,
    start: Option<(Seq<char>, ExprV)>,
    cs: Seq<ExprV>,
) -> bool {
    &&& forall|c: ExprV| #[trigger]
        written(ps).contains(c) <==> cs.contains(c) || from_hop(c, hops, hs) || (start matches Some((
            x,
            e,
        )) && asks_prop(c, x, e))
    &&& forall|k: int|
        0 <= k < hs.len() ==> ((#[trigger] hs[k]).1.1.props matches Some(e) ==> asked(
            written(ps),
            hops[k].var,
            e,
        ))
    &&& start matches Some((x, e)) ==> asked(written(ps), x, e)
    &&& forall|i: int|
        0 <= i < ps.len() ==> where_pred((#[trigger] ps[i]).expr, vars) == Some(ps[i])
}

/// Whether no path of a pattern has a name or is a shortest one, and no start but the
/// first asks for a property.
pub open spec fn plain_paths(pattern: PatternV) -> bool {
    forall|j: int|
        0 <= j < pattern.paths.len() ==> (#[trigger] pattern.paths[j]).var is None
            && !pattern.paths[j].shortest && (j > 0 ==> pattern.paths[j].start.props is None)
}

/// What the scanned start of a pattern asks for by its properties.
pub open spec fn start_props(pattern: PatternV, x: Seq<char>) -> Option<(Seq<char>, ExprV)> {
    match pattern.paths[0].start.props {
        Some(e) => Some((x, e)),
        None => None,
    }
}

/// The lengths of a pattern fit.
pub open spec fn fits(pattern: PatternV) -> bool {
    &&& pattern.paths.len() <= usize::MAX
    &&& forall|j: int|
        0 <= j < pattern.paths.len() ==> (#[trigger] pattern.paths[j]).hops.len() <= usize::MAX
}

/// The steps of a pattern that scans for its start go as its hops are written.
pub proof fn law_scanned_steps_read_back(pattern: PatternV, allow: Allow, h: HopsV)
    requires
        chain::scan_hops(pattern, allow) == Some(h),
        fits(pattern),
    ensures
        pattern.paths.len() > 0,
        steps_back(h.hops, h.vars, h.kinds, hops_of(pattern.paths, pattern.paths.len())),
        start_reads_back(h, pattern.paths[0].start),
        plain_paths(pattern),
        reads_back(h, hops_of(pattern.paths, pattern.paths.len())),
{
    lemma_paths(pattern, pattern.paths.len(), allow);
}

/// The steps of a pattern that starts at bound variables go as its hops are written.
pub proof fn law_bound_steps_read_back(
    pattern: PatternV,
    vars: Seq<Seq<char>>,
    kinds: Seq<VarKind>,
    labels: Map<Seq<char>, Seq<Seq<char>>>,
    allow: Allow,
    h: HopsV,
)
    requires
        chain::bound_hops(pattern, vars, kinds, labels, allow) == Some(h),
        vars.len() == kinds.len(),
        fits(pattern),
    ensures
        pattern.paths.len() > 0,
        steps_back(h.hops, h.vars, h.kinds, hops_of(pattern.paths, pattern.paths.len())),
        plain_paths(pattern),
        pattern.paths[0].start.props is None,
        reads_back(h, hops_of(pattern.paths, pattern.paths.len())),
{
    let b = chain::before(vars, kinds, labels);
    lemma_bound_paths(pattern, b, pattern.paths.len(), allow);
}

proof fn lemma_planned(all: Seq<ExprV>, vars: Seq<Seq<char>>, ps: Seq<WhereV>)
    requires
        seqs::try_map(all, |c: ExprV| where_pred(c, vars)) == Some(ps),
    ensures
        written(ps) == all,
        forall|i: int|
            0 <= i < ps.len() ==> where_pred((#[trigger] ps[i]).expr, vars) == Some(ps[i]),
{
    let plan = |c: ExprV| where_pred(c, vars);
    assert(ps == all.map_values(|c: ExprV| plan(c)->0));
    assert forall|i: int| 0 <= i < ps.len() implies where_pred((#[trigger] ps[i]).expr, vars) == Some(
        ps[i],
    ) && ps[i].expr == all[i] by {
        assert(plan(all[i]) is Some);
    }
    assert(written(ps) =~= all);
}

/// The conditions of the nodes of hops.
proof fn lemma_hop_conds(h: HopsV, hs: Seq<(NodeV, (RelV, NodeV))>, c: ExprV)
    requires
        reads_back(h, hs),
    ensures
        (exists|i: int|
            0 <= i < h.node_anchors.len() && ast::conjuncts(#[trigger] h.node_anchors[i]).contains(c))
            <==> from_hop(c, h.hops, hs),
        h.node_anchors.contains(c) <==> from_hop(c, h.hops, hs),
{
    if exists|i: int|
        0 <= i < h.node_anchors.len() && ast::conjuncts(#[trigger] h.node_anchors[i]).contains(c) {
        let i = choose|i: int|
            0 <= i < h.node_anchors.len() && ast::conjuncts(#[trigger] h.node_anchors[i]).contains(
                c,
            );
        let a = h.node_anchors[i];
        assert(from_hop(a, h.hops, hs));
        assert(a.head == HeadV::Op(Op::Eq));
        assert(ast::conjuncts(a) == seq![a]);
        assert(c == a);
    }
    if h.node_anchors.contains(c) {
        let i = choose|i: int| 0 <= i < h.node_anchors.len() && h.node_anchors[i] == c;
        assert(from_hop(h.node_anchors[i], h.hops, hs));
    }
    if from_hop(c, h.hops, hs) {
        let k = choose|k: int|
            0 <= k < hs.len() && ((#[trigger] hs[k]).1.1.props matches Some(e) && asks_prop(
                c,
                h.hops[k].var,
                e,
            ));
        let e = hs[k].1.1.props->0;
        assert(asked(h.node_anchors, h.hops[k].var, e));
        let i = choose|i: int|
            0 <= i < h.node_anchors.len() && asks_prop(
                #[trigger] h.node_anchors[i],
                h.hops[k].var,
                e,
            );
        assert(h.node_anchors[i] == c);
        assert(ast::conjuncts(c) == seq![c]);
        assert(seq![c][0] == c);
    }
}

/// Conditions that hold those of nodes ask what the nodes ask for.
proof fn lemma_asked(
    h: HopsV,
    hs: Seq<(NodeV, (RelV, NodeV))>,
    es: Seq<ExprV>,
)
    requires
        reads_back(h, hs),
        forall|c: ExprV| from_hop(c, h.hops, hs) ==> #[trigger] es.contains(c),
    ensures
        forall|k: int|
            0 <= k < hs.len() ==> ((#[trigger] hs[k]).1.1.props matches Some(e) ==> asked(
                es,
                h.hops[k].var,
                e,
            )),
{
    assert forall|k: int| 0 <= k < hs.len() implies ((#[trigger] hs[k]).1.1.props matches Some(e)
        ==> asked(es, h.hops[k].var, e)) by {
        if hs[k].1.1.props is Some {
            let e = hs[k].1.1.props->0;
            assert(asked(h.node_anchors, h.hops[k].var, e));
            let i = choose|i: int|
                0 <= i < h.node_anchors.len() && asks_prop(
                    #[trigger] h.node_anchors[i],
                    h.hops[k].var,
                    e,
                );
            let a = h.node_anchors[i];
            assert(from_hop(a, h.hops, hs));
            assert(es.contains(a));
            let j = choose|j: int| 0 <= j < es.len() && es[j] == a;
            assert(asks_prop(es[j], h.hops[k].var, e));
        }
    }
}

/// The conditions planned for a scanned pattern are those that are written and those
/// that its nodes ask for.
pub proof fn law_scanned_conditions_read_back(
    pattern: PatternV,
    allow: Allow,
    w: Option<ExprV>,
    h: HopsV,
    ps: Seq<WhereV>,
)
    requires
        chain::scan_hops(pattern, allow) == Some(h),
        fits(pattern),
        where_preds(full_where(h, w), h.vars) == Some(ps),
    ensures
        conds_back(
            ps,
            h.vars,
            h.hops,
            hops_of(pattern.paths, pattern.paths.len()),
            start_props(pattern, h.a_var),
            joined(w),
        ),
{
    let hs = hops_of(pattern.paths, pattern.paths.len());
    law_scanned_steps_read_back(pattern, allow, h);
    let full = full_where(h, w);
    lemma_planned_opt(full, h.vars, ps);
    let c = ChainV {
        a_labels: h.a_labels,
        a_var: h.a_var,
        hops: h.hops,
        vars: h.vars,
        kinds: h.kinds,
        wheres: ps,
        start_anchor: h.start_anchor,
    };
    assert(exprs_in(c) == written(ps));
    assert forall|e: ExprV| #[trigger] written(ps).contains(e) <==> joined(w).contains(e)
        || from_hop(e, h.hops, hs) || (start_props(pattern, h.a_var) matches Some((x, p))
        && asks_prop(e, x, p)) by {
        lemma_cond(pattern, w, h, c, e);
    }
    lemma_asked(h, hs, written(ps));
    if let Some(e) = pattern.paths[0].start.props {
        let a = has_value(h.a_var, e.head->MapOf_0[0], e.args[0]);
        assert(asks_prop(a, h.a_var, e));
        assert(written(ps).contains(a));
        let j = choose|j: int| 0 <= j < written(ps).len() && written(ps)[j] == a;
        assert(asks_prop(written(ps)[j], h.a_var, e));
    }
}

proof fn lemma_planned_opt(w: Option<ExprV>, vars: Seq<Seq<char>>, ps: Seq<WhereV>)
    requires
        where_preds(w, vars) == Some(ps),
    ensures
        written(ps) == joined(w),
        forall|i: int|
            0 <= i < ps.len() ==> where_pred((#[trigger] ps[i]).expr, vars) == Some(ps[i]),
{
    match w {
        Some(w) => {
            lemma_planned(ast::conjuncts(w), vars, ps);
        },
        None => {
            assert(written(ps) =~= Seq::empty());
        },
    }
}

/// The conditions planned for a pattern that starts at bound variables are those that
/// are written and those that its nodes ask for.
pub proof fn law_bound_conditions_read_back(
    pattern: PatternV,
    w: Option<ExprV>,
    h: HopsV,
    ps: Seq<WhereV>,
)
    requires
        reads_back(h, hops_of(pattern.paths, pattern.paths.len())),
        where_preds(preds::and_all(w, h.node_anchors), h.vars) == Some(ps),
    ensures
        conds_back(
            ps,
            h.vars,
            h.hops,
            hops_of(pattern.paths, pattern.paths.len()),
            None,
            joined(w),
        ),
{
    let hs = hops_of(pattern.paths, pattern.paths.len());
    lemma_planned_opt(preds::and_all(w, h.node_anchors), h.vars, ps);
    assert forall|e: ExprV| #[trigger] written(ps).contains(e) <==> joined(w).contains(e)
        || from_hop(e, h.hops, hs) by {
        lemma_and_all(w, h.node_anchors, e);
        lemma_hop_conds(h, hs, e);
    }
    lemma_asked(h, hs, written(ps));
}

/// The one condition of a clause and those that nodes ask for.
pub proof fn law_one_condition_reads_back(
    pattern: PatternV,
    w: Option<ExprV>,
    h: HopsV,
    ps: Seq<WhereV>,
)
    requires
        reads_back(h, hops_of(pattern.paths, pattern.paths.len())),
        crate::multistage::then_anchors(w, h.node_anchors, h.vars) == Some(ps),
    ensures
        conds_back(
            ps,
            h.vars,
            h.hops,
            hops_of(pattern.paths, pattern.paths.len()),
            None,
            whole(w),
        ),
{
    let hs = hops_of(pattern.paths, pattern.paths.len());
    let more = seqs::try_map(h.node_anchors, |a: ExprV| where_pred(a, h.vars))->0;
    lemma_planned(h.node_anchors, h.vars, more);
    assert(written(ps) =~= whole(w) + h.node_anchors) by {
        if w is Some {
            assert(ps[0].expr == w->0);
            assert forall|i: int| 0 <= i < more.len() implies written(ps)[i + 1]
                == h.node_anchors[i] by {
                assert(ps[i + 1] == more[i]);
                assert(written(more)[i] == h.node_anchors[i]);
            }
        } else {
            assert(ps == more);
        }
    }
    assert forall|i: int| 0 <= i < ps.len() implies where_pred((#[trigger] ps[i]).expr, h.vars)
        == Some(ps[i]) by {
        if w is Some && i > 0 {
            assert(ps[i] == more[i - 1]);
        } else if w is None {
            assert(ps[i] == more[i]);
        }
    }
    assert forall|e: ExprV| #[trigger] written(ps).contains(e) <==> whole(w).contains(e)
        || from_hop(e, h.hops, hs) by {
        lemma_add_contains(whole(w), h.node_anchors, e);
        lemma_hop_conds(h, hs, e);
    }
    lemma_asked(h, hs, written(ps));
}

/// A condition as it is, none where there is none.
pub open spec fn whole(w: Option<ExprV>) -> Seq<ExprV> {
    match w {
        Some(w) => seq![w],
        None => Seq::empty(),
    }
}

} // verus!
