//! The steps of a pattern follow its paths hop by hop, and a variable of the
//! steps stands for one node of the pattern.

use vstd::prelude::*;

use crate::aggregate::pattern_fits;
use crate::chain;
use crate::chain::{
    add_hop,
    anon_name,
    enter_path,
    free_anon,
    node_name,
    walk_hops,
    walk_path,
    walk_paths,
    Allow,
    HopsV,
    Place,
};
use crate::hop::StepHop;
use crate::labels;
use crate::names;
use crate::query;
use crate::query::{NodeV, PathV, PatternV};
use crate::reorder::walkable;
use crate::reroot::node_at;

verus! {

/// How many hops come before path `j`.
pub open spec fn offset(ps: Seq<PathV>, j: int) -> nat
    decreases j,
{
    if j <= 0 {
        0
    } else {
        offset(ps, j - 1) + ps[j - 1].hops.len()
    }
}

/// A relationship of the paths has a name.
pub open spec fn rel_named(ps: Seq<PathV>, x: Seq<char>) -> bool {
    exists|j: int, i: int|
        0 <= j < ps.len() && 0 <= i < ps[j].hops.len() && (#[trigger] ps[j].hops[i]).0.var == Some(x)
}

/// A name is not one that is given to unnamed nodes.
pub open spec fn own_name(x: Seq<char>) -> bool {
    forall|n: nat| x != #[trigger] anon_name(n)
}

/// Nodes and relationships do not share names, and none has a name that is
/// given to unnamed nodes.
pub open spec fn plainly_named(ps: Seq<PathV>) -> bool {
    &&& forall|j: int, t: int|
        0 <= j < ps.len() && 0 <= t <= ps[j].hops.len() ==> (#[trigger] node_at(ps[j], t).var matches Some(
            x,
        ) ==> own_name(x) && !rel_named(ps, x))
    &&& forall|j: int, i: int|
        0 <= j < ps.len() && 0 <= i < ps[j].hops.len() ==> ((#[trigger] ps[j].hops[i]).0.var matches Some(
            x,
        ) ==> own_name(x))
}

/// A variable stands for a node.
pub open spec fn denotes(vars: Seq<Seq<char>>, v: int, n: NodeV) -> bool {
    &&& 0 <= v < vars.len()
    &&& match n.var {
        Some(x) => vars[v] == x,
        None => exists|i: nat| vars[v] == #[trigger] anon_name(i),
    }
}

/// The variable that a step leads to.
pub open spec fn led(s: StepHop) -> int {
    match s.tgt {
        Some(t) => t,
        None => s.end_vi->0,
    }
}

/// A step follows hop `i` of path `j`.
#[verifier::opaque]
pub open spec fn hop_traced(
    vars: Seq<Seq<char>>,
    known: Map<Seq<char>, Seq<Seq<char>>>,
    hops: Seq<StepHop>,
    ps: Seq<PathV>,
    j: int,
    i: int,
) -> bool {
    let k = offset(ps, j) + i;
    let s = hops[k];
    let rel = ps[j].hops[i].0;
    let node = ps[j].hops[i].1;
    &&& 0 <= k < hops.len()
    &&& s.dir == query::dir_of(rel.dir)
    &&& s.types == rel.types
    &&& s.labels == node.labels
    &&& s.varlen is None
    &&& s.inline.len() == 0
    &&& !s.fold
    &&& s.track == (ps[j].hops.len() > 1)
    &&& s.reset == (j > 0 && i == 0)
    &&& s.tgt is None ==> s.end_vi is Some
    &&& denotes(vars, s.src, node_at(ps[j], i))
    &&& denotes(vars, led(s), node)
    &&& node.var is None ==> s.tgt is None
    &&& i > 0 ==> s.src == led(hops[k - 1])
    &&& i == 0 && ps[j].start.var is None ==> j == 0 && s.src == 0
    &&& node.var matches Some(x) ==> labels::all_known(known, x, node.labels)
    &&& i == 0 && ps[j].start.var is Some ==> labels::all_known(
        known,
        ps[j].start.var->0,
        ps[j].start.labels,
    )
    &&& s.tgt is None ==> known.contains_key(vars[led(s)]) && known[vars[led(s)]] == node.labels
}

/// A step binds a variable.
pub open spec fn bound_by(hops: Seq<StepHop>, v: int) -> bool {
    exists|k: int|
        0 <= k < hops.len() && (#[trigger] hops[k]).tgt is None && hops[k].end_vi == Some(v)
}

/// What holds once the first `n` paths and `m` hops of the next are read.
pub open spec fn traced(st: HopsV, ps: Seq<PathV>, n: int, m: int) -> bool {
    &&& st.vars.no_duplicates()
    &&& st.hops.len() == offset(ps, n) + m
    &&& forall|j: int, i: int|
        0 <= j < n && 0 <= i < ps[j].hops.len() ==> #[trigger] hop_traced(
            st.vars,
            st.labels,
            st.hops,
            ps,
            j,
            i,
        )
    &&& forall|i: int|
        0 <= i < m ==> #[trigger] hop_traced(st.vars, st.labels, st.hops, ps, n, i)
    &&& forall|j: int| 0 < j < n ==> (#[trigger] ps[j]).hops.len() > 0
    &&& forall|v: int|
        0 < v < st.vars.len() ==> rel_named(ps, #[trigger] st.vars[v]) || bound_by(st.hops, v)
    &&& forall|x: Seq<char>| #[trigger] st.labels.contains_key(x) ==> st.vars.contains(x)
    &&& n + m > 0 || st.vars.len() > 0 ==> denotes(st.vars, 0, ps[0].start) && st.labels.contains_key(
        st.vars[0],
    ) && st.labels[st.vars[0]] == ps[0].start.labels && st.a_labels == ps[0].start.labels
}

/// Where the next hop of path `n` leads from.
spec fn stands_at(st: HopsV, src: int, ps: Seq<PathV>, n: int, m: int) -> bool {
    m < ps[n].hops.len() ==> {
        &&& denotes(st.vars, src, node_at(ps[n], m))
        &&& m > 0 ==> src == led(st.hops.last())
        &&& m == 0 && ps[n].start.var is None ==> n == 0 && src == 0
        &&& m == 0 && ps[n].start.var is Some ==> labels::all_known(
            st.labels,
            ps[n].start.var->0,
            ps[n].start.labels,
        )
    }
}

proof fn lemma_free(vars: Seq<Seq<char>>, n: nat)
    ensures
        free_anon(vars, n) matches Some(k) ==> !vars.contains(anon_name(k)),
    decreases u64::MAX - n,
{
    if n < u64::MAX && vars.contains(anon_name(n)) {
        lemma_free(vars, n + 1);
    }
}

/// Names and labels that are known stay known.
spec fn extends(a: HopsV, b: HopsV) -> bool {
    &&& a.vars.len() <= b.vars.len()
    &&& forall|v: int| 0 <= v < a.vars.len() ==> #[trigger] b.vars[v] == a.vars[v]
    &&& a.hops.len() <= b.hops.len()
    &&& forall|k: int| 0 <= k < a.hops.len() ==> #[trigger] b.hops[k] == a.hops[k]
    &&& forall|x: Seq<char>| #[trigger]
        a.labels.contains_key(x) ==> b.labels.contains_key(x) && b.labels[x] == a.labels[x]
}

proof fn lemma_known(a: HopsV, b: HopsV, x: Seq<char>, ls: Seq<Seq<char>>)
    requires
        extends(a, b),
        labels::all_known(a.labels, x, ls),
    ensures
        labels::all_known(b.labels, x, ls),
{
    assert forall|i: int| 0 <= i < ls.len() implies labels::known(b.labels, x).contains(
        #[trigger] ls[i],
    ) by {
        assert(labels::known(a.labels, x).contains(ls[i]));
        assert(a.labels.contains_key(x) ==> b.labels[x] == a.labels[x]);
    }
}

proof fn lemma_stays(a: HopsV, b: HopsV, ps: Seq<PathV>, j: int, i: int)
    requires
        extends(a, b),
        hop_traced(a.vars, a.labels, a.hops, ps, j, i),
        0 <= i < ps[j].hops.len(),
    ensures
        hop_traced(b.vars, b.labels, b.hops, ps, j, i),
{
    reveal(hop_traced);
    let k = offset(ps, j) + i;
    assert(b.hops[k] == a.hops[k]);
    if i > 0 {
        assert(b.hops[k - 1] == a.hops[k - 1]);
    }
    let s = a.hops[k];
    assert(b.vars[s.src] == a.vars[s.src]);
    assert(b.vars[led(s)] == a.vars[led(s)]);
    let node = ps[j].hops[i].1;
    if node.var is Some {
        lemma_known(a, b, node.var->0, node.labels);
    }
    if i == 0 && ps[j].start.var is Some {
        lemma_known(a, b, ps[j].start.var->0, ps[j].start.labels);
    }
}

proof fn lemma_hop(st: HopsV, src: int, ps: Seq<PathV>, n: int, m: int, paths: usize, allow: Allow)
    requires
        plainly_named(ps),
        0 <= n < ps.len() <= usize::MAX,
        0 <= m < ps[n].hops.len() <= usize::MAX,
        walkable(ps[n]),
        traced(st, ps, n, m),
        stands_at(st, src, ps, n, m),
    ensures
        add_hop(
            st,
            Place { paths, path: n as usize, hops: ps[n].hops.len() as usize, hop: m as usize },
            src,
            ps[n].hops[m].0,
            ps[n].hops[m].1,
            allow,
        ) matches Some((st1, s)) ==> traced(st1, ps, n, m + 1) && stands_at(st1, s, ps, n, m + 1)
            && st1.vars.len() >= st.vars.len(),
{
    let at = Place { paths, path: n as usize, hops: ps[n].hops.len() as usize, hop: m as usize };
    let rel = ps[n].hops[m].0;
    let node = ps[n].hops[m].1;
    match add_hop(st, at, src, rel, node, allow) {
        Some((st1, s)) => {
            let (named, x) = node_name(st, node.var)->0;
            names::lemma_position(st.vars, x);
            lemma_free(st.vars, st.anon);
            assert(node_at(ps[n], m + 1) == node);
            assert(named.vars == st.vars);
            let h = st1.hops.last();
            assert(st1.hops == st.hops.push(h));
            assert(h.var == x);
            if node.var is Some {
                assert(own_name(x) && !rel_named(ps, x));
            } else {
                assert(h.tgt is None);
            }
            if rel.var is Some {
                assert(rel_named(ps, rel.var->0)) by {
                    assert(ps[n].hops[m].0.var == Some(rel.var->0));
                }
                assert(own_name(rel.var->0));
                assert(rel.var->0 != x);
            }
            assert(extends(st, st1)) by {
                assert forall|y: Seq<char>| #[trigger] st.labels.contains_key(y) implies st1.labels.contains_key(
                    y,
                ) && st1.labels[y] == st.labels[y] by {
                    assert(st.vars.contains(y));
                }
            }
            assert(st1.vars.no_duplicates());
            assert forall|j: int, i: int|
                0 <= j < n && 0 <= i < ps[j].hops.len() implies #[trigger] hop_traced(
                st1.vars,
                st1.labels,
                st1.hops,
                ps,
                j,
                i,
            ) by {
                assert(hop_traced(st.vars, st.labels, st.hops, ps, j, i));
                lemma_stays(st, st1, ps, j, i);
            }
            assert forall|i: int| 0 <= i < m + 1 implies #[trigger] hop_traced(
                st1.vars,
                st1.labels,
                st1.hops,
                ps,
                n,
                i,
            ) by {
                if i < m {
                    assert(hop_traced(st.vars, st.labels, st.hops, ps, n, i));
                    lemma_stays(st, st1, ps, n, i);
                } else {
                    reveal(hop_traced);
                    let k = offset(ps, n) + m;
                    assert(st1.hops[k] == h);
                    if m > 0 {
                        assert(st1.hops[k - 1] == st.hops.last());
                    }
                    assert(st1.vars[src] == st.vars[src]);
                    if h.tgt is None {
                        assert(st1.vars[led(h)] == x);
                        assert(st1.labels.contains_key(x) && st1.labels[x] == node.labels);
                        assert(labels::all_known(st1.labels, x, node.labels)) by {
                            assert forall|l: int| 0 <= l < node.labels.len() implies labels::known(
                                st1.labels,
                                x,
                            ).contains(#[trigger] node.labels[l]) by {}
                        }
                    } else {
                        assert(st.vars[h.tgt->0] == x);
                        lemma_known(st, st1, x, node.labels);
                    }
                    if m == 0 && ps[n].start.var is Some {
                        lemma_known(st, st1, ps[n].start.var->0, ps[n].start.labels);
                    }
                    assert(denotes(st1.vars, led(h), node)) by {
                        if node.var is None {
                            let c = free_anon(st.vars, st.anon)->0;
                            assert(x == anon_name(c));
                        }
                    }
                }
            }
            assert forall|y: Seq<char>| #[trigger] st1.labels.contains_key(y) implies st1.vars.contains(
                y,
            ) by {
                if st.labels.contains_key(y) {
                    assert(st.vars.contains(y));
                    let v = choose|v: int| 0 <= v < st.vars.len() && st.vars[v] == y;
                    assert(st1.vars[v] == y);
                } else {
                    assert(st1.vars[st.vars.len() as int] == x);
                }
            }
            assert(st1.vars[0] == st.vars[0]);
            let w = st.vars.len() as int;
            assert forall|v: int| 0 < v < st1.vars.len() implies rel_named(
                ps,
                #[trigger] st1.vars[v],
            ) || bound_by(st1.hops, v) by {
                if v < w {
                    assert(st1.vars[v] == st.vars[v]);
                    if bound_by(st.hops, v) {
                        let k = choose|k: int|
                            0 <= k < st.hops.len() && (#[trigger] st.hops[k]).tgt is None
                                && st.hops[k].end_vi == Some(v);
                        assert(st1.hops[k] == st.hops[k]);
                    }
                } else if v == w && h.tgt is None {
                    assert(st1.hops[st.hops.len() as int] == h);
                }
            }
        },
        None => {},
    }
}

proof fn lemma_hops(
    st: HopsV,
    src: int,
    ps: Seq<PathV>,
    n: int,
    m: nat,
    paths: usize,
    allow: Allow,
)
    requires
        plainly_named(ps),
        0 <= n < ps.len() <= usize::MAX,
        m <= ps[n].hops.len() <= usize::MAX,
        walkable(ps[n]),
        traced(st, ps, n, 0),
        st.vars.len() > 0,
        stands_at(st, src, ps, n, 0),
    ensures
        walk_hops(st, src, ps[n], paths, n as usize, m, allow) matches Some((st1, s)) ==> traced(
            st1,
            ps,
            n,
            m as int,
        ) && stands_at(st1, s, ps, n, m as int) && st1.vars.len() > 0,
    decreases m,
{
    if m > 0 {
        lemma_hops(st, src, ps, n, (m - 1) as nat, paths, allow);
        match walk_hops(st, src, ps[n], paths, n as usize, (m - 1) as nat, allow) {
            Some((mid, s)) => {
                lemma_hop(mid, s, ps, n, m - 1, paths, allow);
            },
            None => {},
        }
    }
}

/// Reading the start of the first path.
proof fn lemma_enter_first(ps: Seq<PathV>, allow: Allow)
    requires
        ps.len() > 0,
    ensures
        enter_path(
            chain::before(Seq::empty(), Seq::empty(), Map::empty()),
            ps[0],
            true,
            allow,
        ) matches Some((mid, to)) ==> traced(mid, ps, 0, 0) && mid.vars.len() > 0 && match to {
            Some(src) => ps[0].hops.len() > 0 && stands_at(mid, src, ps, 0, 0),
            None => ps[0].hops.len() == 0,
        },
{
    let st = chain::before(Seq::empty(), Seq::empty(), Map::empty());
    match enter_path(st, ps[0], true, allow) {
        Some((mid, to)) => {
            let (_, x) = node_name(st, ps[0].start.var)->0;
            let ls = ps[0].start.labels;
            assert(mid.vars =~= seq![x]);
            assert(mid.vars[0] == x);
            if ps[0].start.var is None {
                let c = free_anon(st.vars, st.anon)->0;
                assert(x == anon_name(c));
            }
            assert(mid.labels.contains_key(x) && mid.labels[x] == ls);
            assert(labels::all_known(mid.labels, x, ls)) by {
                assert forall|l: int| 0 <= l < ls.len() implies labels::known(mid.labels, x).contains(
                    #[trigger] ls[l],
                ) by {}
            }
            assert(mid.hops.len() == 0);
        },
        None => {},
    }
}

/// Reading the start of a later path.
proof fn lemma_enter_next(st: HopsV, ps: Seq<PathV>, n: int, allow: Allow)
    requires
        0 < n < ps.len(),
        traced(st, ps, n, 0),
        walkable(ps[n]),
    ensures
        enter_path(st, ps[n], false, allow) matches Some((mid, to)) ==> mid == st && ps[n].hops.len()
            > 0 && match to {
            Some(src) => stands_at(mid, src, ps, n, 0),
            None => false,
        },
{
    match enter_path(st, ps[n], false, allow) {
        Some((mid, to)) => {
            let (_, x) = node_name(st, ps[n].start.var)->0;
            names::lemma_position(st.vars, x);
        },
        None => {},
    }
}

/// A path that is read to its end is read.
proof fn lemma_done(st: HopsV, ps: Seq<PathV>, n: int)
    requires
        0 <= n < ps.len(),
        n > 0 ==> ps[n].hops.len() > 0,
        st.vars.len() > 0,
        traced(st, ps, n, ps[n].hops.len() as int),
    ensures
        traced(st, ps, n + 1, 0),
{
    assert forall|j: int, i: int|
        0 <= j < n + 1 && 0 <= i < ps[j].hops.len() implies #[trigger] hop_traced(
        st.vars,
        st.labels,
        st.hops,
        ps,
        j,
        i,
    ) by {}
}

proof fn lemma_path(st: HopsV, ps: Seq<PathV>, n: int, paths: usize, allow: Allow)
    requires
        plainly_named(ps),
        0 <= n < ps.len() <= usize::MAX,
        ps[n].hops.len() <= usize::MAX,
        walkable(ps[n]),
        n == 0 ==> st == chain::before(Seq::empty(), Seq::empty(), Map::empty()),
        n > 0 ==> traced(st, ps, n, 0) && st.vars.len() > 0,
    ensures
        walk_path(st, ps[n], paths, n as usize, n == 0, allow) matches Some(st1) ==> traced(
            st1,
            ps,
            n + 1,
            0,
        ),
{
    if n == 0 {
        lemma_enter_first(ps, allow);
    } else {
        lemma_enter_next(st, ps, n, allow);
    }
    match enter_path(st, ps[n], n == 0, allow) {
        Some((mid, Some(src))) => {
            lemma_hops(mid, src, ps, n, ps[n].hops.len(), paths, allow);
            match walk_hops(mid, src, ps[n], paths, n as usize, ps[n].hops.len(), allow) {
                Some((st1, _)) => {
                    lemma_done(st1, ps, n);
                },
                None => {},
            }
        },
        Some((mid, None)) => {
            lemma_done(mid, ps, n);
        },
        None => {},
    }
}

proof fn lemma_paths(pattern: PatternV, n: nat, allow: Allow)
    requires
        plainly_named(pattern.paths),
        pattern_fits(pattern),
        forall|i: int| 0 <= i < pattern.paths.len() ==> walkable(#[trigger] pattern.paths[i]),
        n <= pattern.paths.len(),
    ensures
        walk_paths(
            chain::before(Seq::empty(), Seq::empty(), Map::empty()),
            pattern,
            true,
            n,
            allow,
        ) matches Some(st1) ==> if n == 0 {
            st1 == chain::before(Seq::empty(), Seq::empty(), Map::empty())
        } else {
            traced(st1, pattern.paths, n as int, 0)
        },
    decreases n,
{
    let st = chain::before(Seq::empty(), Seq::empty(), Map::empty());
    if n > 0 {
        lemma_paths(pattern, (n - 1) as nat, allow);
        match walk_paths(st, pattern, true, (n - 1) as nat, allow) {
            Some(mid) => {
                lemma_path(mid, pattern.paths, n - 1, pattern.paths.len() as usize, allow);
            },
            None => {},
        }
    }
}

/// The steps of a pattern follow its paths: each hop is one step, in order, from
/// and to the variables of its nodes, and a variable keeps the labels that it
/// was first written with.
pub proof fn law_steps_follow_paths(pattern: PatternV, allow: Allow)
    requires
        plainly_named(pattern.paths),
        pattern_fits(pattern),
        forall|i: int| 0 <= i < pattern.paths.len() ==> walkable(#[trigger] pattern.paths[i]),
    ensures
        chain::scan_hops(pattern, allow) matches Some(h) ==> traced(
            h,
            pattern.paths,
            pattern.paths.len() as int,
            0,
        ),
{
    if pattern.paths.len() > 0 {
        lemma_paths(pattern, pattern.paths.len(), allow);
    }
}

} // verus!
