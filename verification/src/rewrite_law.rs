//! Rewrites keep what a query says: the parts of a split match make up the match, a path
//! from its other end is the same path, and a renamed variable can be named back.

use vstd::prelude::*;

use crate::ast;
use crate::ast::{ExprV, HeadV, Op};
use crate::cond_law::{has_link, names_link};
use crate::fuse::subst;
use crate::graph;
use crate::graph::{Adj, Graph};
use crate::link_law;
use crate::multistage::{as_match, as_with};
use crate::preds;
use crate::query::{ClauseV, NodeV, PathV, ProjV, RelDir, RelV};
use crate::read_back_law::joined;
use crate::reroot::{flip, node_at, reversed, selective_query};
use crate::rewrite::{clause_names, first_pair, opt_reads, opt_subst, path_names, rename_clause, rename_map, rename_node, rename_path, rename_pattern, rename_proj, rename_rel, renamed_pair, renames, unwound_as_itself};
use crate::seqs;
use crate::split::{first_split, split_match, split_query, turned};

verus! {

/// The conjuncts that two conditions share out.
proof fn lemma_and_all(more: Seq<ExprV>, c: ExprV)
    requires
        forall|i: int|
            0 <= i < more.len() ==> ast::conjuncts(#[trigger] more[i]) == seq![more[i]],
    ensures
        joined(preds::and_all(None, more)).contains(c) <==> more.contains(c),
    decreases more.len(),
{
    if more.len() > 0 {
        let p = more.drop_last();
        let x = more.last();
        assert forall|i: int| 0 <= i < p.len() implies ast::conjuncts(#[trigger] p[i]) == seq![p[i]] by {
            assert(p[i] == more[i]);
        }
        lemma_and_all(p, c);
        assert(more =~= p.push(x));
        seqs::lemma_push_contains(p, x, c);
        assert(ast::conjuncts(more[more.len() - 1]) == seq![x]);
        assert(seq![x].contains(c) <==> c == x) by {
            assert(seq![x][0] == x);
        }
        match preds::and_all(None, p) {
            Some(e) => {
                let both = ast::bin_v(Op::And, e, x);
                assert(both.args[0] == e && both.args[1] == x);
                assert(ast::conjuncts(both) == ast::conjuncts(e) + ast::conjuncts(x));
                assert(ast::conjuncts(both) =~= ast::conjuncts(e).push(x));
                seqs::lemma_push_contains(ast::conjuncts(e), x, c);
            },
            None => {},
        }
    }
}

/// A conjunct is its own only conjunct.
proof fn lemma_conjunct(w: ExprV, i: int)
    requires
        0 <= i < ast::conjuncts(w).len(),
    ensures
        ast::conjuncts(ast::conjuncts(w)[i]) == seq![ast::conjuncts(w)[i]],
    decreases w,
{
    if ast::is_op(w, Op::And, 2) {
        let a = ast::conjuncts(w.args[0]);
        if i < a.len() {
            lemma_conjunct(w.args[0], i);
        } else {
            lemma_conjunct(w.args[1], i - a.len());
        }
    }
}

/// The variables of the first part of a path: its start and the end of its first hop.
pub open spec fn in_first(p: PathV, x: Seq<char>) -> bool {
    p.start.var == Some(x) || p.hops[0].1.var == Some(x)
}

/// The variables of the second part of a path: the ends of its hops.
pub open spec fn in_second(p: PathV, x: Seq<char>) -> bool {
    exists|i: int| 0 <= i < p.hops.len() && (#[trigger] p.hops[i]).1.var == Some(x)
}

/// What a split match is split into. The first match takes the first hop and the second
/// the others, from where the first ends; between them each end is kept once. Each
/// conjunct of the condition is asked by one of the two matches, of the variables that
/// it binds, and neither asks for anything else.
pub open spec fn split_parts(m: ClauseV, cs: Seq<ClauseV>) -> bool {
    &&& cs.len() == 3
    &&& m matches ClauseV::Match { optional: false, pattern, where_ } && pattern.paths.len() == 1 && {
        let p = pattern.paths[0];
        &&& p.hops.len() >= 2 && p.hops[0].1.var is Some
        &&& cs[0] matches ClauseV::Match { optional: false, pattern: pa, where_: wa }
            && cs[2] matches ClauseV::Match { optional: false, pattern: pb, where_: wb } && {
            &&& pa.paths.len() == 1 && pb.paths.len() == 1
            &&& pa.paths[0].start == p.start && pa.paths[0].hops == seq![p.hops[0]]
            &&& pb.paths[0].hops == p.hops.skip(1)
            &&& pb.paths[0].start.var == p.hops[0].1.var && pb.paths[0].start.labels.len() == 0
                && pb.paths[0].start.props is None
            &&& pa.paths[0].var is None && pb.paths[0].var is None && !pa.paths[0].shortest
                && !pb.paths[0].shortest && p.var is None && !p.shortest
            &&& forall|c: ExprV| #[trigger]
                joined(where_).contains(c) <==> joined(wa).contains(c) || joined(wb).contains(c)
            &&& forall|c: ExprV, x: Seq<char>|
                joined(wa).contains(c) && #[trigger] ast::reads(c, x) ==> in_first(p, x)
            &&& forall|c: ExprV, x: Seq<char>|
                joined(wb).contains(c) && #[trigger] ast::reads(c, x) ==> in_second(p, x)
        }
        &&& cs[1] matches ClauseV::With { proj, where_: None } && proj.distinct && !proj.star
            && proj.order.len() == 0 && proj.skip is None && proj.limit is None && proj.items.len()
            == 1 && proj.items[0].expr.head == HeadV::Var(p.hops[0].1.var->0) && proj.items[0].alias is None
    }
}

/// A match is split into parts that make it up, where the projection after it only keeps
/// distinct ends of the second part.
pub proof fn law_split_parts_make_the_match(m: ClauseV, w: ClauseV)
    requires
        split_match(m, w) is Some,
    ensures
        split_parts(m, split_match(m, w)->0),
        w matches ClauseV::With { proj, where_: None } && proj.distinct && !proj.star
            && proj.order.len() == 0 && proj.skip is None && forall|i: int|
            0 <= i < proj.items.len() ==> ((#[trigger] proj.items[i]).expr.head matches HeadV::Var(x)
                && in_second((as_match(m)->0).0.paths[0], x) && (proj.items[i].alias is None
                || proj.items[i].alias == Some(x))),
{
    let cs = split_match(m, w)->0;
    let (pattern, where_) = as_match(m)->0;
    let (proj, _) = as_with(w)->0;
    let p = pattern.paths[0];
    assert((as_match(m)->0).0.paths[0] == p);
    let b = crate::split::varlen_end(p)->0;
    assert(p.hops[0].1.var == Some(b));
    let xs = crate::split::first_vars(p, b);
    let ys = crate::split::second_vars(p, b);
    let all = crate::split::opt_conjuncts(where_);
    let f = |c: ExprV| ast::reads_only(c, xs);
    let g = |c: ExprV| !ast::reads_only(c, xs);
    let fa = all.filter(f);
    let ga = all.filter(g);
    assert forall|i: int| 0 <= i < all.len() implies ast::conjuncts(#[trigger] all[i]) == seq![all[i]] by {
        lemma_conjunct(where_->0, i);
    }
    lemma_each_own(all, f);
    lemma_each_own(all, g);
    let wa = preds::and_all(None, fa);
    let wb = preds::and_all(None, ga);
    assert(joined(where_) == all);
    assert forall|c: ExprV| #[trigger] joined(where_).contains(c) <==> joined(wa).contains(c)
        || joined(wb).contains(c) by {
        lemma_and_all(fa, c);
        lemma_and_all(ga, c);
        seqs::lemma_filter_contains(all, f, c);
        seqs::lemma_filter_contains(all, g, c);
    }
    assert forall|x: Seq<char>| xs.contains(x) implies in_first(p, x) by {
        let i = choose|i: int| 0 <= i < xs.len() && xs[i] == x;
    }
    assert forall|x: Seq<char>| ys.contains(x) implies in_second(p, x) by {
        lemma_second(p, b, x);
    }
    assert forall|c: ExprV, x: Seq<char>|
        joined(wa).contains(c) && #[trigger] ast::reads(c, x) implies in_first(p, x) by {
        lemma_and_all(fa, c);
        seqs::lemma_filter_contains(all, f, c);
        assert(xs.contains(x));
    }
    assert forall|c: ExprV, x: Seq<char>|
        joined(wb).contains(c) && #[trigger] ast::reads(c, x) implies in_second(p, x) by {
        lemma_and_all(ga, c);
        seqs::lemma_filter_contains(all, g, c);
        let i = choose|i: int| 0 <= i < all.len() && all[i] == c;
        assert(ast::reads_only(all[i], xs) || ast::reads_only(all[i], ys));
        assert(ys.contains(x));
    }
    assert(p.hops.take(1) =~= seq![p.hops[0]]);
    assert forall|i: int| 0 <= i < proj.items.len() implies ((
    #[trigger] proj.items[i]).expr.head matches HeadV::Var(x) && in_second(p, x) && (
    proj.items[i].alias is None || proj.items[i].alias == Some(x))) by {
        assert(crate::split::hands_on(proj.items[i]) is Some);
        let x = crate::split::hands_on(proj.items[i])->0;
        assert(ys.contains(x));
    }
}

proof fn lemma_each_own(all: Seq<ExprV>, f: spec_fn(ExprV) -> bool)
    requires
        forall|i: int| 0 <= i < all.len() ==> ast::conjuncts(#[trigger] all[i]) == seq![all[i]],
    ensures
        forall|i: int|
            0 <= i < all.filter(f).len() ==> ast::conjuncts(#[trigger] all.filter(f)[i])
                == seq![all.filter(f)[i]],
{
    let s = all.filter(f);
    assert forall|i: int| 0 <= i < s.len() implies ast::conjuncts(#[trigger] s[i]) == seq![s[i]] by {
        assert(s.contains(s[i]));
        seqs::lemma_filter_contains(all, f, s[i]);
        let k = choose|k: int| 0 <= k < all.len() && all[k] == s[i];
        assert(ast::conjuncts(all[k]) == seq![all[k]]);
    }
}

proof fn lemma_second(p: PathV, b: Seq<char>, x: Seq<char>)
    requires
        p.hops.len() >= 2,
        p.hops[0].1.var == Some(b),
        crate::split::second_vars(p, b).contains(x),
    ensures
        in_second(p, x),
{
    let ys = crate::split::second_vars(p, b);
    let hs = p.hops.skip(1);
    let ends = crate::split::end_vars(hs);
    let i = choose|i: int| 0 <= i < ys.len() && ys[i] == x;
    if i == 0 {
        assert(p.hops[0].1.var == Some(x));
    } else {
        let keep = |h: (RelV, NodeV)| h.1.var is Some;
        let kept = hs.filter(keep);
        assert(ends[i - 1] == x);
        let h = kept[i - 1];
        assert(kept.contains(h));
        seqs::lemma_filter_contains(hs, keep, h);
        let k = choose|k: int| 0 <= k < hs.len() && hs[k] == h;
        assert(p.hops[k + 1] == h);
    }
}

/// Whether the parts of a match stand in its place, and every other clause stays.
pub open spec fn split_at(q: Seq<ClauseV>, out: Seq<ClauseV>, i: int) -> bool {
    &&& 0 <= i && i + 1 < q.len()
    &&& out.len() == q.len() + 2
    &&& split_parts(q[i], out.subrange(i, i + 3))
    &&& forall|k: int| 0 <= k < i ==> #[trigger] out[k] == q[k]
    &&& forall|k: int| i < k < q.len() ==> out[k + 2] == #[trigger] q[k]
}

/// The parts of a split match stand in its place, and every other clause stays.
pub proof fn law_split_stands_in_place(q: Seq<ClauseV>)
    requires
        split_query(q) is Some,
    ensures
        exists|i: int| #[trigger] split_at(q, split_query(q)->0, i),
{
    let i = first_split(q, 0)->0;
    lemma_first_split(q, 0);
    let out = split_query(q)->0;
    let cs = split_match(q[i], q[i + 1])->0;
    law_split_parts_make_the_match(q[i], q[i + 1]);
    assert(out.subrange(i, i + 3) =~= cs);
    assert forall|k: int| i < k < q.len() implies out[k + 2] == #[trigger] q[k] by {}
    assert(split_at(q, out, i));
}

proof fn lemma_first_split(q: Seq<ClauseV>, from: int)
    requires
        from >= 0,
        first_split(q, from) is Some,
    ensures
        from <= first_split(q, from)->0,
        first_split(q, from)->0 + 1 < q.len(),
        split_match(q[first_split(q, from)->0], q[first_split(q, from)->0 + 1]) is Some,
    decreases q.len() - from,
{
    if from + 1 < q.len() && split_match(q[from], q[from + 1]) is None {
        lemma_first_split(q, from + 1);
    }
}

/// A list holds an entry that leads back.
proof fn lemma_links_back(g: Graph, a: u64, b: u64, types: Seq<Seq<char>>)
    requires
        g.wf(),
    ensures
        (a < g.out@.len() && names_link(g, g.out@[a as int]@, b, types)) <==> (b < g.into@.len()
            && names_link(g, g.into@[b as int]@, a, types)),
{
    let o = graph::row_of(g.out@, a);
    let n = graph::row_of(g.into@, b);
    assert(graph::strip(o, b) == graph::strip(n, a));
    if names_link(g, o, b, types) {
        let i = choose|i: int|
            0 <= i < o.len() && (#[trigger] o[i]).peer == b && (types.len() == 0 || types.contains(
                g.types@[o[i].typ as int]@,
            ));
        let e = o[i];
        assert(e == Adj { peer: b, rel: e.rel, typ: e.typ });
        assert(o.contains(e));
        link_law::lemma_strip(o, b, e.rel, e.typ);
        link_law::lemma_strip(n, a, e.rel, e.typ);
        let f = Adj { peer: a, rel: e.rel, typ: e.typ };
        let k = choose|k: int| 0 <= k < n.len() && n[k] == f;
        assert(n[k].peer == a);
    }
    if names_link(g, n, a, types) {
        let i = choose|i: int|
            0 <= i < n.len() && (#[trigger] n[i]).peer == a && (types.len() == 0 || types.contains(
                g.types@[n[i].typ as int]@,
            ));
        let e = n[i];
        assert(e == Adj { peer: a, rel: e.rel, typ: e.typ });
        assert(n.contains(e));
        link_law::lemma_strip(n, a, e.rel, e.typ);
        link_law::lemma_strip(o, b, e.rel, e.typ);
        let f = Adj { peer: b, rel: e.rel, typ: e.typ };
        let k = choose|k: int| 0 <= k < o.len() && o[k] == f;
        assert(o[k].peer == b);
    }
}

/// A relationship that is written from its other end is the same relationship.
pub proof fn law_flipped_link_is_same(g: Graph, a: u64, b: u64, d: RelDir, types: Seq<Seq<char>>)
    requires
        g.wf(),
    ensures
        has_link(g, a, b, d, types) <==> has_link(g, b, a, flip(d), types),
{
    lemma_links_back(g, a, b, types);
    lemma_links_back(g, b, a, types);
}

/// Whether nodes lie along a path, one for each of its nodes: each carries the labels of
/// its node and passes its properties, and each is linked to the next as the hop between
/// them is written.
pub open spec fn along(
    g: Graph,
    p: PathV,
    nodes: Seq<u64>,
    passes: spec_fn(Option<ExprV>, u64) -> bool,
) -> bool {
    &&& nodes.len() == p.hops.len() + 1
    &&& forall|i: int|
        0 <= i <= p.hops.len() ==> {
            let n = if i == 0 {
                p.start
            } else {
                p.hops[i - 1].1
            };
            g.labelled_all((#[trigger] nodes[i]) as int, n.labels) && passes(n.props, nodes[i])
        }
    &&& forall|i: int|
        0 <= i < p.hops.len() ==> has_link(
            g,
            nodes[i],
            nodes[i + 1],
            (#[trigger] p.hops[i]).0.dir,
            p.hops[i].0.types,
        )
}

/// A path from its other end lies along the same nodes, the other way.
pub proof fn law_reversed_path_is_same(
    g: Graph,
    p: PathV,
    nodes: Seq<u64>,
    passes: spec_fn(Option<ExprV>, u64) -> bool,
)
    requires
        g.wf(),
        along(g, p, nodes, passes),
    ensures
        along(g, reversed(p), nodes.reverse(), passes),
        forall|i: int|
            0 <= i < p.hops.len() ==> (#[trigger] reversed(p).hops[i]).0.var == p.hops[p.hops.len()
                - 1 - i].0.var && reversed(p).hops[i].0.props == p.hops[p.hops.len() - 1
                - i].0.props && reversed(p).hops[i].0.length == p.hops[p.hops.len() - 1
                - i].0.length,
        reversed(p).start.var == node_at(p, p.hops.len() as int).var,
        forall|i: int|
            0 <= i < p.hops.len() ==> (#[trigger] reversed(p).hops[i]).1.var == node_at(
                p,
                p.hops.len() - 1 - i,
            ).var,
{
    let r = reversed(p);
    let k = p.hops.len() as int;
    let back = nodes.reverse();
    assert forall|i: int| 0 <= i <= k implies {
        let n = if i == 0 {
            r.start
        } else {
            r.hops[i - 1].1
        };
        g.labelled_all((#[trigger] back[i]) as int, n.labels) && passes(n.props, back[i])
    } by {
        assert(back[i] == nodes[k - i]);
        assert(node_at(r, i) == node_at(p, k - i));
    }
    assert forall|i: int| 0 <= i < k implies has_link(
        g,
        back[i],
        back[i + 1],
        (#[trigger] r.hops[i]).0.dir,
        r.hops[i].0.types,
    ) by {
        let j = k - 1 - i;
        assert(back[i] == nodes[j + 1] && back[i + 1] == nodes[j]);
        let h = p.hops[j].0;
        assert(has_link(g, nodes[j], nodes[j + 1], p.hops[j].0.dir, p.hops[j].0.types));
        law_flipped_link_is_same(g, nodes[j], nodes[j + 1], h.dir, h.types);
    }
}

/// Walking the first match of a query from its other end changes its one path alone: the
/// path is the reversed one, and everything else stays.
pub proof fn law_rerooted_query_is_same(g: Graph, q: Seq<ClauseV>)
    requires
        selective_query(g, q) is Some,
    ensures
        ({
            let out = selective_query(g, q)->0;
            &&& out.len() == q.len()
            &&& forall|i: int| 0 < i < q.len() ==> #[trigger] out[i] == q[i]
            &&& q[0] matches ClauseV::Match { optional: false, pattern, where_ }
                && out[0] matches ClauseV::Match { optional: false, pattern: turned, where_: w }
                && pattern.paths.len() == 1 && turned.paths.len() == 1 && w == where_
                && turned.paths[0] == reversed(pattern.paths[0]) && pattern.paths[0].var is None
                && !pattern.paths[0].shortest
        }),
{
}

/// An expression with a name replaced by another can be read back.
pub proof fn lemma_subst_back(e: ExprV, f: Seq<char>, x: Seq<char>)
    requires
        !ast::reads(e, x),
        plain_vars(e),
    ensures
        subst(subst(e, rename_map(f, x)), rename_map(x, f)) == e,
    decreases e,
{
    let m = rename_map(f, x);
    let b = rename_map(x, f);
    match e.head {
        HeadV::Var(y) => {
            assert(y != x);
            assert(e.args =~= Seq::empty());
            if y == f {
                assert(subst(e, m) == ast::var_v(x));
                assert(subst(ast::var_v(x), b) == ast::var_v(f));
                assert(e =~= ast::var_v(f));
            }
        },
        HeadV::Pattern(_) => {},
        HeadV::Opaque(_) => {},
        _ => {
            let s = subst(e, m);
            let t = subst(s, b);
            assert forall|i: int| 0 <= i < e.args.len() implies t.args[i] == e.args[i] by {
                assert(!ast::reads(e.args[i], x)) by {
                    if ast::reads(e.args[i], x) {
                        assert(ast::reads(e, x));
                    }
                }
                lemma_subst_back(e.args[i], f, x);
                assert(s.args[i] == subst(e.args[i], m));
                assert(t.args[i] == subst(s.args[i], b));
            }
            assert(t.args =~= e.args);
        },
    }
}

/// Whether the variables of an expression stand alone.
pub open spec fn plain_vars(e: ExprV) -> bool
    decreases e,
{
    (e.head is Var ==> e.args.len() == 0) && forall|i: int|
        0 <= i < e.args.len() ==> plain_vars(#[trigger] e.args[i])
}

pub open spec fn plain_opt(e: Option<ExprV>) -> bool {
    e matches Some(e) ==> plain_vars(e)
}

/// Whether the variables of every expression of a clause stand alone.
pub open spec fn plain_clause(c: ClauseV) -> bool {
    match c {
        ClauseV::Match { pattern, where_, .. } => plain_opt(where_) && forall|j: int|
            0 <= j < pattern.paths.len() ==> plain_path(#[trigger] pattern.paths[j]),
        ClauseV::With { proj, where_ } => plain_opt(where_) && plain_proj(proj),
        ClauseV::Return { proj } => plain_proj(proj),
        ClauseV::Unwind { expr, .. } => plain_vars(expr),
        ClauseV::Other(_) => true,
    }
}

pub open spec fn plain_path(p: PathV) -> bool {
    plain_opt(p.start.props) && forall|i: int|
        0 <= i < p.hops.len() ==> plain_opt((#[trigger] p.hops[i]).0.props) && plain_opt(
            p.hops[i].1.props,
        )
}

pub open spec fn plain_proj(p: ProjV) -> bool {
    &&& forall|i: int| 0 <= i < p.items.len() ==> plain_vars((#[trigger] p.items[i]).expr)
    &&& forall|i: int| 0 <= i < p.order.len() ==> plain_vars((#[trigger] p.order[i]).expr)
    &&& plain_opt(p.skip)
    &&& plain_opt(p.limit)
}

proof fn lemma_opt_back(e: Option<ExprV>, f: Seq<char>, x: Seq<char>)
    requires
        !opt_reads(e, x),
        plain_opt(e),
    ensures
        opt_subst(opt_subst(e, rename_map(f, x)), rename_map(x, f)) == e,
{
    if let Some(e) = e {
        lemma_subst_back(e, f, x);
    }
}

proof fn lemma_path_back(p: PathV, f: Seq<char>, x: Seq<char>)
    requires
        !path_names(p, x),
        plain_path(p),
    ensures
        rename_path(rename_path(p, f, x), x, f) == p,
{
    let s = rename_path(p, f, x);
    let t = rename_path(s, x, f);
    lemma_opt_back(p.start.props, f, x);
    assert(t.start == p.start);
    assert forall|i: int| 0 <= i < p.hops.len() implies t.hops[i] == p.hops[i] by {
        assert(!crate::rewrite::rel_names(p.hops[i].0, x) && !crate::rewrite::node_names(
            p.hops[i].1,
            x,
        ));
        lemma_opt_back(p.hops[i].0.props, f, x);
        lemma_opt_back(p.hops[i].1.props, f, x);
        assert(s.hops[i] == (rename_rel(p.hops[i].0, f, x), rename_node(p.hops[i].1, f, x)));
        assert(t.hops[i] == (rename_rel(s.hops[i].0, x, f), rename_node(s.hops[i].1, x, f)));
    }
    assert(t.hops =~= p.hops);
}

/// Whether no column of a projection, nor the name of one, is a name.
pub open spec fn columns_clear(p: ProjV, x: Seq<char>) -> bool {
    &&& forall|i: int|
        0 <= i < p.items.len() ==> (#[trigger] p.items[i]).alias != Some(x)
            && p.items[i].default_name != x
    &&& !p.distinct_vars.contains(x)
}

proof fn lemma_proj_back(p: ProjV, f: Seq<char>, x: Seq<char>)
    requires
        !crate::rewrite::proj_reads(p, x),
        plain_proj(p),
        columns_clear(p, x),
    ensures
        rename_proj(rename_proj(p, f, x), x, f) == p,
{
    let s = rename_proj(p, f, x);
    let t = rename_proj(s, x, f);
    assert forall|i: int| 0 <= i < p.items.len() implies t.items[i] == p.items[i] by {
        assert(plain_vars(p.items[i].expr));
        lemma_subst_back(p.items[i].expr, f, x);
    }
    assert(t.items =~= p.items);
    assert forall|i: int| 0 <= i < p.order.len() implies t.order[i] == p.order[i] by {
        assert(plain_vars(p.order[i].expr));
        lemma_subst_back(p.order[i].expr, f, x);
    }
    assert(t.order =~= p.order);
    lemma_opt_back(p.skip, f, x);
    lemma_opt_back(p.limit, f, x);
    assert forall|i: int| 0 <= i < p.distinct_vars.len() implies t.distinct_vars[i]
        == p.distinct_vars[i] by {
        assert(p.distinct_vars.contains(p.distinct_vars[i]));
    }
    assert(t.distinct_vars =~= p.distinct_vars);
}

/// Whether a clause neither names nor hands on a name.
pub open spec fn clear_of(c: ClauseV, x: Seq<char>) -> bool {
    &&& !clause_names(c, x)
    &&& c matches ClauseV::With { proj, .. } ==> columns_clear(proj, x)
    &&& c matches ClauseV::Return { proj } ==> columns_clear(proj, x)
}

/// A variable of a clause that is renamed can be named back: nothing of the clause is
/// lost but its name.
pub proof fn law_renamed_clause_is_named_back(c: ClauseV, f: Seq<char>, x: Seq<char>)
    requires
        clear_of(c, x),
        plain_clause(c),
    ensures
        rename_clause(rename_clause(c, f, x), x, f) == c,
{
    match c {
        ClauseV::Match { optional, pattern, where_ } => {
            lemma_opt_back(where_, f, x);
            let s = rename_pattern(pattern, f, x);
            let t = rename_pattern(s, x, f);
            assert forall|j: int| 0 <= j < pattern.paths.len() implies t.paths[j]
                == pattern.paths[j] by {
                assert(!path_names(pattern.paths[j], x));
                lemma_path_back(pattern.paths[j], f, x);
                assert(s.paths[j] == rename_path(pattern.paths[j], f, x));
            }
            assert(t.paths =~= pattern.paths);
        },
        ClauseV::With { proj, where_ } => {
            lemma_opt_back(where_, f, x);
            lemma_proj_back(proj, f, x);
        },
        ClauseV::Return { proj } => {
            lemma_proj_back(proj, f, x);
        },
        ClauseV::Unwind { expr, alias } => {
            lemma_subst_back(expr, f, x);
        },
        ClauseV::Other(_) => {},
    }
}

/// Whether a list is unwound under the name of the variable it was collected from, and
/// the clauses after it follow.
pub open spec fn unwound_at(
    q: Seq<ClauseV>,
    out: Seq<ClauseV>,
    i: int,
    x: Seq<char>,
    f: Seq<char>,
    list: Seq<char>,
) -> bool {
    &&& 0 <= i && i + 1 < q.len() && out.len() == q.len()
    &&& collected_as(q[i], q[i + 1], x, f, list)
    &&& collected_as(out[i], out[i + 1], x, x, list)
    &&& forall|k: int| 0 <= k <= i ==> #[trigger] out[k] == q[k]
    &&& forall|k: int|
        i + 2 <= k < q.len() ==> !clause_names(#[trigger] out[k], f) && (clear_of(q[k], x)
            ==> rename_clause(out[k], x, f) == q[k])
    &&& forall|k: int| i + 2 <= k < q.len() ==> !clause_names(#[trigger] q[k], x)
}

/// A list that is unwound under another name than that of the variable it was collected
/// from is unwound under the variable's own: every clause up to there stays, and in
/// every clause after it the other name is not named any more, and can be named back.
pub proof fn law_renamed_unwind_is_named_back(q: Seq<ClauseV>)
    requires
        unwound_as_itself(q) is Some,
        forall|i: int| 0 <= i < q.len() ==> plain_clause(#[trigger] q[i]),
    ensures
        exists|i: int, x: Seq<char>, f: Seq<char>, list: Seq<char>| #[trigger]
            unwound_at(q, unwound_as_itself(q)->0, i, x, f, list),
{
    let i = first_pair(q, 0)->0;
    lemma_first_pair(q, 0);
    let (x, f) = renamed_pair(q[i], q[i + 1])->0;
    let out = unwound_as_itself(q)->0;
    let tail = q.skip(i + 2);
    let rest = crate::rewrite::rename_clauses(tail, f, x)->0;
    let list = q[i]->With_proj.items[0].alias->0;
    assert(collected_as(q[i], q[i + 1], x, f, list));
    assert(out[i + 1] == ClauseV::Unwind { expr: q[i + 1]->Unwind_expr, alias: x });
    assert(collected_as(out[i], out[i + 1], x, x, list));
    assert forall|k: int| i + 2 <= k < q.len() implies !clause_names(#[trigger] out[k], f) && (
    clear_of(q[k], x) ==> rename_clause(out[k], x, f) == q[k]) by {
        let j = k - i - 2;
        assert(tail[j] == q[k]);
        assert(out[k] == rest[j]);
        assert(rest[j] == rename_clause(tail[j], f, x));
        assert(renames(tail[j], f, x));
        if clear_of(q[k], x) {
            law_renamed_clause_is_named_back(q[k], f, x);
        }
    }
    assert forall|k: int| i + 2 <= k < q.len() implies !clause_names(#[trigger] q[k], x) by {
        assert(tail[k - i - 2] == q[k]);
    }
    assert(unwound_at(q, out, i, x, f, list));
}

/// Whether two clauses collect the distinct values of a variable into a list, and unwind
/// it under a name.
pub open spec fn collected_as(
    a: ClauseV,
    b: ClauseV,
    x: Seq<char>,
    f: Seq<char>,
    list: Seq<char>,
) -> bool {
    match (a, b) {
        (ClauseV::With { proj, where_: None }, ClauseV::Unwind { expr, alias }) => {
            &&& proj.items.len() == 1 && !proj.distinct && !proj.star
            &&& proj.items[0].expr.head matches HeadV::Call(c) && c.name == "collect"@ && c.distinct
                && !c.star
            &&& proj.items[0].expr.args.len() == 1 && proj.items[0].expr.args[0].head == HeadV::Var(
                x,
            )
            &&& proj.items[0].alias == Some(list)
            &&& expr.head == HeadV::Var(list)
            &&& alias == f
        },
        _ => false,
    }
}

proof fn lemma_first_pair(q: Seq<ClauseV>, from: int)
    requires
        from >= 0,
        first_pair(q, from) is Some,
    ensures
        from <= first_pair(q, from)->0,
        first_pair(q, from)->0 + 1 < q.len(),
        renamed_pair(q[first_pair(q, from)->0], q[first_pair(q, from)->0 + 1]) is Some,
    decreases q.len() - from,
{
    if from + 1 < q.len() && renamed_pair(q[from], q[from + 1]) is None {
        lemma_first_pair(q, from + 1);
    }
}

} // verus!
