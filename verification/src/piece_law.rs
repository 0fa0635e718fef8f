//! What the pieces that plans and rewrites are made of say.

use vstd::prelude::*;

use crate::ast;
use crate::ast::{ExprV, HeadV, Op};
use crate::hierarchy::{hierarchy_of, HierarchyV};
use crate::join_plan::order_safe;
use crate::names;
use crate::legs;
use crate::plan;
use crate::plan::{AggV, ArgV, FormV, SingleVar, SiteV};
use crate::precision::{literal, Values};
use crate::prelude;
use crate::prelude::{first_node, fold_all, literal_of, prelude_of, starts_at, BoundV, Scalar, SeedV};
use crate::query;
use crate::query::{ClauseV, ItemV, NodeV, PathV, PatternV};
use crate::readset;
use crate::reduce::ValV;
use crate::reorder::path_nodes;
use crate::select;
use crate::seqs;
use crate::table::first_seen;

verus! {

/// A value that is written down stands for itself wherever it is read.
pub proof fn law_written_value_stands_for_itself(v: Scalar, vs: Values)
    ensures
        match v {
            Scalar::Null => literal_of(v).head is Null,
            Scalar::Bool(b) => literal(literal_of(v), vs) == Some(ValV::Bool(b)),
            Scalar::Int(i) => literal(literal_of(v), vs) == Some(ValV::Int(i)),
            Scalar::Float(bits) => literal_of(v).head == HeadV::Float(bits),
            Scalar::Str(s) => literal(literal_of(v), vs) == Some(ValV::Str(s@)),
        },
        literal_of(v).args.len() == 0,
{
}

/// The query that answers a first part ahead is that part: its match, and a return of
/// what its projection names, under the same names, with the same limit.
pub proof fn law_first_part_is_asked(q: Seq<ClauseV>, r: Seq<ClauseV>)
    requires
        prelude_of(q) == Some(r),
    ensures
        r.len() == 2,
        r[0] == q[0],
        q[0] matches ClauseV::Match { optional: false, .. },
        q[1] matches ClauseV::With { proj, where_: None } && r[1] matches ClauseV::Return { proj: rp }
            && rp.items.len() == proj.items.len() && (forall|i: int|
            0 <= i < proj.items.len() ==> (#[trigger] rp.items[i]).expr == proj.items[i].expr
                && rp.items[i].alias == Some(query::column_of(proj.items[i]))) && rp.limit
            == proj.limit && rp.skip == proj.skip && rp.order == proj.order && rp.distinct
            == proj.distinct && rp.star == proj.star && !proj.star && !proj.distinct
            && proj.order.len() == 0 && proj.skip is None,
{
}

/// Whether a node stands in a pattern.
pub open spec fn stands_in(p: PatternV, n: NodeV) -> bool {
    exists|j: int| 0 <= j < p.paths.len() && on_path(#[trigger] p.paths[j], n)
}

/// Whether a node is on a path.
pub open spec fn on_path(p: PathV, n: NodeV) -> bool {
    p.start == n || exists|i: int| 0 <= i < p.hops.len() && (#[trigger] p.hops[i]).1 == n
}

proof fn lemma_found<A, B>(s: Seq<A>, f: spec_fn(A) -> Option<B>)
    requires
        seqs::find_map(s, f) is Some,
    ensures
        exists|i: int| 0 <= i < s.len() && f(#[trigger] s[i]) == seqs::find_map(s, f),
    decreases s.len(),
{
    let p = s.drop_last();
    if seqs::find_map(p, f) is Some {
        lemma_found(p, f);
        let i = choose|i: int| 0 <= i < p.len() && f(#[trigger] p[i]) == seqs::find_map(p, f);
        assert(s[i] == p[i]);
    } else {
        assert(f(s[s.len() - 1]) == seqs::find_map(s, f));
    }
}

/// The node of a name in a pattern has that name and stands in the pattern.
pub proof fn law_named_node_is_found(p: PatternV, x: Seq<char>, n: NodeV)
    requires
        first_node(p, x) == Some(n),
    ensures
        n.var == Some(x),
        stands_in(p, n),
{
    let f = |q: PathV| prelude::node_in(q, x);
    lemma_found(p.paths, f);
    let j = choose|j: int| 0 <= j < p.paths.len() && f(#[trigger] p.paths[j]) == Some(n);
    let q = p.paths[j];
    let g = |m: NodeV| prelude::node_if(m, x);
    let ns = path_nodes(q);
    lemma_found(ns, g);
    let i = choose|i: int| 0 <= i < ns.len() && g(#[trigger] ns[i]) == Some(n);
    assert(ns[i] == n);
    if i > 0 {
        assert(q.hops[i - 1].1 == n);
    }
    assert(on_path(p.paths[j], n));
}

/// Whether an entity is looked up as the pattern that bound it says: by the labels of a
/// node of its name, at the first match with a path that starts at it.
pub open spec fn seed_back(s: SeedV, p0: PatternV, rest: Seq<ClauseV>) -> bool {
    &&& exists|n: NodeV| #[trigger] stands_in(p0, n) && n.var == Some(s.var) && n.labels == s.labels
    &&& s.labels.len() > 0
    &&& 0 <= s.at < rest.len() && starts_at(rest[s.at], s.var)
    &&& forall|i: int| 0 <= i < s.at ==> !starts_at(#[trigger] rest[i], s.var)
    &&& s.param == prelude::param_name(s.var)
}

/// Every entity that is looked up is looked up as the pattern that bound it says.
pub proof fn law_seeds_read_back(
    q: Seq<ClauseV>,
    p0: PatternV,
    cols: Seq<Seq<char>>,
    vals: Seq<BoundV>,
    n: nat,
)
    requires
        n <= cols.len(),
        fold_all(q, p0, cols, vals, n) is Some,
    ensures
        forall|k: int|
            0 <= k < fold_all(q, p0, cols, vals, n)->0.seeds.len() ==> seed_back(
                #[trigger] fold_all(q, p0, cols, vals, n)->0.seeds[k],
                p0,
                q.skip(2),
            ),
        forall|k: int|
            0 <= k < fold_all(q, p0, cols, vals, n)->0.params.len() ==> {
                let (name, i) = #[trigger] fold_all(q, p0, cols, vals, n)->0.params[k];
                0 <= i < n && name == prelude::param_name(cols[i])
            },
    decreases n,
{
    if n > 0 {
        law_seeds_read_back(q, p0, cols, vals, (n - 1) as nat);
        let st = fold_all(q, p0, cols, vals, (n - 1) as nat)->0;
        let end = fold_all(q, p0, cols, vals, n)->0;
        let col = cols[n - 1];
        let rest = q.skip(2);
        assert forall|k: int| 0 <= k < end.seeds.len() implies seed_back(
            #[trigger] end.seeds[k],
            p0,
            rest,
        ) by {
            if k < st.seeds.len() {
                assert(end.seeds[k] == st.seeds[k]);
            } else {
                let s = end.seeds[k];
                let node = first_node(p0, col)->0;
                law_named_node_is_found(p0, col, node);
                let b = rest.map_values(|c: ClauseV| starts_at(c, col));
                names::lemma_position(b, true);
                assert(b[s.at] == starts_at(rest[s.at], col));
                assert forall|i: int| 0 <= i < s.at implies !starts_at(#[trigger] rest[i], s.var) by {
                    assert(b[i] == starts_at(rest[i], col));
                }
                assert(stands_in(p0, node));
            }
        }
        assert forall|k: int| 0 <= k < end.params.len() implies {
            let (name, i) = #[trigger] end.params[k];
            0 <= i < n && name == prelude::param_name(cols[i])
        } by {
            if k < st.params.len() {
                assert(end.params[k] == st.params[k]);
            }
        }
    }
}

/// Groups come out the same in any row order where nothing they hold looks at the order:
/// every aggregate counts, or takes the smallest or largest value, and there is one
/// group, or the groups are sorted by what they are grouped by at last.
pub proof fn law_order_safe_looks_at_no_order(p: AggV)
    requires
        order_safe(p),
    ensures
        forall|i: int|
            0 <= i < p.sites.len() ==> ((#[trigger] p.sites[i]).name == "count"@ || p.sites[i].name
                == "min"@ || p.sites[i].name == "max"@),
        p.group_keys.len() <= 1,
        p.group_keys.len() == 1 ==> {
            let k = p.group_keys[0];
            let order = match p.form {
                FormV::Return(proj) => proj.order,
                FormV::With { return_proj, .. } => return_proj.order,
            };
            &&& order.len() > 0
            &&& {
                let e = order.last().expr;
                ||| e == k.expr
                ||| k.kind matches SingleVar::Node(v) && ast::reads_any(e) && forall|x: Seq<char>|
                    #[trigger] ast::reads(e, x) ==> x == p.chain.vars[v as int]
                ||| p.form matches FormV::Return(proj) && exists|i: int|
                    0 <= i < proj.items.len() && i < p.agg_items.len() && (#[trigger] p.agg_items[i]) is Key && (
                    e == proj.items[i].expr || (e.head is Var && proj.items[i].alias == Some(
                        e.head->Var_0,
                    )))
            }
        },
{
    if p.group_keys.len() == 1 {
        if let FormV::Return(proj) = p.form {
            let n = crate::join_plan::shorter(proj.items.len(), p.agg_items.len());
            let i = choose|i: int|
                #[trigger] crate::join_plan::sole_key(p.agg_items, n, i) && (
                crate::join_plan::is_item(proj.order.last().expr, proj.items[i])
                    || crate::join_plan::reads_group(
                    proj.order.last().expr,
                    p.group_keys[0],
                    p.chain.vars,
                ));
            assert(p.agg_items[i] is Key);
        }
    }
}

/// Whether an expression is a property of a variable.
pub open spec fn prop_is(e: ExprV, x: Seq<char>, k: Seq<char>) -> bool {
    e.head == HeadV::Prop(k) && e.args.len() == 1 && e.args[0].head == HeadV::Var(x)
}

/// Whether a condition is that a property of a variable equals something.
pub open spec fn equals(c: ExprV, x: Seq<char>, k: Seq<char>, v: ExprV) -> bool {
    c.head == HeadV::Op(Op::Eq) && c.args.len() == 2 && ((prop_is(c.args[0], x, k) && c.args[1] == v)
        || (prop_is(c.args[1], x, k) && c.args[0] == v))
}

/// A collected hierarchy is what its pattern says: nodes of a label that lead by any
/// number of relationships to one of another label, where a property is something at the
/// first or something at the last, and a property of the first is collected.
pub proof fn law_hierarchy_reads_back(p: PatternV, w: Option<ExprV>, items: Seq<ItemV>, h: HierarchyV)
    requires
        hierarchy_of(p, w, items) == Some(h),
    ensures
        p.paths.len() == 1 && p.paths[0].hops.len() == 1 && !p.paths[0].shortest,
        ({
            let a = p.paths[0].start;
            let (rel, b) = p.paths[0].hops[0];
            &&& a.var is Some && a.labels == seq![h.a_label] && a.props is None
            &&& b.var is Some && b.labels == seq![h.b_label] && b.props is None
            &&& rel.dir is Out && rel.var is None && rel.props is None && rel.types == h.types
                && rel.types.len() > 0
            &&& rel.length matches Some(l) && l.min == Some(0u64)
            &&& w matches Some(e) && e.head == HeadV::Op(Op::Or) && e.args.len() == 2 && ((equals(
                e.args[0],
                a.var->0,
                h.prop,
                h.a_val,
            ) && equals(e.args[1], b.var->0, h.prop, h.b_val)) || (equals(
                e.args[0],
                b.var->0,
                h.prop,
                h.b_val,
            ) && equals(e.args[1], a.var->0, h.prop, h.a_val)))
            &&& items.len() == 1 && (items[0].expr.head matches HeadV::Call(f) && f.name
                == "collect"@ && !f.star) && items[0].expr.args.len() == 1 && prop_is(
                items[0].expr.args[0],
                a.var->0,
                h.collected,
            )
            &&& h.column == query::column_of(items[0])
        }),
{
    let a = p.paths[0].start;
    let (rel, b) = p.paths[0].hops[0];
    assert(a.labels =~= seq![h.a_label]);
    assert(b.labels =~= seq![h.b_label]);
}

/// What is handed on of a row are its columns, in the order in which they are named.
pub proof fn law_picked_columns_are_named(ids: Seq<u64>, cols: Seq<usize>, i: int)
    requires
        0 <= i < cols.len(),
    ensures
        select::pick(ids, cols).len() == cols.len(),
        select::pick(ids, cols)[i] == ids[cols[i] as int],
{
}

/// What is kept of repeats stands in the order in which it is first there: before
/// anything that is kept later is there, what is kept earlier was.
pub proof fn law_first_seen_keeps_order<A>(s: Seq<A>, a: int, b: int, i: int)
    requires
        0 <= a < b < first_seen(s).len(),
        0 <= i < s.len(),
        s[i] == first_seen(s)[b],
    ensures
        exists|j: int| 0 <= j < i && #[trigger] s[j] == first_seen(s)[a],
    decreases s.len(),
{
    let p = s.drop_last();
    let d = first_seen(p);
    if b < d.len() {
        crate::table::law_first_seen_same(p);
        if i < p.len() {
            assert(p[i] == s[i]);
            law_first_seen_keeps_order(p, a, b, i);
            let j = choose|j: int| 0 <= j < i && #[trigger] p[j] == d[a];
            assert(s[j] == first_seen(s)[a]);
        } else {
            assert(d.contains(d[a]));
            assert(p.contains(d[a]));
            let j = choose|j: int| 0 <= j < p.len() && p[j] == d[a];
            assert(s[j] == first_seen(s)[a]);
        }
    } else {
        crate::table::law_first_seen_same(p);
        let x = s.last();
        assert(first_seen(s) == d.push(x));
        assert(d.contains(d[a]));
        assert(p.contains(d[a]));
        if i < p.len() {
            assert(p[i] == x);
            assert(p.contains(x));
            assert(d.contains(x));
            assert(false);
        }
        let j = choose|j: int| 0 <= j < p.len() && p[j] == d[a];
        assert(s[j] == first_seen(s)[a]);
    }
}

/// Whether what a plan makes of its rows names a variable: in a key, in the operand of an
/// aggregate, in an item, in a sort key or in the condition on its groups.
pub open spec fn tail_names(p: AggV, x: Seq<char>) -> bool {
    ||| exists|i: int| 0 <= i < p.group_keys.len() && ast::reads((#[trigger] p.group_keys[i]).expr, x)
    ||| match p.form {
        FormV::Return(r) => names_in(r, x),
        FormV::With { with_proj, post_where, return_proj } => items_name(with_proj, x) || (
        post_where matches Some(w) && ast::reads(w, x)) || names_in(return_proj, x),
    }
}

/// Whether an item of a projection names a variable.
pub open spec fn items_name(p: query::ProjV, x: Seq<char>) -> bool {
    exists|i: int| 0 <= i < p.items.len() && ast::reads((#[trigger] p.items[i]).expr, x)
}

/// Whether an item or a sort key of a projection names a variable.
pub open spec fn names_in(p: query::ProjV, x: Seq<char>) -> bool {
    items_name(p, x) || exists|i: int|
        0 <= i < p.order.len() && ast::reads((#[trigger] p.order[i]).expr, x)
}

/// Every variable that what follows the rows names, or that a key or an operand is read
/// through, counts as read.
pub proof fn law_tail_reads_what_it_names(p: AggV, v: int)
    requires
        p.chain.vars.no_duplicates(),
        p.chain.vars.len() <= usize::MAX,
        0 <= v < p.chain.vars.len(),
        ({
            ||| tail_names(p, p.chain.vars[v])
            ||| exists|i: int|
                0 <= i < p.group_keys.len() && ((#[trigger] p.group_keys[i]).kind
                    == SingleVar::Node(v as usize) || p.group_keys[i].kind == SingleVar::Col(
                    v as usize,
                ))
            ||| exists|i: int|
                0 <= i < p.site_args.len() && match #[trigger] p.site_args[i] {
                    ArgV::Node(w) => w == v,
                    ArgV::Col(w, _) => w == v,
                    _ => false,
                }
        }),
    ensures
        readset::tail_reads(p, v),
{
    let vars = p.chain.vars;
    let x = vars[v];
    names::lemma_position(vars, x);
    assert(names::position(vars, x) == Some(v));
    if exists|i: int| 0 <= i < p.group_keys.len() && ast::reads((#[trigger] p.group_keys[i]).expr, x) {
        let i = choose|i: int|
            0 <= i < p.group_keys.len() && ast::reads((#[trigger] p.group_keys[i]).expr, x);
        assert(readset::marks(p.group_keys[i].expr, vars, v));
        assert(readset::keys_mark(p.group_keys, vars, v));
    } else if tail_names(p, x) {
        match p.form {
            FormV::Return(r) => {
                lemma_marked(r, vars, v);
            },
            FormV::With { with_proj, post_where, return_proj } => {
                lemma_marked(return_proj, vars, v);
                lemma_items_marked(with_proj, vars, v);
            },
        }
    } else if exists|i: int|
        0 <= i < p.group_keys.len() && ((#[trigger] p.group_keys[i]).kind == SingleVar::Node(
            v as usize,
        ) || p.group_keys[i].kind == SingleVar::Col(v as usize)) {
        let i = choose|i: int|
            0 <= i < p.group_keys.len() && ((#[trigger] p.group_keys[i]).kind == SingleVar::Node(
                v as usize,
            ) || p.group_keys[i].kind == SingleVar::Col(v as usize));
        assert(plan::kind_var(p.group_keys[i].kind) == Some(v as usize));
        assert(readset::keys_mark(p.group_keys, vars, v));
    } else {
        let i = choose|i: int|
            0 <= i < p.site_args.len() && match #[trigger] p.site_args[i] {
                ArgV::Node(w) => w == v,
                ArgV::Col(w, _) => w == v,
                _ => false,
            };
        assert(readset::arg_var(p.site_args[i]) == Some(v as usize));
        assert(readset::args_mark(p.site_args, v));
    }
}

proof fn lemma_items_marked(p: query::ProjV, vars: Seq<Seq<char>>, v: int)
    requires
        0 <= v < vars.len(),
        names::position(vars, vars[v]) == Some(v),
    ensures
        items_name(p, vars[v]) ==> readset::items_mark(p.items, vars, v),
{
    if items_name(p, vars[v]) {
        let i = choose|i: int| 0 <= i < p.items.len() && ast::reads((#[trigger] p.items[i]).expr, vars[v]);
        assert(readset::marks(p.items[i].expr, vars, v));
    }
}

proof fn lemma_marked(p: query::ProjV, vars: Seq<Seq<char>>, v: int)
    requires
        0 <= v < vars.len(),
        names::position(vars, vars[v]) == Some(v),
    ensures
        names_in(p, vars[v]) ==> readset::items_mark(p.items, vars, v) || readset::order_marks(
            p.order,
            vars,
            v,
        ),
{
    lemma_items_marked(p, vars, v);
    if names_in(p, vars[v]) && !items_name(p, vars[v]) {
        let i = choose|i: int| 0 <= i < p.order.len() && ast::reads((#[trigger] p.order[i]).expr, vars[v]);
        assert(readset::marks(p.order[i].expr, vars, v));
    }
}

/// Groups over rows in which a variable may stand for nothing are made as they should: a
/// key or an operand that is read through such a variable is the variable or a property
/// of it, which then is nothing too, and only a count or a list takes such an operand,
/// which leaves nothing out.
pub proof fn law_nulls_are_left_out(p: AggV, outer: int)
    requires
        legs::agg_nulls(p, outer),
        p.sites.len() == p.site_args.len(),
    ensures
        forall|i: int|
            0 <= i < p.group_keys.len() ==> match (#[trigger] p.group_keys[i]).kind {
                SingleVar::Col(v) => v >= outer ==> p.group_keys[i].expr.head is Prop && prop_is(
                    p.group_keys[i].expr,
                    p.chain.vars[v as int],
                    p.group_keys[i].expr.head->Prop_0,
                ),
                _ => true,
            },
        forall|i: int|
            0 <= i < p.site_args.len() ==> match #[trigger] p.site_args[i] {
                ArgV::Node(v) => v >= outer ==> p.sites[i].name == "count"@ || p.sites[i].name
                    == "collect"@,
                ArgV::Col(v, e) => v >= outer ==> (p.sites[i].name == "count"@ || p.sites[i].name
                    == "collect"@) && e.head is Prop && prop_is(
                    e,
                    p.chain.vars[v as int],
                    e.head->Prop_0,
                ),
                _ => true,
            },
{
    assert forall|i: int| 0 <= i < p.group_keys.len() implies match (#[trigger] p.group_keys[i]).kind {
                SingleVar::Col(v) => v >= outer ==> p.group_keys[i].expr.head is Prop && prop_is(
                    p.group_keys[i].expr,
                    p.chain.vars[v as int],
                    p.group_keys[i].expr.head->Prop_0,
                ),
                _ => true,
            } by {
        assert(legs::key_nulls(p.group_keys[i], p.chain.vars, outer));
    }
    assert forall|i: int| 0 <= i < p.site_args.len() implies match #[trigger] p.site_args[i] {
        ArgV::Node(v) => v >= outer ==> p.sites[i].name == "count"@ || p.sites[i].name
            == "collect"@,
        ArgV::Col(v, e) => v >= outer ==> (p.sites[i].name == "count"@ || p.sites[i].name
            == "collect"@) && e.head is Prop && prop_is(
            e,
            p.chain.vars[v as int],
            e.head->Prop_0,
        ),
        _ => true,
    } by {
        assert(legs::arg_nulls(p.sites[i], p.site_args[i], p.chain.vars, outer));
    }
}

/// Only aggregates that count all rows may be fed from rows that stand for several.
pub proof fn law_only_plain_counts_are_folded(ss: Seq<SiteV>)
    requires
        readset::only_count_star(ss),
    ensures
        ss.len() > 0,
        forall|i: int|
            0 <= i < ss.len() ==> (#[trigger] ss[i]).name == "count"@ && ss[i].star
                && !ss[i].distinct,
{
    assert forall|i: int| 0 <= i < ss.len() implies (#[trigger] ss[i]).name == "count"@ && ss[i].star
        && !ss[i].distinct by {
        assert(readset::count_star(ss[i]));
    }
}

} // verus!
