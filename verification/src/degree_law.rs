//! Counting ends makes the groups that an aggregate over the rows makes.

use vstd::prelude::*;

use crate::chain_rows;
use crate::chain_rows::{built, BuildV, Built, StageV};
use crate::chunk;
use crate::chunk::{DataChunk, HopV, RowV};
use crate::degree;
use crate::degree::{counted, degree_ends, degree_of, far_ends, groupable, merged, mid_ends, rollup_of, sum_of, walk_of};
use crate::fold_model;
use crate::graph::{Adj, Graph, NULL_ID};
use crate::group;
use crate::group::{bound_args, bound_keys, plan_groups, plan_view, Supply};
use crate::hop;
use crate::names;
use crate::names::position;
use crate::plan::{AggV, FormV, SiteV};
use crate::query;
use crate::reduce;
use crate::reduce::{col_value, find_group, key_value, reduce, row_key, same_key, take_row, AccV, ArgColV, GroupV, KeyColV, ReduceV, Taken, ValV};
use crate::seeds;
use crate::seqs;
use crate::table;
use crate::table::first_seen;
use crate::tally;
use crate::tally::{all_ends, occurs, WalkV};

verus! {

/// How many values an aggregate has taken.
pub open spec fn taken_of(a: AccV) -> int {
    match a {
        AccV::Count(n) => n,
        AccV::Fed(s) => s.len() as int,
    }
}

/// Groups as counts: what each binds a variable to, and how many values its
/// aggregate has taken.
pub open spec fn counts_of(gs: Seq<GroupV>, at: int) -> Seq<(u64, int)> {
    gs.map_values(|g: GroupV| (g.ids[at], taken_of(g.accs[0])))
}

/// Values as keys.
pub open spec fn lone_keys(vs: Seq<ValV>) -> Seq<Seq<ValV>> {
    vs.map_values(|v: ValV| seq![v])
}

spec fn row_vals(p: ReduceV, rows: Seq<RowV>) -> Seq<ValV> {
    rows.map_values(|r: RowV| key_value(p.keys[0], p.kinds, r))
}

proof fn lemma_position_push<A>(s: Seq<A>, x: A, u: A)
    ensures
        position(s.push(x), u) == match position(s, u) {
            Some(i) => Some(i),
            None => if u == x {
                Some(s.len() as int)
            } else {
                None
            },
        },
{
    assert(s.push(x).drop_last() =~= s);
}

/// A count by one column: whether the groups are those of the values.
spec fn grouped_by(p: ReduceV, rows: Seq<RowV>) -> bool {
    let vs = row_vals(p, rows);
    let fs = first_seen(vs);
    let gs = reduce(p, rows)->Groups_1;
    &&& reduce(p, rows)->Groups_0 == lone_keys(fs)
    &&& gs.len() == fs.len()
    &&& forall|i: int|
        0 <= i < gs.len() ==> {
            &&& (#[trigger] gs[i]).accs.len() == 1
            &&& gs[i].accs[0] is Fed
            &&& taken_of(gs[i].accs[0]) == occurs(vs, fs[i])
            &&& gs[i].ids == rows[position(vs, fs[i])->0].ids
        }
}

proof fn lemma_takes_one(a: Seq<AccV>, p: ReduceV, row: RowV, at: int)
    requires
        a.len() == 1,
        a[0] is Fed,
        p.args == seq![ArgColV::Present(at)],
        !p.weighted,
        row.ids[at] != NULL_ID,
    ensures
        take_row(a, p.args, p.kinds, row, p.weighted, p.args.len()) == Taken::Done(
            seq![AccV::Fed(a[0]->Fed_0.push(ValV::Bool(true)))],
        ),
{
    reveal_with_fuel(take_row, 2);
    assert(a.update(0, AccV::Fed(a[0]->Fed_0.push(ValV::Bool(true)))) =~= seq![
        AccV::Fed(a[0]->Fed_0.push(ValV::Bool(true))),
    ]);
}

proof fn lemma_find_lone(fs: Seq<ValV>, v: ValV)
    requires
        !(v is Nan),
    ensures
        match find_group(lone_keys(fs), seq![v]) {
            Some(i) => 0 <= i < fs.len() && fs[i] == v,
            None => !fs.contains(v),
        },
{
    let keys = lone_keys(fs);
    reduce::lemma_find_none(keys, seq![v]);
    match find_group(keys, seq![v]) {
        Some(i) => {
            assert(same_key(keys[i], seq![v]));
            assert(reduce::same_val(keys[i][0], seq![v][0]));
        },
        None => {
            if fs.contains(v) {
                let i = choose|i: int| 0 <= i < fs.len() && fs[i] == v;
                assert(keys[i] == seq![v]);
                assert(same_key(keys[i], seq![v]));
            }
        },
    }
}

proof fn lemma_grouped(p: ReduceV, rows: Seq<RowV>, at: int)
    requires
        p.keys.len() == 1,
        p.args == seq![ArgColV::Present(at)],
        p.fresh == seq![AccV::Fed(Seq::empty())],
        !p.weighted,
        reduce(p, rows) is Groups,
        groupable(row_vals(p, rows)),
        forall|i: int| 0 <= i < rows.len() ==> (#[trigger] rows[i]).ids[at] != NULL_ID,
    ensures
        grouped_by(p, rows),
    decreases rows.len(),
{
    let vs = row_vals(p, rows);
    if rows.len() == 0 {
        assert(vs =~= Seq::empty());
        assert(lone_keys(first_seen(vs)) =~= Seq::empty());
    } else {
        let before = rows.drop_last();
        let row = rows.last();
        let us = row_vals(p, before);
        let v = key_value(p.keys[0], p.kinds, row);
        assert(vs =~= us.push(v));
        assert(vs.drop_last() =~= us);
        assert(groupable(us)) by {
            assert forall|i: int| 0 <= i < us.len() implies !((#[trigger] us[i]) is Nan) by {
                assert(vs[i] == us[i]);
            }
        }
        assert(!(vs[us.len() as int] is Nan));
        assert forall|i: int| 0 <= i < before.len() implies (#[trigger] before[i]).ids[at]
            != NULL_ID by {
            assert(rows[i] == before[i]);
        }
        assert(rows[rows.len() - 1].ids[at] != NULL_ID);
        lemma_grouped(p, before, at);
        let fs = first_seen(us);
        let keys = reduce(p, before)->Groups_0;
        let gs = reduce(p, before)->Groups_1;
        let key = row_key(p.keys, p.kinds, row);
        assert(key =~= seq![v]);
        lemma_find_lone(fs, v);
        table::law_first_seen_same(us);
        assert forall|u: ValV| #[trigger] occurs(vs, u) == occurs(us, u) + if u == v {
            1int
        } else {
            0
        } by {}
        assert forall|u: ValV| us.contains(u) implies #[trigger] position(vs, u) == position(us, u)
            && 0 <= position(us, u)->0 < us.len() by {
            lemma_position_push(us, v, u);
            names::lemma_position(us, u);
        }
        let out = reduce(p, rows)->Groups_1;
        match find_group(keys, key) {
            Some(i) => {
                lemma_takes_one(gs[i].accs, p, row, at);
                assert(first_seen(vs) == fs);
                let now = first_seen(vs);
                assert forall|j: int| 0 <= j < out.len() implies {
                    &&& (#[trigger] out[j]).accs.len() == 1
                    &&& out[j].accs[0] is Fed
                    &&& taken_of(out[j].accs[0]) == occurs(vs, now[j])
                    &&& out[j].ids == rows[position(vs, now[j])->0].ids
                } by {
                    assert(gs[j].accs.len() == 1);
                    assert(us.contains(fs[j])) by {
                        assert(fs.contains(fs[j]));
                    }
                    assert(position(vs, fs[j]) == position(us, fs[j]));
                    if j != i {
                        assert(fs[j] != fs[i]);
                    }
                }
            },
            None => {
                lemma_takes_one(p.fresh, p, row, at);
                assert(first_seen(vs) == fs.push(v));
                assert(keys.push(key) =~= lone_keys(fs.push(v)));
                let now = first_seen(vs);
                assert(!us.contains(v));
                lemma_position_push(us, v, v);
                names::lemma_position(us, v);
                tally::lemma_occurs_holds(us, v);
                assert forall|j: int| 0 <= j < out.len() implies {
                    &&& (#[trigger] out[j]).accs.len() == 1
                    &&& out[j].accs[0] is Fed
                    &&& taken_of(out[j].accs[0]) == occurs(vs, now[j])
                    &&& out[j].ids == rows[position(vs, now[j])->0].ids
                } by {
                    if j < fs.len() {
                        assert(gs[j].accs.len() == 1);
                        assert(out[j] == gs[j]);
                        assert(us.contains(fs[j])) by {
                            assert(fs.contains(fs[j]));
                        }
                        assert(position(vs, fs[j]) == position(us, fs[j]));
                    }
                }
            },
        }
    }
}

/// Values first seen through the ends they belong to.
proof fn lemma_first_values(es: Seq<u64>, f: spec_fn(u64) -> ValV)
    ensures
        first_seen(es.map_values(f)) == first_seen(first_seen(es).map_values(f)),
        forall|v: ValV|
            es.map_values(f).contains(v) ==> es[#[trigger] position(es.map_values(f), v)->0]
                == first_seen(es)[position(first_seen(es).map_values(f), v)->0],
    decreases es.len(),
{
    let vs = es.map_values(f);
    if es.len() == 0 {
        assert(vs =~= Seq::empty());
        assert(first_seen(es).map_values(f) =~= Seq::empty());
    } else {
        let p = es.drop_last();
        let x = es.last();
        let us = p.map_values(f);
        let fs = first_seen(p);
        let ws = fs.map_values(f);
        lemma_first_values(p, f);
        table::law_first_seen_same(p);
        table::law_first_seen_same(us);
        assert(vs =~= us.push(f(x)));
        assert(vs.drop_last() =~= us);
        if fs.contains(x) {
            assert(p.contains(x));
            let i = choose|i: int| 0 <= i < p.len() && p[i] == x;
            assert(us[i] == f(x));
            assert(us.contains(f(x)));
            assert(first_seen(us).contains(f(x)));
            assert(first_seen(vs) == first_seen(us));
        } else {
            assert(first_seen(es).map_values(f) =~= ws.push(f(x)));
            assert(first_seen(es).map_values(f).drop_last() =~= ws);
        }
        assert forall|v: ValV| vs.contains(v) implies es[#[trigger] position(vs, v)->0]
            == first_seen(es)[position(first_seen(es).map_values(f), v)->0] by {
            lemma_position_push(us, f(x), v);
            names::lemma_position(us, v);
            names::lemma_position(ws, v);
            assert(ws.contains(v) <==> us.contains(v)) by {
                if ws.contains(v) {
                    let k = choose|k: int| 0 <= k < ws.len() && ws[k] == v;
                    assert(fs.contains(fs[k]));
                    assert(p.contains(fs[k]));
                    let j = choose|j: int| 0 <= j < p.len() && p[j] == fs[k];
                    assert(us[j] == v);
                }
                if us.contains(v) {
                    let k = choose|k: int| 0 <= k < us.len() && us[k] == v;
                    assert(p.contains(p[k]));
                    let j = choose|j: int| 0 <= j < fs.len() && fs[j] == p[k];
                    assert(ws[j] == v);
                }
            }
            if us.contains(v) {
                assert(es[position(us, v)->0] == p[position(us, v)->0]);
                if !fs.contains(x) {
                    lemma_position_push(ws, f(x), v);
                    assert(first_seen(es)[position(ws, v)->0] == fs[position(ws, v)->0]);
                }
            } else {
                seqs::lemma_push_contains(us, f(x), v);
                assert(!fs.contains(x)) by {
                    if fs.contains(x) {
                        let i = choose|i: int| 0 <= i < p.len() && p[i] == x;
                        assert(us[i] == v);
                    }
                }
                lemma_position_push(ws, f(x), v);
            }
        }
    }
}

/// Distinct ends with how often each is met.
spec fn met_of(ds: Seq<u64>, es: Seq<u64>) -> Seq<(u64, int)> {
    ds.map_values(|x: u64| (x, occurs(es, x) as int))
}

proof fn lemma_sum_push(ds: Seq<u64>, es: Seq<u64>, x: u64, f: spec_fn(u64) -> ValV, v: ValV)
    ensures
        sum_of(ds.map_values(f), met_of(ds, es.push(x)), v) == sum_of(
            ds.map_values(f),
            met_of(ds, es),
            v,
        ) + if f(x) == v {
            occurs(ds, x) as int
        } else {
            0
        },
    decreases ds.len(),
{
    if ds.len() > 0 {
        let p = ds.drop_last();
        lemma_sum_push(p, es, x, f, v);
        assert(ds.map_values(f).drop_last() =~= p.map_values(f));
        assert(met_of(ds, es).drop_last() =~= met_of(p, es));
        assert(met_of(ds, es.push(x)).drop_last() =~= met_of(p, es.push(x)));
        assert(es.push(x).drop_last() =~= es);
    }
}

proof fn lemma_sum_none(ds: Seq<u64>, f: spec_fn(u64) -> ValV, v: ValV)
    ensures
        sum_of(ds.map_values(f), met_of(ds, Seq::empty()), v) == 0,
    decreases ds.len(),
{
    if ds.len() > 0 {
        let p = ds.drop_last();
        lemma_sum_none(p, f, v);
        assert(ds.map_values(f).drop_last() =~= p.map_values(f));
        assert(met_of(ds, Seq::empty()).drop_last() =~= met_of(p, Seq::empty()));
    }
}

/// The counts of the ends of a value add up to how often the value is met.
proof fn lemma_sum_is_occurs(ds: Seq<u64>, es: Seq<u64>, f: spec_fn(u64) -> ValV, v: ValV)
    requires
        ds.no_duplicates(),
        forall|x: u64| #[trigger] es.contains(x) ==> ds.contains(x),
    ensures
        sum_of(ds.map_values(f), met_of(ds, es), v) == occurs(es.map_values(f), v),
    decreases es.len(),
{
    if es.len() == 0 {
        assert(es =~= Seq::empty());
        assert(es.map_values(f) =~= Seq::empty());
        lemma_sum_none(ds, f, v);
    } else {
        let p = es.drop_last();
        let x = es.last();
        assert(es =~= p.push(x));
        assert forall|y: u64| #[trigger] p.contains(y) implies ds.contains(y) by {
            seqs::lemma_push_contains(p, x, y);
        }
        lemma_sum_is_occurs(ds, p, f, v);
        lemma_sum_push(ds, p, x, f, v);
        seqs::lemma_push_contains(p, x, x);
        assert(es.contains(x));
        tally::lemma_occurs_once(ds, x);
        assert(es.map_values(f) =~= p.map_values(f).push(f(x)));
        assert(es.map_values(f).drop_last() =~= p.map_values(f));
    }
}

/// The value that a plan's only key has for an id.
pub open spec fn end_value(p: AggV, ids: Seq<Vec<u64>>, x: Supply, id: u64) -> ValV {
    match bound_keys(p, ids, x.keys@) {
        Some(ks) => match ks[0] {
            KeyColV::Col(_, a, b) => col_value(a, b, id),
            _ => ValV::Null,
        },
        None => ValV::Null,
    }
}

/// The values of the ends that counts belong to.
pub open spec fn end_values(p: AggV, ids: Seq<Vec<u64>>, x: Supply, ns: Seq<(u64, int)>) -> Seq<
    ValV,
> {
    ns.map_values(|n: (u64, int)| end_value(p, ids, x, n.0))
}

/// How a plan that counts by one column groups rows.
proof fn lemma_plan_view(g: Graph, p: AggV, chunk: DataChunk, ids: Seq<Vec<u64>>, x: Supply, start: int, end: int)
    requires
        degree::grouped_prop(p.group_keys, p.chain.vars, end) is Some,
        degree::counted_var(p.sites, p.site_args) == Some(start),
        chunk.weights@.len() == 0,
        chunk.live_view().len() > 0,
        plan_groups(g, p, chunk, ids, x) is Groups,
    ensures
        ({
            let r = plan_view(
                g,
                p,
                chunk,
                bound_keys(p, ids, x.keys@)->0,
                bound_args(p, ids, x.args@)->0,
            );
            &&& plan_groups(g, p, chunk, ids, x) == reduce(r, chunk.live_view())
            &&& r.keys.len() == 1
            &&& r.keys[0] is Col
            &&& r.keys[0]->Col_0 == end
            &&& forall|row: RowV| #[trigger]
                key_value(r.keys[0], r.kinds, row) == end_value(p, ids, x, row.ids[end])
            &&& r.args == seq![ArgColV::Present(start)]
            &&& r.fresh == seq![AccV::Fed(Seq::empty())]
            &&& !r.weighted
        }),
{
    let ks = bound_keys(p, ids, x.keys@)->0;
    let args = bound_args(p, ids, x.args@)->0;
    assert(group::bind_key(p.group_keys[0], ids, group::supplied(x.keys@[0])) is Some);
    assert(ks[0] is Col);
    assert(group::bind_arg(p.sites[0], p.site_args[0], ids, group::supplied(x.args@[0])) is Some);
    assert(args =~= seq![ArgColV::Present(start)]);
    assert(p.sites.map_values(|s: SiteV| reduce::fresh(s)) =~= seq![AccV::Fed(Seq::empty())]);
}

/// What grouping rows by a value of their ends comes to, given the ends.
proof fn lemma_rows_grouped(
    g: Graph,
    p: AggV,
    chunk: DataChunk,
    ids: Seq<Vec<u64>>,
    x: Supply,
    start: int,
    end: int,
    es: Seq<u64>,
)
    requires
        degree::grouped_prop(p.group_keys, p.chain.vars, end) is Some,
        degree::counted_var(p.sites, p.site_args) == Some(start),
        chunk.weights@.len() == 0,
        plan_groups(g, p, chunk, ids, x) is Groups,
        es == chunk.live_view().map_values(|r: RowV| r.ids[end]),
        forall|i: int|
            0 <= i < chunk.live_view().len() ==> (#[trigger] chunk.live_view()[i]).ids[start]
                != NULL_ID,
        groupable(es.map_values(|id: u64| end_value(p, ids, x, id))),
    ensures
        ({
            let f = |id: u64| end_value(p, ids, x, id);
            let vs = es.map_values(f);
            let gs = plan_groups(g, p, chunk, ids, x)->Groups_1;
            &&& plan_groups(g, p, chunk, ids, x)->Groups_0 == lone_keys(first_seen(vs))
            &&& gs.len() == first_seen(vs).len()
            &&& forall|i: int|
                0 <= i < gs.len() ==> (#[trigger] gs[i]).ids[end] == es[position(
                    vs,
                    first_seen(vs)[i],
                )->0] && taken_of(gs[i].accs[0]) == occurs(vs, first_seen(vs)[i])
        }),
{
    let f = |id: u64| end_value(p, ids, x, id);
    let vs = es.map_values(f);
    let rows = chunk.live_view();
    if rows.len() == 0 {
        assert(vs =~= Seq::empty());
        assert(lone_keys(first_seen(vs)) =~= Seq::empty());
    } else {
        lemma_plan_view(g, p, chunk, ids, x, start, end);
        let r = plan_view(
            g,
            p,
            chunk,
            bound_keys(p, ids, x.keys@)->0,
            bound_args(p, ids, x.args@)->0,
        );
        assert(row_vals(r, rows) =~= vs) by {
            assert forall|i: int| 0 <= i < rows.len() implies row_vals(r, rows)[i] == vs[i] by {
                assert(key_value(r.keys[0], r.kinds, rows[i]) == end_value(
                    p,
                    ids,
                    x,
                    rows[i].ids[end],
                ));
            }
        }
        lemma_grouped(r, rows, start);
        let gs = reduce(r, rows)->Groups_1;
        table::law_first_seen_same(vs);
        assert forall|i: int| 0 <= i < gs.len() implies (#[trigger] gs[i]).ids[end] == es[position(
            vs,
            first_seen(vs)[i],
        )->0] by {
            assert(gs[i].accs.len() == 1);
            assert(first_seen(vs).contains(first_seen(vs)[i]));
            names::lemma_position(vs, first_seen(vs)[i]);
        }
    }
}

/// A chain of plain steps that a plan stands for.
pub open spec fn plain_chain(b: BuildV, p: AggV) -> bool {
    &&& b.g.wf()
    &&& b.g.labels@.len() <= u64::MAX
    &&& hop::steps_v(b.hops) == p.chain.hops
    &&& b.filters.len() == 0
    &&& forall|i: int| 0 <= i < b.hops.len() ==> !(#[trigger] b.hops[i]).fold
}

/// A chunk holds the rows of a plan's whole chain.
pub open spec fn holds_chain(b: BuildV, p: AggV, chunk: DataChunk) -> bool {
    &&& built(
        b,
        p.chain.a_var,
        seeds::scan(b.g, p.chain.a_labels),
        b.hops.len() as int,
    ) matches Built::At(st) && st.vars == p.chain.vars && st.rows == chunk.live_view()
    &&& chunk.weights@.len() == 0
}

spec fn step_of(b: BuildV, k: int) -> HopV {
    hop::hop_view(
        b.hops[k],
        b.g.type_tokens(names::of(b.hops[k].types@)),
        seeds::end_members(b.g, names::of(b.hops[k].labels@)),
    )
}

proof fn lemma_settle_none(b: BuildV, st: StageV)
    requires
        b.filters.len() == 0,
        st.pending.len() == 0,
    ensures
        chain_rows::settle(b.g, b.filters, st) == Built::At(st),
{
    reveal(chain_rows::settle);
    assert(st.pending =~= Seq::empty());
    seqs::lemma_filter_empty(|p: int| !b.filters[p].bound(st.vars));
    assert(chain_rows::unready(b.filters, st) =~= st.pending);
}

/// A plain step of a chain is an expand.
proof fn lemma_built_step(b: BuildV, p: AggV, k: int, ids: Seq<u64>)
    requires
        plain_chain(b, p),
        0 <= k < b.hops.len(),
        degree::counted_hop(p.chain.hops[k]),
        built(b, p.chain.a_var, ids, k + 1) is At,
        built(b, p.chain.a_var, ids, k) matches Built::At(st) ==> st.pending.len() == 0,
    ensures
        built(b, p.chain.a_var, ids, k) is At,
        ({
            let st = built(b, p.chain.a_var, ids, k)->At_0;
            let to = built(b, p.chain.a_var, ids, k + 1)->At_0;
            &&& to.rows == chunk::expand_rows(b.g, step_of(b, k), st.rows)
            &&& to.vars == st.vars.push(p.chain.hops[k].var)
            &&& to.pending.len() == 0
        }),
        ({
            let h = p.chain.hops[k];
            let v = step_of(b, k);
            &&& v.src == h.src
            &&& v.dir == h.dir
            &&& v.track == h.track
            &&& v.reset == h.reset
            &&& !v.rel_col
            &&& v.tokens == b.g.type_tokens(h.types)
            &&& v.members == seeds::end_members(b.g, h.labels)
        }),
{
    reveal(chain_rows::step);
    assert(hop::steps_v(b.hops)[k] == b.hops[k].v());
    let st = built(b, p.chain.a_var, ids, k)->At_0;
    let next = chain_rows::step(b, k, st)->At_0;
    lemma_settle_none(b, next);
    assert(next.vars =~= st.vars.push(p.chain.hops[k].var));
}

proof fn lemma_no_edges(g: Graph, node: u64, h: HopV)
    requires
        h.tokens matches Some(t) && t.len() == 0,
    ensures
        g.adj(node, h.dir, h.tokens).len() == 0,
{
    assert forall|row: Seq<Adj>| #[trigger]
        crate::graph::typed(row, h.tokens).len() == 0 by {
        let t = crate::graph::typed(row, h.tokens);
        if t.len() > 0 {
            let f = |e: Adj| crate::graph::admits(h.tokens, e.typ);
            seqs::lemma_filter_contains(row, f, t[0]);
            assert(t.contains(t[0]));
        }
    }
    let row = crate::graph::row_of(g.into@, node);
    assert(crate::graph::typed(row, h.tokens) =~= Seq::empty());
    seqs::lemma_filter_empty(|e: Adj| e.peer != node);
}

proof fn lemma_no_ends(g: Graph, w: WalkV, ns: Seq<u64>)
    requires
        w.tokens matches Some(t) && t.len() == 0,
    ensures
        all_ends(g, w, ns).len() == 0,
    decreases ns.len(),
{
    if ns.len() > 0 {
        lemma_no_ends(g, w, ns.drop_last());
        let h = HopV {
            src: 0,
            dir: w.dir,
            tokens: w.tokens,
            members: w.members,
            track: false,
            reset: false,
            rel_col: false,
        };
        lemma_no_edges(g, ns.last(), h);
        let es = g.adj(ns.last(), w.dir, w.tokens);
        assert(es =~= Seq::empty());
        assert(es.reverse() =~= Seq::empty());
        seqs::lemma_filter_empty(|e: Adj| crate::graph::is_member(w.members, e.peer));
    }
}

/// What the rows of an expand hold.
pub proof fn lemma_expanded(g: Graph, h: HopV, rows: Seq<RowV>, i: int) -> (q: int)
    requires
        0 <= i < chunk::expand_rows(g, h, rows).len(),
        !h.rel_col,
    ensures
        0 <= q < rows.len(),
        ({
            let to = chunk::expand_rows(g, h, rows)[i];
            let base = chunk::base_of(rows[q], h.track, h.reset);
            &&& to.ids.len() == rows[q].ids.len() + 1
            &&& forall|c: int| 0 <= c < rows[q].ids.len() ==> to.ids[c] == #[trigger] rows[q].ids[c]
            &&& forall|k: int|
                0 <= k < to.used.len() ==> base.contains(#[trigger] to.used[k]) || g.rel_typed(
                    to.used[k],
                    h.tokens,
                )
        }),
    decreases rows.len(),
{
    let p = rows.drop_last();
    let row = rows.last();
    let head = chunk::expand_rows(g, h, p);
    if i < head.len() {
        let q = lemma_expanded(g, h, p, i);
        assert(p[q] == rows[q]);
        q
    } else {
        let base = chunk::base_of(row, h.track, h.reset);
        let way = g.adj(row.ids[h.src], h.dir, h.tokens);
        let keep = |e: Adj| chunk::expand_keeps(h, base, e);
        let make = |e: Adj| chunk::expand_makes(h, row, base, e);
        let e = seqs::lemma_keep_map_at(way.reverse(), keep, make, i - head.len());
        lemma_adj_typed(g, row.ids[h.src], h, e);
        let to = chunk::expand_rows(g, h, rows)[i];
        assert(to == make(e));
        assert forall|k: int| 0 <= k < to.used.len() implies base.contains(#[trigger] to.used[k])
            || g.rel_typed(to.used[k], h.tokens) by {
            if k < base.len() {
                assert(base[k] == to.used[k]);
            }
        }
        rows.len() - 1
    }
}

pub proof fn lemma_adj_typed(g: Graph, node: u64, h: HopV, e: Adj)
    requires
        g.adj(node, h.dir, h.tokens).reverse().contains(e),
    ensures
        g.rel_typed(e.rel, h.tokens),
{
    let s = g.adj(node, h.dir, h.tokens);
    let i = choose|i: int| 0 <= i < s.reverse().len() && s.reverse()[i] == e;
    let j = s.len() - 1 - i;
    fold_model::lemma_adj_entry(g, node, h.dir, h.tokens, j);
    let (t, n, k) = choose|t: bool, n: int, k: int| #[trigger]
        g.has_entry(t, n, k) && g.entry(t, n, k) == s[j];
    assert(g.has_entry(t, n, k) && g.entry(t, n, k).rel == e.rel);
}

proof fn lemma_scan_bound(g: Graph, labels: Seq<Seq<char>>, i: int)
    requires
        g.labels@.len() <= u64::MAX,
        0 <= i < seeds::scan(g, labels).len(),
    ensures
        seeds::scan(g, labels)[i] != NULL_ID,
{
    seeds::law_scan_is_complete(g, labels);
    assert(seeds::scan(g, labels).contains(seeds::scan(g, labels)[i]));
}

/// The rows of a chain of one plain step.
proof fn lemma_one_step(b: BuildV, p: AggV, chunk: DataChunk)
    requires
        plain_chain(b, p),
        holds_chain(b, p, chunk),
        degree_of(p) is Some,
    ensures
        degree_of(p)->0.start == 0,
        degree_of(p)->0.end == 1,
        chunk.live_view().map_values(|r: RowV| r.ids[1]) == degree_ends(b.g, p),
        forall|i: int|
            0 <= i < chunk.live_view().len() ==> (#[trigger] chunk.live_view()[i]).ids[0] != NULL_ID,
{
    let ids = seeds::scan(b.g, p.chain.a_labels);
    let rows = chunk.live_view();
    let x = p.chain.a_var;
    assert(b.hops.len() == 1) by {
        assert(hop::steps_v(b.hops).len() == b.hops.len());
    }
    let s0 = chain_rows::seed_of(b, x, ids);
    assert(s0.pending =~= Seq::empty());
    lemma_settle_none(b, s0);
    assert(built(b, x, ids, 0) == Built::At(s0));
    lemma_built_step(b, p, 0, ids);
    let h = step_of(b, 0);
    let vars = p.chain.vars;
    assert(vars =~= seq![x, p.chain.hops[0].var]);
    names::lemma_position(vars, x);
    names::lemma_position(vars, p.chain.hops[0].var);
    assert(vars[0] == x && vars[1] == p.chain.hops[0].var);
    let from = s0.rows;
    let w = walk_of(b.g, p.chain.hops[0], true);
    assert forall|i: int| 0 <= i < from.len() implies tally::unbarred(b.g, h, #[trigger] from[i]) by {
        assert(from[i].used.len() == 0);
    }
    tally::law_ends_are_expanded(b.g, w, h, from);
    assert forall|i: int| 0 <= i < rows.len() implies (#[trigger] rows[i]).ids.len() == 2
        && rows[i].ids[0] != NULL_ID by {
        let q = lemma_expanded(b.g, h, from, i);
        assert(from[q].ids.len() == 1);
        assert(rows[i].ids[0] == from[q].ids[0]);
        lemma_scan_bound(b.g, p.chain.a_labels, q);
    }
    let ends = rows.map_values(|r: RowV| r.ids[1]);
    assert(ends =~= rows.map_values(|r: RowV| r.ids.last()));
    if chain_rows::edgeless(b.g, b.hops) {
        assert(from =~= Seq::empty());
        let i = choose|i: int|
            0 <= i < b.hops.len() && (b.g.type_tokens(names::of((#[trigger] b.hops[i]).types@)) matches Some(
                t,
            ) && t.len() == 0);
        assert(i == 0);
        lemma_no_ends(b.g, w, ids);
        assert(degree_ends(b.g, p) =~= Seq::empty());
        assert(ends =~= Seq::empty());
    } else {
        assert(from.map_values(|r: RowV| r.ids[h.src]) =~= ids);
    }
}

/// Counting by degree is aggregating: where an aggregate over the rows of a chain
/// groups them, the counts of the chain's ends, merged by the value of each end,
/// are its groups: the same keys in the same order, first bound at the same ends,
/// and with the same counts.
pub proof fn law_degree_is_aggregate(
    b: BuildV,
    p: AggV,
    chunk: DataChunk,
    ids: Seq<Vec<u64>>,
    x: Supply,
)
    requires
        plain_chain(b, p),
        holds_chain(b, p, chunk),
        degree_of(p) is Some,
        plan_groups(b.g, p, chunk, ids, x) is Groups,
        groupable(end_values(p, ids, x, counted(degree_ends(b.g, p)))),
    ensures
        ({
            let ns = counted(degree_ends(b.g, p));
            let vs = end_values(p, ids, x, ns);
            &&& plan_groups(b.g, p, chunk, ids, x)->Groups_0 == lone_keys(first_seen(vs))
            &&& counts_of(plan_groups(b.g, p, chunk, ids, x)->Groups_1, degree_of(p)->0.end)
                == merged(vs, ns)
        }),
{
    let es = degree_ends(b.g, p);
    let f = |id: u64| end_value(p, ids, x, id);
    let ns = counted(es);
    let ds = first_seen(es);
    let vs = end_values(p, ids, x, ns);
    lemma_one_step(b, p, chunk);
    assert(vs =~= ds.map_values(f));
    assert(ns =~= met_of(ds, es));
    table::law_first_seen_same(es);
    let all = es.map_values(f);
    assert(groupable(all)) by {
        assert forall|i: int| 0 <= i < all.len() implies !((#[trigger] all[i]) is Nan) by {
            assert(es.contains(es[i]));
            let j = choose|j: int| 0 <= j < ds.len() && ds[j] == es[i];
            assert(vs[j] == all[i]);
        }
    }
    lemma_rows_grouped(b.g, p, chunk, ids, x, 0, 1, es);
    lemma_first_values(es, f);
    table::law_first_seen_same(all);
    let fs = first_seen(all);
    let gs = plan_groups(b.g, p, chunk, ids, x)->Groups_1;
    assert(counts_of(gs, 1) =~= merged(vs, ns)) by {
        assert forall|i: int| 0 <= i < gs.len() implies #[trigger] counts_of(gs, 1)[i] == merged(
            vs,
            ns,
        )[i] by {
            assert(gs[i].ids[1] == es[position(all, fs[i])->0]);
            lemma_sum_is_occurs(ds, es, f, fs[i]);
            assert(fs.contains(fs[i]));
            assert(all.contains(fs[i]));
            assert(es[position(all, fs[i])->0] == ds[position(vs, fs[i])->0]);
            table::law_first_seen_same(vs);
            assert(first_seen(vs).contains(fs[i]));
            names::lemma_position(vs, fs[i]);
        }
    }
}

/// One type's relationships are not another's.
pub proof fn lemma_types_apart(g: Graph, a: Seq<Seq<char>>, b: Seq<Seq<char>>, rel: u64)
    requires
        g.wf(),
        a.len() == 1,
        b.len() == 1,
        a != b,
        g.rel_typed(rel, g.type_tokens(a)),
    ensures
        !g.rel_typed(rel, g.type_tokens(b)),
{
    reveal_with_fuel(Graph::tokens_of, 2);
    let all = names::of(g.types@);
    names::lemma_position(all, a[0]);
    names::lemma_position(all, b[0]);
    assert(a[0] != b[0]) by {
        if a[0] == b[0] {
            assert(a =~= b);
        }
    }
    assert(a.drop_last() =~= Seq::empty() && b.drop_last() =~= Seq::empty());
    let ta = g.type_tokens(a);
    let tb = g.type_tokens(b);
    if g.rel_typed(rel, tb) {
        let (s1, n1, i1) = choose|s: bool, n: int, i: int| #[trigger]
            g.has_entry(s, n, i) && g.entry(s, n, i).rel == rel && crate::graph::admits(
                ta,
                g.entry(s, n, i).typ,
            );
        let (s2, n2, i2) = choose|s: bool, n: int, i: int| #[trigger]
            g.has_entry(s, n, i) && g.entry(s, n, i).rel == rel && crate::graph::admits(
                tb,
                g.entry(s, n, i).typ,
            );
        assert(g.has_entry(s1, n1, i1) && g.has_entry(s2, n2, i2));
        assert(g.entry(s1, n1, i1).typ == g.entry(s2, n2, i2).typ);
        let t = g.entry(s1, n1, i1).typ;
        assert(ta->0.contains(t) && tb->0.contains(t));
        assert(position(all, a[0])->0 == t as int);
        assert(position(all, b[0])->0 == t as int);
        assert(false);
    }
}

/// A hop over another type than the one before it is kept from no edge.
pub proof fn lemma_second_hop(
    g: Graph,
    one: HopV,
    two: HopV,
    a: Seq<Seq<char>>,
    b: Seq<Seq<char>>,
    from: Seq<RowV>,
    i: int,
)
    requires
        g.wf(),
        a.len() == 1,
        b.len() == 1,
        a != b,
        one.tokens == g.type_tokens(a),
        two.tokens == g.type_tokens(b),
        !one.rel_col,
        forall|q: int| 0 <= q < from.len() ==> (#[trigger] from[q]).used.len() == 0,
        0 <= i < chunk::expand_rows(g, one, from).len(),
    ensures
        tally::unbarred(g, two, chunk::expand_rows(g, one, from)[i]),
{
    let row = chunk::expand_rows(g, one, from)[i];
    let q = lemma_expanded(g, one, from, i);
    let way = g.adj(row.ids[two.src], two.dir, two.tokens);
    let base = chunk::base_of(row, two.track, two.reset);
    assert forall|j: int| 0 <= j < way.len() implies !(two.track && base.contains(
        (#[trigger] way[j]).rel,
    )) by {
        if two.track && base.contains(way[j].rel) {
            let k = choose|k: int| 0 <= k < base.len() && base[k] == way[j].rel;
            assert(row.used[k] == way[j].rel);
            assert(from[q].used.len() == 0);
            assert(g.rel_typed(way[j].rel, one.tokens));
            lemma_types_apart(g, a, b, way[j].rel);
            assert(way.reverse()[way.len() - 1 - j] == way[j]);
            lemma_adj_typed(g, row.ids[two.src], two, way[j]);
            assert(false);
        }
    }
}

/// The rows of a chain of two plain steps.
proof fn lemma_two_steps(b: BuildV, p: AggV, chunk: DataChunk)
    requires
        plain_chain(b, p),
        holds_chain(b, p, chunk),
        rollup_of(p) is Some,
    ensures
        rollup_of(p)->0.start == 0,
        rollup_of(p)->0.mid == 1,
        rollup_of(p)->0.end == 2,
        forall|e: u64|
            occurs(chunk.live_view().map_values(|r: RowV| r.ids[2]), e) == #[trigger] occurs(
                far_ends(b.g, p),
                e,
            ),
        forall|i: int|
            0 <= i < chunk.live_view().len() ==> (#[trigger] chunk.live_view()[i]).ids[0] != NULL_ID
                && chunk.live_view()[i].ids[1] != NULL_ID,
{
    let ids = seeds::scan(b.g, p.chain.a_labels);
    let rows = chunk.live_view();
    let x = p.chain.a_var;
    let hs = p.chain.hops;
    assert(b.hops.len() == 2) by {
        assert(hop::steps_v(b.hops).len() == b.hops.len());
    }
    let s0 = chain_rows::seed_of(b, x, ids);
    assert(s0.pending =~= Seq::empty());
    lemma_settle_none(b, s0);
    assert(built(b, x, ids, 0) == Built::At(s0));
    assert(built(b, x, ids, 1) is At);
    lemma_built_step(b, p, 0, ids);
    lemma_built_step(b, p, 1, ids);
    let s1 = built(b, x, ids, 1)->At_0;
    let h1 = step_of(b, 0);
    let h2 = step_of(b, 1);
    let vars = p.chain.vars;
    assert(vars =~= seq![x, hs[0].var, hs[1].var]);
    names::lemma_position(vars, x);
    names::lemma_position(vars, hs[0].var);
    names::lemma_position(vars, hs[1].var);
    assert(vars[0] == x && vars[1] == hs[0].var && vars[2] == hs[1].var);
    let from = s0.rows;
    let mid = s1.rows;
    let w1 = walk_of(b.g, hs[0], true);
    let w2 = walk_of(b.g, hs[1], true);
    assert forall|i: int| 0 <= i < from.len() implies tally::unbarred(b.g, h1, #[trigger] from[i]) by {
        assert(from[i].used.len() == 0);
    }
    tally::law_ends_are_expanded(b.g, w1, h1, from);
    assert forall|i: int| 0 <= i < mid.len() implies (#[trigger] mid[i]).ids.len() == 2
        && mid[i].ids[0] != NULL_ID && tally::unbarred(b.g, h2, mid[i]) by {
        let q = lemma_expanded(b.g, h1, from, i);
        assert(from[q].ids.len() == 1);
        assert(mid[i].ids[0] == from[q].ids[0]);
        lemma_scan_bound(b.g, p.chain.a_labels, q);
        let way = b.g.adj(mid[i].ids[h2.src], h2.dir, h2.tokens);
        let base = chunk::base_of(mid[i], h2.track, h2.reset);
        assert forall|j: int| 0 <= j < way.len() implies !(h2.track && base.contains(
            (#[trigger] way[j]).rel,
        )) by {
            if h2.track && base.contains(way[j].rel) {
                let k = choose|k: int| 0 <= k < base.len() && base[k] == way[j].rel;
                assert(mid[i].used[k] == way[j].rel);
                assert(from[q].used.len() == 0);
                assert(b.g.rel_typed(way[j].rel, h1.tokens));
                lemma_types_apart(b.g, hs[0].types, hs[1].types, way[j].rel);
                assert(way.reverse()[way.len() - 1 - j] == way[j]);
                lemma_adj_typed(b.g, mid[i].ids[h2.src], h2, way[j]);
                assert(false);
            }
        }
    }
    tally::law_ends_are_expanded(b.g, w2, h2, mid);
    assert forall|i: int| 0 <= i < rows.len() implies (#[trigger] rows[i]).ids.len() == 3
        && rows[i].ids[0] != NULL_ID && rows[i].ids[1] != NULL_ID by {
        let q = lemma_expanded(b.g, h2, mid, i);
        assert(mid[q].ids.len() == 2);
        assert(rows[i].ids[0] == mid[q].ids[0]);
        assert(rows[i].ids[1] == mid[q].ids[1]);
        lemma_mid_bound(b.g, h1, from, q);
    }
    let ends = rows.map_values(|r: RowV| r.ids[2]);
    let mids = mid.map_values(|r: RowV| r.ids[1]);
    assert(ends =~= rows.map_values(|r: RowV| r.ids.last()));
    assert(mids =~= mid.map_values(|r: RowV| r.ids.last()));
    assert(mid.map_values(|r: RowV| r.ids[h2.src]) =~= mids);
    assert(ends == all_ends(b.g, w2, mids));
    if chain_rows::edgeless(b.g, b.hops) {
        assert(from =~= Seq::empty());
        let i = choose|i: int|
            0 <= i < b.hops.len() && (b.g.type_tokens(names::of((#[trigger] b.hops[i]).types@)) matches Some(
                t,
            ) && t.len() == 0);
        assert(hop::steps_v(b.hops)[i] == b.hops[i].v());
        let f1 = walk_of(b.g, hs[0], false);
        let f2 = walk_of(b.g, hs[1], false);
        if i == 0 {
            lemma_no_ends(b.g, f1, ids);
            assert(mid_ends(b.g, p) =~= Seq::empty());
        } else {
            lemma_no_ends(b.g, f2, mid_ends(b.g, p));
        }
        assert(far_ends(b.g, p) =~= Seq::empty());
        assert(mid =~= Seq::empty());
        assert(ends =~= Seq::empty());
    } else {
        assert(from.map_values(|r: RowV| r.ids[h1.src]) =~= ids);
        assert(mids == all_ends(b.g, w1, ids));
        let f1 = walk_of(b.g, hs[0], false);
        let f2 = walk_of(b.g, hs[1], false);
        assert forall|n: u64| #[trigger] occurs(mids, n) == occurs(mid_ends(b.g, p), n) by {
            tally::law_way_does_not_count(b.g, f1, ids, n);
        }
        assert forall|e: u64| #[trigger] occurs(ends, e) == occurs(far_ends(b.g, p), e) by {
            tally::law_way_does_not_count(b.g, f2, mids, e);
            tally::law_order_does_not_count(b.g, f2, mids, mid_ends(b.g, p), e);
        }
    }
}

/// An end of a relationship is a node.
proof fn lemma_mid_bound(g: Graph, h: HopV, rows: Seq<RowV>, i: int)
    requires
        g.wf(),
        g.labels@.len() <= u64::MAX,
        !h.rel_col,
        0 <= i < chunk::expand_rows(g, h, rows).len(),
        forall|q: int| 0 <= q < rows.len() ==> (#[trigger] rows[q]).ids.len() == 1,
    ensures
        chunk::expand_rows(g, h, rows)[i].ids[1] != NULL_ID,
    decreases rows.len(),
{
    let p = rows.drop_last();
    let row = rows.last();
    let head = chunk::expand_rows(g, h, p);
    if i < head.len() {
        assert forall|q: int| 0 <= q < p.len() implies (#[trigger] p[q]).ids.len() == 1 by {
            assert(rows[q] == p[q]);
        }
        lemma_mid_bound(g, h, p, i);
    } else {
        assert(rows[rows.len() - 1].ids.len() == 1);
        let base = chunk::base_of(row, h.track, h.reset);
        let way = g.adj(row.ids[h.src], h.dir, h.tokens);
        let keep = |e: Adj| chunk::expand_keeps(h, base, e);
        let make = |e: Adj| chunk::expand_makes(h, row, base, e);
        let e = seqs::lemma_keep_map_at(way.reverse(), keep, make, i - head.len());
        let k = choose|k: int| 0 <= k < way.reverse().len() && way.reverse()[k] == e;
        crate::match_law::lemma_peer_in(g, row.ids[h.src], h.dir, h.tokens, way.len() - 1 - k);
    }
}

/// Counting over two hops is aggregating: where an aggregate over the rows of a
/// chain groups them, there are as many groups as values of the far ends, and
/// each has the sum of the counts of the far ends with its value. The groups come
/// in another order.
pub proof fn law_rollup_is_aggregate(
    b: BuildV,
    p: AggV,
    chunk: DataChunk,
    ids: Seq<Vec<u64>>,
    x: Supply,
    ns: Seq<(u64, i64)>,
)
    requires
        plain_chain(b, p),
        holds_chain(b, p, chunk),
        rollup_of(p) is Some,
        plan_groups(b.g, p, chunk, ids, x) is Groups,
        degree::ids_of(ns).no_duplicates(),
        forall|e: u64| #[trigger]
            degree::ids_of(ns).contains(e) <==> far_ends(b.g, p).contains(e),
        forall|i: int|
            0 <= i < ns.len() ==> (#[trigger] ns[i]).1 == occurs(far_ends(b.g, p), ns[i].0),
        groupable(end_values(p, ids, x, degree::pairs_v(ns))),
    ensures
        ({
            let vs = end_values(p, ids, x, degree::pairs_v(ns));
            let keys = plan_groups(b.g, p, chunk, ids, x)->Groups_0;
            let gs = plan_groups(b.g, p, chunk, ids, x)->Groups_1;
            &&& keys.len() == gs.len() == merged(vs, degree::pairs_v(ns)).len()
            &&& forall|i: int|
                0 <= i < keys.len() ==> {
                    &&& (#[trigger] keys[i]).len() == 1
                    &&& position(first_seen(vs), keys[i][0]) is Some
                    &&& taken_of(gs[i].accs[0]) == merged(vs, degree::pairs_v(ns))[position(
                        first_seen(vs),
                        keys[i][0],
                    )->0].1
                }
        }),
{
    let far = far_ends(b.g, p);
    let es = chunk.live_view().map_values(|r: RowV| r.ids[2]);
    let f = |id: u64| end_value(p, ids, x, id);
    let nv = degree::pairs_v(ns);
    let ds = degree::ids_of(ns);
    let vs = end_values(p, ids, x, nv);
    lemma_two_steps(b, p, chunk);
    assert(vs =~= ds.map_values(f));
    assert(nv =~= met_of(ds, es)) by {
        assert forall|i: int| 0 <= i < nv.len() implies #[trigger] nv[i] == met_of(ds, es)[i] by {
            assert(ns[i].1 == occurs(far, ns[i].0));
            assert(occurs(es, ns[i].0) == occurs(far, ns[i].0));
        }
    }
    assert forall|e: u64| #[trigger] ds.contains(e) <==> es.contains(e) by {
        tally::lemma_occurs_holds(es, e);
        tally::lemma_occurs_holds(far, e);
        assert(occurs(es, e) == occurs(far, e));
        assert(degree::ids_of(ns).contains(e) <==> far.contains(e));
    }
    let all = es.map_values(f);
    assert forall|v: ValV| all.contains(v) <==> vs.contains(v) by {
        if all.contains(v) {
            let i = choose|i: int| 0 <= i < all.len() && all[i] == v;
            assert(es.contains(es[i]));
            assert(ds.contains(es[i]));
            let j = choose|j: int| 0 <= j < ds.len() && ds[j] == es[i];
            assert(vs[j] == v);
        }
        if vs.contains(v) {
            let i = choose|i: int| 0 <= i < vs.len() && vs[i] == v;
            assert(ds.contains(ds[i]));
            assert(es.contains(ds[i]));
            let j = choose|j: int| 0 <= j < es.len() && es[j] == ds[i];
            assert(all[j] == v);
        }
    }
    assert(groupable(all)) by {
        assert forall|i: int| 0 <= i < all.len() implies !((#[trigger] all[i]) is Nan) by {
            assert(all.contains(all[i]));
            assert(vs.contains(all[i]));
            let j = choose|j: int| 0 <= j < vs.len() && vs[j] == all[i];
            assert(!(vs[j] is Nan));
        }
    }
    let start = degree::counted_var(p.sites, p.site_args)->0;
    lemma_rows_grouped(b.g, p, chunk, ids, x, start, 2, es);
    let fs = first_seen(all);
    let ws = first_seen(vs);
    table::law_first_seen_same(all);
    table::law_first_seen_same(vs);
    assert forall|v: ValV| fs.contains(v) <==> ws.contains(v) by {
        assert(all.contains(v) <==> vs.contains(v));
        assert(fs.contains(v) <==> all.contains(v));
        assert(ws.contains(v) <==> vs.contains(v));
    }
    lemma_same_size(fs, ws);
    let keys = plan_groups(b.g, p, chunk, ids, x)->Groups_0;
    let gs = plan_groups(b.g, p, chunk, ids, x)->Groups_1;
    assert forall|i: int| 0 <= i < keys.len() implies {
        &&& (#[trigger] keys[i]).len() == 1
        &&& position(ws, keys[i][0]) is Some
        &&& taken_of(gs[i].accs[0]) == merged(vs, nv)[position(ws, keys[i][0])->0].1
    } by {
        assert(keys[i] == seq![fs[i]]);
        assert(fs.contains(fs[i]) <==> ws.contains(fs[i]));
        assert(fs.contains(fs[i]));
        names::lemma_position(ws, fs[i]);
        lemma_sum_is_occurs(ds, es, f, fs[i]);
        assert(gs[i].ids[2] == es[position(all, fs[i])->0]);
    }
}

proof fn lemma_same_size(a: Seq<ValV>, b: Seq<ValV>)
    requires
        a.no_duplicates(),
        b.no_duplicates(),
        forall|v: ValV| a.contains(v) <==> b.contains(v),
    ensures
        a.len() == b.len(),
{
    a.unique_seq_to_set();
    b.unique_seq_to_set();
    assert(a.to_set() =~= b.to_set()) by {
        assert forall|v: ValV| a.to_set().contains(v) <==> b.to_set().contains(v) by {
            assert(a.contains(v) <==> b.contains(v));
        }
    }
}

/// Where a count goes among counts that are in order: behind those that are not
/// smaller.
pub open spec fn slot(s: Seq<(u64, int)>, n: int) -> int
    decreases s.len(),
{
    if s.len() == 0 || s[0].1 < n {
        0
    } else {
        1 + slot(s.skip(1), n)
    }
}

/// Counts in order, the largest first, and equal ones as they were.
pub open spec fn by_count(ns: Seq<(u64, int)>) -> Seq<(u64, int)>
    decreases ns.len(),
{
    if ns.len() == 0 {
        Seq::empty()
    } else {
        let s = by_count(ns.drop_last());
        s.insert(slot(s, ns.last().1), ns.last())
    }
}

spec fn falls(s: Seq<(u64, int)>) -> bool {
    forall|i: int, j: int| 0 <= i < j < s.len() ==> (#[trigger] s[i]).1 >= (#[trigger] s[j]).1
}

proof fn lemma_slot(s: Seq<(u64, int)>, n: int)
    ensures
        0 <= slot(s, n) <= s.len(),
        forall|i: int| 0 <= i < slot(s, n) ==> (#[trigger] s[i]).1 >= n,
        slot(s, n) < s.len() ==> s[slot(s, n)].1 < n,
    decreases s.len(),
{
    if s.len() > 0 && s[0].1 >= n {
        let r = s.skip(1);
        lemma_slot(r, n);
        assert forall|i: int| 0 <= i < slot(s, n) implies (#[trigger] s[i]).1 >= n by {
            if i > 0 {
                assert(r[i - 1] == s[i]);
            }
        }
        if slot(r, n) < r.len() {
            assert(r[slot(r, n)] == s[slot(s, n)]);
        }
    }
}

/// The slot is where the larger and equal ones end.
proof fn lemma_slot_is(s: Seq<(u64, int)>, n: int, k: int)
    requires
        0 <= k <= s.len(),
        forall|i: int| 0 <= i < k ==> (#[trigger] s[i]).1 >= n,
        k < s.len() ==> s[k].1 < n,
    ensures
        slot(s, n) == k,
{
    lemma_slot(s, n);
    let m = slot(s, n);
    if m < k {
        assert(s[m].1 >= n);
    } else if k < m {
        assert(s[k].1 >= n);
    }
}

proof fn lemma_by_count(ns: Seq<(u64, int)>)
    ensures
        falls(by_count(ns)),
        by_count(ns).len() == ns.len(),
        forall|n: int| #[trigger] degree::above(by_count(ns), n) == degree::above(ns, n),
    decreases ns.len(),
{
    if ns.len() > 0 {
        let p = ns.drop_last();
        let x = ns.last();
        lemma_by_count(p);
        let s = by_count(p);
        let k = slot(s, x.1);
        lemma_slot(s, x.1);
        let t = s.insert(k, x);
        assert forall|i: int, j: int| 0 <= i < j < t.len() implies (#[trigger] t[i]).1 >= (
        #[trigger] t[j]).1 by {
            if i < k && j > k {
                assert(s[i].1 >= s[j - 1].1);
            } else if i < k && j < k {
                assert(s[i].1 >= s[j].1);
            } else if i == k {
                assert(s[k].1 < x.1);
                if j - 1 > k {
                    assert(s[k].1 >= s[j - 1].1);
                }
            } else if i > k {
                assert(s[i - 1].1 >= s[j - 1].1);
            }
        }
        assert forall|n: int| #[trigger] degree::above(t, n) == degree::above(ns, n) by {
            assert(t =~= s.take(k) + seq![x] + s.skip(k));
            lemma_above_add(s.take(k) + seq![x], s.skip(k), n);
            lemma_above_add(s.take(k), seq![x], n);
            lemma_above_add(s.take(k), s.skip(k), n);
            assert(s.take(k) + s.skip(k) =~= s);
            assert(seq![x].drop_last() =~= Seq::empty());
            reveal_with_fuel(degree::above, 2);
            assert(degree::above(s, n) == degree::above(p, n));
        }
    }
}

proof fn lemma_above_add(a: Seq<(u64, int)>, b: Seq<(u64, int)>, n: int)
    ensures
        degree::above(a + b, n) == degree::above(a, n) + degree::above(b, n),
    decreases b.len(),
{
    if b.len() == 0 {
        assert(a + b =~= a);
    } else {
        assert((a + b).drop_last() =~= a + b.drop_last());
        lemma_above_add(a, b.drop_last(), n);
    }
}

/// Of counts in order, fewer come before one than are larger: those that are
/// larger stand before it.
proof fn lemma_above_falls(s: Seq<(u64, int)>, i: int)
    requires
        falls(s),
        0 <= i < s.len(),
    ensures
        degree::above(s, s[i].1) <= i,
{
    let n = s[i].1;
    assert(s =~= s.take(i) + s.skip(i));
    lemma_above_add(s.take(i), s.skip(i), n);
    lemma_above_most(s.take(i), n);
    assert forall|j: int| 0 <= j < s.skip(i).len() implies (#[trigger] s.skip(i)[j]).1 <= n by {
        if j > 0 {
            assert(s[i].1 >= s[i + j].1);
        }
    }
    lemma_above_none(s.skip(i), n);
}

proof fn lemma_above_most(s: Seq<(u64, int)>, n: int)
    ensures
        degree::above(s, n) <= s.len(),
    decreases s.len(),
{
    if s.len() > 0 {
        lemma_above_most(s.drop_last(), n);
    }
}

proof fn lemma_above_none(s: Seq<(u64, int)>, n: int)
    requires
        forall|j: int| 0 <= j < s.len() ==> (#[trigger] s[j]).1 <= n,
    ensures
        degree::above(s, n) == 0,
    decreases s.len(),
{
    if s.len() > 0 {
        assert forall|j: int| 0 <= j < s.drop_last().len() implies (#[trigger] s.drop_last()[j]).1
            <= n by {
            assert(s[j] == s.drop_last()[j]);
        }
        lemma_above_none(s.drop_last(), n);
        assert(s[s.len() - 1].1 <= n);
    }
}

/// Dropping counts before they are ordered is dropping them after.
proof fn lemma_by_count_filter(ns: Seq<(u64, int)>, pass: spec_fn((u64, int)) -> bool)
    ensures
        by_count(ns.filter(pass)) == by_count(ns).filter(pass),
    decreases ns.len(),
{
    seqs::lemma_filter_empty(pass);
    if ns.len() == 0 {
        assert(ns =~= Seq::empty());
    } else {
        let p = ns.drop_last();
        let x = ns.last();
        lemma_by_count_filter(p, pass);
        lemma_by_count(p);
        seqs::lemma_filter_last(ns, pass);
        let s = by_count(p);
        let k = slot(s, x.1);
        lemma_slot(s, x.1);
        let a = s.take(k);
        let b = s.skip(k);
        let t = s.insert(k, x);
        assert(s =~= a + b);
        assert(t =~= a + seq![x] + b);
        Seq::filter_distributes_over_add(a, b, pass);
        Seq::filter_distributes_over_add(a + seq![x], b, pass);
        Seq::filter_distributes_over_add(a, seq![x], pass);
        seqs::lemma_filter_last(seq![x], pass);
        assert(seq![x].drop_last() =~= Seq::empty());
        let fa = a.filter(pass);
        let fb = b.filter(pass);
        if pass(x) {
            assert(seq![x].filter(pass) =~= seq![x]);
            assert(p.filter(pass).push(x).drop_last() =~= p.filter(pass));
            let f = s.filter(pass);
            assert(f =~= fa + fb);
            assert forall|i: int| 0 <= i < fa.len() implies (#[trigger] f[i]).1 >= x.1 by {
                assert(fa.contains(fa[i]));
                seqs::lemma_filter_contains(a, pass, fa[i]);
                let q = choose|q: int| 0 <= q < a.len() && a[q] == fa[i];
                assert(s[q] == fa[i]);
            }
            if fa.len() < f.len() {
                assert(fb.contains(fb[0]));
                seqs::lemma_filter_contains(b, pass, fb[0]);
                let q = choose|q: int| 0 <= q < b.len() && b[q] == fb[0];
                assert(s[k + q] == fb[0]);
                assert(s[k].1 < x.1);
                if q > 0 {
                    assert(s[k].1 >= s[k + q].1);
                }
                assert(f[fa.len() as int] == fb[0]);
            }
            lemma_slot_is(f, x.1, fa.len() as int);
            assert(f.insert(fa.len() as int, x) =~= fa + seq![x] + fb);
            assert(t.filter(pass) =~= fa + seq![x] + fb);
        } else {
            assert(seq![x].filter(pass) =~= Seq::empty());
            assert(t.filter(pass) =~= fa + fb);
        }
    }
}

/// What passes throughout a prefix stays there.
proof fn lemma_filter_prefix(s: Seq<(u64, int)>, pass: spec_fn((u64, int)) -> bool, m: int)
    requires
        0 <= m <= s.len(),
        forall|i: int| 0 <= i < m ==> pass(#[trigger] s[i]),
    ensures
        m <= s.filter(pass).len(),
        s.filter(pass).take(m) == s.take(m),
{
    let a = s.take(m);
    let b = s.skip(m);
    assert(s =~= a + b);
    Seq::filter_distributes_over_add(a, b, pass);
    lemma_filter_whole(a, pass);
    assert((a + b.filter(pass)).take(m) =~= a);
}

proof fn lemma_filter_whole(s: Seq<(u64, int)>, pass: spec_fn((u64, int)) -> bool)
    requires
        forall|i: int| 0 <= i < s.len() ==> pass(#[trigger] s[i]),
    ensures
        s.filter(pass) == s,
    decreases s.len(),
{
    seqs::lemma_filter_empty(pass);
    if s.len() == 0 {
        assert(s =~= Seq::empty());
    } else {
        assert forall|i: int| 0 <= i < s.drop_last().len() implies pass(
            #[trigger] s.drop_last()[i],
        ) by {
            assert(s[i] == s.drop_last()[i]);
        }
        lemma_filter_whole(s.drop_last(), pass);
        seqs::lemma_filter_last(s, pass);
        assert(pass(s[s.len() - 1]));
        assert(s =~= s.drop_last().push(s.last()));
    }
}

/// Leaving out counts that cannot reach a page changes no page: the first counts,
/// the largest first and equal ones in the order in which they are first seen, are
/// the same up to the end of the page.
pub proof fn law_page_is_kept(p: query::ProjV, skip: int, limit: int, ns: Seq<(u64, int)>)
    requires
        0 <= skip,
        0 <= limit,
        degree::largest_first(p),
    ensures
        ({
            let kept = by_count(degree::paged(p, Some((skip, limit)), ns));
            let all = by_count(ns);
            let end = if skip + limit < ns.len() {
                skip + limit
            } else {
                ns.len() as int
            };
            &&& end <= kept.len()
            &&& kept.take(end) == all.take(end)
        }),
{
    let keep = skip + limit;
    lemma_by_count(ns);
    if 0 < keep < ns.len() {
        let pass = |c: (u64, int)| degree::above(ns, c.1) < keep;
        let all = by_count(ns);
        lemma_by_count_filter(ns, pass);
        assert forall|i: int| 0 <= i < keep implies pass(#[trigger] all[i]) by {
            lemma_above_falls(all, i);
            assert(degree::above(all, all[i].1) == degree::above(ns, all[i].1));
        }
        lemma_filter_prefix(all, pass, keep);
        assert(degree::paged(p, Some((skip, limit)), ns) == ns.filter(pass));
    }
}

/// Groups of counts hold the counts.
proof fn lemma_counts_of_groups(width: nat, at: int, ns: Seq<(u64, int)>)
    requires
        0 <= at < width,
    ensures
        counts_of(degree::count_groups(width, at, ns), at) == ns,
{
    let gs = degree::count_groups(width, at, ns);
    assert forall|i: int| 0 <= i < ns.len() implies counts_of(gs, at)[i] == ns[i] by {
        assert(gs[i].ids[at] == ns[i].0);
        assert(gs[i].accs[0] == AccV::Count(ns[i].1));
    }
    assert(counts_of(gs, at) =~= ns);
}

/// The degree short cut answers as the aggregate does: its groups, by the ends that
/// they are first bound at and their counts, are those of the aggregate over the
/// rows, in the same order. Where the largest counts come first and only a page is
/// asked for, they are the same up to the end of the page.
pub proof fn law_degree_answers_as_aggregate(
    b: BuildV,
    p: AggV,
    chunk: DataChunk,
    ids: Seq<Vec<u64>>,
    x: Supply,
    page: Option<(int, int)>,
)
    requires
        plain_chain(b, p),
        holds_chain(b, p, chunk),
        degree_of(p) is Some,
        plan_groups(b.g, p, chunk, ids, x) is Groups,
        groupable(end_values(p, ids, x, counted(degree_ends(b.g, p)))),
        page matches Some((skip, limit)) ==> 0 <= skip && 0 <= limit,
    ensures
        ({
            let ns = counted(degree_ends(b.g, p));
            let vs = end_values(p, ids, x, ns);
            let at = degree_of(p)->0.end;
            let all = counts_of(plan_groups(b.g, p, chunk, ids, x)->Groups_1, at);
            degree::degree_groups_of(p, degree_of(p)->0, ns, vs, page) matches Some(gs) && match (
                page,
                p.form,
            ) {
                (Some((skip, limit)), FormV::Return(proj)) => if degree::largest_first(proj) {
                    let end = if skip + limit < all.len() {
                        skip + limit
                    } else {
                        all.len() as int
                    };
                    end <= by_count(counts_of(gs, at)).len() && by_count(counts_of(gs, at)).take(
                        end,
                    ) == by_count(all).take(end)
                } else {
                    counts_of(gs, at) == all
                },
                _ => counts_of(gs, at) == all,
            }
        }),
{
    let ns = counted(degree_ends(b.g, p));
    let vs = end_values(p, ids, x, ns);
    let at = degree_of(p)->0.end;
    law_degree_is_aggregate(b, p, chunk, ids, x);
    lemma_one_step(b, p, chunk);
    let all = merged(vs, ns);
    match p.form {
        FormV::Return(proj) => {
            let kept = degree::paged(proj, page, all);
            assert(p.chain.vars.len() > at) by {
                names::lemma_position(p.chain.vars, p.chain.hops[0].var);
            }
            lemma_counts_of_groups(p.chain.vars.len(), at, kept);
            match page {
                Some((skip, limit)) => {
                    if degree::largest_first(proj) {
                        law_page_is_kept(proj, skip, limit, all);
                    }
                },
                None => {},
            }
        },
        _ => {},
    }
}

} // verus!
