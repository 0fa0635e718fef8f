//! What groups hold: each has the rows with its key, in order, and its aggregates are fed
//! what their operands come to in those rows.

use vstd::prelude::*;

use crate::chunk::{DataChunk, RowV};
use crate::graph::{Graph, VarKind, NULL_ID};
use crate::group::{bind_arg, bind_key, bound_args, bound_keys, plan_groups, plan_view, supplied, Supply};
use crate::group_laws;
use crate::names;
use crate::plan::{AggV, ArgV, SingleVar};
use crate::reduce;
use crate::reduce::{find_group, reduce, row_key, same_key, take_one, take_row, AccV, GroupV, ReduceV, Reduced, Taken, ValV};
use crate::seqs;

verus! {

/// What keys and operands come to: key or aggregate `k`, for an entity.
pub struct TellsV {
    pub key: spec_fn(int, u64) -> ValV,
    pub arg: spec_fn(int, u64) -> ValV,
}

/// What a variable stands for in a row: nothing where it is unbound.
pub open spec fn stands_for(kind: VarKind, id: u64) -> ValV {
    if id == NULL_ID {
        ValV::Null
    } else if kind is Node {
        ValV::Node(id)
    } else {
        ValV::Rel(id)
    }
}

/// What a key comes to in a row.
pub open spec fn key_in(p: AggV, kinds: Seq<VarKind>, t: TellsV, k: int, row: RowV) -> ValV {
    match p.group_keys[k].kind {
        SingleVar::Node(i) => stands_for(kinds[i as int], row.ids[i as int]),
        SingleVar::Col(i) => if row.ids[i as int] == NULL_ID {
            ValV::Null
        } else {
            (t.key)(k, row.ids[i as int])
        },
        SingleVar::Const => (t.key)(k, NULL_ID),
    }
}

/// What the keys come to in a row.
pub open spec fn keys_in(p: AggV, kinds: Seq<VarKind>, t: TellsV, row: RowV) -> Seq<ValV> {
    Seq::new(p.group_keys.len(), |k: int| key_in(p, kinds, t, k, row))
}

/// What the operand of an aggregate comes to in a row. A plain count only asks whether
/// there is something.
pub open spec fn arg_in(p: AggV, kinds: Seq<VarKind>, t: TellsV, s: int, row: RowV) -> ValV {
    match p.site_args[s] {
        ArgV::Star => ValV::Null,
        ArgV::Node(i) => if p.sites[s].name == "count"@ && !p.sites[s].distinct {
            if row.ids[i as int] == NULL_ID {
                ValV::Null
            } else {
                ValV::Bool(true)
            }
        } else {
            stands_for(kinds[i as int], row.ids[i as int])
        },
        ArgV::Col(i, _) => if row.ids[i as int] == NULL_ID {
            ValV::Null
        } else {
            (t.arg)(s, row.ids[i as int])
        },
        ArgV::Const(_) => (t.arg)(s, NULL_ID),
    }
}

/// Whether values are those that some entities have.
pub open spec fn tells_of(x: Option<Seq<ValV>>, ids: Seq<u64>, f: spec_fn(u64) -> ValV) -> bool {
    x matches Some(s) ==> s.len() == ids.len() && forall|j: int|
        0 <= j < ids.len() ==> #[trigger] s[j] == f(ids[j])
}

/// Whether supplied values are what keys and operands come to.
pub open spec fn supply_tells(p: AggV, ids: Seq<Vec<u64>>, x: Supply, t: TellsV) -> bool {
    &&& x.keys@.len() == p.group_keys.len()
    &&& x.args@.len() == p.site_args.len()
    &&& forall|k: int|
        0 <= k < p.group_keys.len() ==> match (#[trigger] p.group_keys[k]).kind {
            SingleVar::Col(i) => tells_of(
                supplied(x.keys@[k]),
                ids[i as int]@,
                |id: u64| (t.key)(k, id),
            ),
            SingleVar::Const => supplied(x.keys@[k]) matches Some(s) ==> s.len() == 1 && s[0] == (
            t.key)(k, NULL_ID),
            SingleVar::Node(_) => true,
        }
    &&& forall|s: int|
        0 <= s < p.site_args.len() ==> match #[trigger] p.site_args[s] {
            ArgV::Col(i, _) => tells_of(
                supplied(x.args@[s]),
                ids[i as int]@,
                |id: u64| (t.arg)(s, id),
            ),
            ArgV::Const(_) => supplied(x.args@[s]) matches Some(v) ==> v.len() == 1 && v[0] == (
            t.arg)(s, NULL_ID),
            _ => true,
        }
}

/// Whether the bound ids of rows are listed.
pub open spec fn lists_bound(ids: Seq<Vec<u64>>, rows: Seq<RowV>) -> bool {
    forall|v: int, r: int|
        0 <= v < ids.len() && 0 <= r < rows.len() && (#[trigger] rows[r]).ids[v] != NULL_ID ==> (
        #[trigger] ids[v])@.contains(rows[r].ids[v])
}

/// Whether the columns of a plan are there.
pub open spec fn plan_fits(p: AggV, width: int) -> bool {
    &&& p.sites.len() == p.site_args.len()
    &&& forall|k: int|
        0 <= k < p.group_keys.len() ==> match (#[trigger] p.group_keys[k]).kind {
            SingleVar::Node(i) => i < width,
            SingleVar::Col(i) => i < width,
            SingleVar::Const => true,
        }
    &&& forall|s: int|
        0 <= s < p.site_args.len() ==> match #[trigger] p.site_args[s] {
            ArgV::Node(i) => i < width,
            ArgV::Col(i, _) => i < width,
            _ => true,
        }
}

proof fn lemma_told(ids: Seq<u64>, s: Seq<ValV>, f: spec_fn(u64) -> ValV, id: u64)
    requires
        tells_of(Some(s), ids, f),
        id == NULL_ID || ids.contains(id),
    ensures
        reduce::col_value(ids, s, id) == if id == NULL_ID {
            ValV::Null
        } else {
            f(id)
        },
{
    if id != NULL_ID {
        names::lemma_position(ids, id);
        let j = names::position(ids, id)->0;
        assert(s[j] == f(ids[j]));
    }
}

/// The keys that rows are grouped by are what the keys come to.
proof fn lemma_row_key(
    p: AggV,
    kinds: Seq<VarKind>,
    ids: Seq<Vec<u64>>,
    x: Supply,
    t: TellsV,
    rows: Seq<RowV>,
    r: int,
)
    requires
        plan_fits(p, ids.len() as int),
        supply_tells(p, ids, x, t),
        lists_bound(ids, rows),
        0 <= r < rows.len(),
        bound_keys(p, ids, x.keys@) is Some,
    ensures
        row_key(bound_keys(p, ids, x.keys@)->0, kinds, rows[r]) == keys_in(p, kinds, t, rows[r]),
{
    let ks = bound_keys(p, ids, x.keys@)->0;
    let row = rows[r];
    let a = row_key(ks, kinds, row);
    let b = keys_in(p, kinds, t, row);
    assert forall|k: int| 0 <= k < p.group_keys.len() implies a[k] == b[k] by {
        let key = p.group_keys[k];
        assert(bind_key(p.group_keys[k], ids, supplied(x.keys@[k])) is Some);
        match key.kind {
            SingleVar::Col(i) => {
                let id = rows[r].ids[i as int];
                if id != NULL_ID {
                    assert(ids[i as int]@.contains(id));
                }
                if ids[i as int]@.len() > 0 {
                    let s = supplied(x.keys@[k])->0;
                    lemma_told(ids[i as int]@, s, |id: u64| (t.key)(k, id), id);
                }
            },
            _ => {},
        }
    }
    assert(a =~= b);
}

/// What aggregates are fed is what their operands come to.
proof fn lemma_row_arg(
    p: AggV,
    kinds: Seq<VarKind>,
    ids: Seq<Vec<u64>>,
    x: Supply,
    t: TellsV,
    rows: Seq<RowV>,
    r: int,
    s: int,
)
    requires
        plan_fits(p, ids.len() as int),
        supply_tells(p, ids, x, t),
        lists_bound(ids, rows),
        0 <= r < rows.len(),
        0 <= s < p.site_args.len(),
        bound_args(p, ids, x.args@) is Some,
    ensures
        match reduce::arg_value((bound_args(p, ids, x.args@)->0)[s], kinds, rows[r]) {
            Some(v) => v == arg_in(p, kinds, t, s, rows[r]),
            None => p.site_args[s] is Star,
        },
{
    assert(bind_arg(p.sites[s], p.site_args[s], ids, supplied(x.args@[s])) is Some);
    match p.site_args[s] {
        ArgV::Col(i, _) => {
            let id = rows[r].ids[i as int];
            if id != NULL_ID {
                assert(ids[i as int]@.contains(id));
            }
            if ids[i as int]@.len() > 0 {
                let v = supplied(x.args@[s])->0;
                lemma_told(ids[i as int]@, v, |id: u64| (t.arg)(s, id), id);
            }
        },
        _ => {},
    }
}

/// Whether a key tells itself: no part of it equals nothing.
pub open spec fn tells_itself(key: Seq<ValV>) -> bool {
    forall|i: int| 0 <= i < key.len() ==> !((#[trigger] key[i]) is Nan)
}

/// Whether a row has a key.
pub open spec fn has_key(p: ReduceV, key: Seq<ValV>) -> spec_fn(RowV) -> bool {
    |r: RowV| row_key(p.keys, p.kinds, r) == key
}

/// What an aggregate is fed from rows: the values that are there, in order.
pub open spec fn fed(p: ReduceV, s: int, rows: Seq<RowV>) -> Seq<ValV> {
    seqs::keep_map(
        rows,
        |r: RowV| reduce::arg_value(p.args[s], p.kinds, r) matches Some(v) && !(v is Null),
        |r: RowV| reduce::arg_value(p.args[s], p.kinds, r)->0,
    )
}

/// Whether an aggregate has taken rows.
spec fn took(p: ReduceV, s: int, rows: Seq<RowV>, a: AccV) -> bool {
    match p.fresh[s] {
        AccV::Count(_) => a is Count,
        AccV::Fed(_) => a == AccV::Fed(fed(p, s, rows)),
    }
}

spec fn fresh_ok(p: ReduceV) -> bool {
    &&& p.args.len() == p.fresh.len()
    &&& forall|s: int|
        0 <= s < p.fresh.len() ==> ((#[trigger] p.fresh[s]) matches AccV::Fed(v) ==> v.len() == 0)
}

proof fn lemma_fed_push(p: ReduceV, s: int, rows: Seq<RowV>, row: RowV)
    ensures
        fed(p, s, rows.push(row)) == match reduce::arg_value(p.args[s], p.kinds, row) {
            None => fed(p, s, rows),
            Some(ValV::Null) => fed(p, s, rows),
            Some(v) => fed(p, s, rows).push(v),
        },
{
    let keep = |r: RowV| reduce::arg_value(p.args[s], p.kinds, r) matches Some(v) && !(v is Null);
    let make = |r: RowV| reduce::arg_value(p.args[s], p.kinds, r)->0;
    let all = rows.push(row);
    seqs::lemma_filter_last(all, keep);
    assert(all.drop_last() =~= rows);
    if keep(row) {
        assert(rows.filter(keep).push(row).map_values(make) =~= rows.filter(keep).map_values(
            make,
        ).push(make(row)));
    }
}

proof fn lemma_take_row(p: ReduceV, accs: Seq<AccV>, row: RowV, n: nat)
    requires
        n <= p.args.len(),
        accs.len() == p.args.len(),
        take_row(accs, p.args, p.kinds, row, p.weighted, n) is Done,
    ensures
        ({
            let out = take_row(accs, p.args, p.kinds, row, p.weighted, n)->Done_0;
            &&& out.len() == accs.len()
            &&& forall|s: int|
                0 <= s < n ==> take_one(accs[s], p.args[s], p.kinds, row, p.weighted) == Taken::Done(
                    #[trigger] out[s],
                )
            &&& forall|s: int| n <= s < accs.len() ==> #[trigger] out[s] == accs[s]
        }),
    decreases n,
{
    if n > 0 {
        lemma_take_row(p, accs, row, (n - 1) as nat);
    }
}

/// Whether a group holds rows.
spec fn holds(p: ReduceV, key: Seq<ValV>, g: GroupV, rows: Seq<RowV>) -> bool {
    let mine = rows.filter(has_key(p, key));
    &&& g.accs.len() == p.fresh.len()
    &&& tells_itself(key) ==> mine.len() > 0 && g.ids == mine[0].ids && forall|s: int|
        0 <= s < p.fresh.len() ==> took(p, s, mine, #[trigger] g.accs[s])
}

proof fn lemma_holds(p: ReduceV, rows: Seq<RowV>)
    requires
        fresh_ok(p),
        reduce(p, rows) is Groups,
    ensures
        ({
            let keys = reduce(p, rows)->Groups_0;
            let groups = reduce(p, rows)->Groups_1;
            &&& keys.len() == groups.len()
            &&& forall|i: int| 0 <= i < keys.len() ==> holds(p, #[trigger] keys[i], groups[i], rows)
            &&& forall|i: int| 0 <= i < keys.len() ==> (#[trigger] keys[i]).len() == p.keys.len()
            &&& forall|r: int|
                0 <= r < rows.len() && tells_itself(row_key(p.keys, p.kinds, #[trigger] rows[r]))
                    ==> keys.contains(row_key(p.keys, p.kinds, rows[r]))
        }),
    decreases rows.len(),
{
    let keys = reduce(p, rows)->Groups_0;
    let groups = reduce(p, rows)->Groups_1;
    if rows.len() > 0 {
        let d = rows.drop_last();
        let row = rows.last();
        lemma_holds(p, d);
        let k0 = reduce(p, d)->Groups_0;
        let g0 = reduce(p, d)->Groups_1;
        let key = row_key(p.keys, p.kinds, row);
        reduce::lemma_find_none(k0, key);
        let (ks, gs, at) = match find_group(k0, key) {
            Some(i) => (k0, g0, i),
            None => (
                k0.push(key),
                g0.push(GroupV { ids: row.ids, accs: p.fresh }),
                g0.len() as int,
            ),
        };
        assert(keys == ks);
        let accs = take_row(gs[at].accs, p.args, p.kinds, row, p.weighted, p.args.len())->Done_0;
        assert(groups == gs.update(at, GroupV { ids: gs[at].ids, accs }));
        lemma_take_row(p, gs[at].accs, row, p.args.len());
        assert forall|i: int| 0 <= i < keys.len() implies holds(
            p,
            #[trigger] keys[i],
            groups[i],
            rows,
        ) by {
            let f = has_key(p, keys[i]);
            seqs::lemma_filter_last(rows, f);
            if i != at {
                assert(holds(p, k0[i], g0[i], d));
                if tells_itself(keys[i]) && f(row) {
                    lemma_same(key, keys[i]);
                    reduce::law_keys_differ(p, d, if i < at {
                        i
                    } else {
                        at
                    }, if i < at {
                        at
                    } else {
                        i
                    });
                    assert(false);
                }
            } else if at < k0.len() {
                assert(holds(p, k0[i], g0[i], d));
                lemma_same_is_equal(k0[at], key);
                let mine = d.filter(f);
                assert(rows.filter(f) == mine.push(row));
                if tells_itself(keys[i]) {
                    assert forall|s: int| 0 <= s < p.fresh.len() implies took(
                        p,
                        s,
                        mine.push(row),
                        #[trigger] groups[i].accs[s],
                    ) by {
                        assert(took(p, s, mine, g0[i].accs[s]));
                        assert(take_one(g0[i].accs[s], p.args[s], p.kinds, row, p.weighted)
                            == Taken::Done(accs[s]));
                        lemma_fed_push(p, s, mine, row);
                    }
                }
            } else {
                if tells_itself(key) {
                    let mine = d.filter(f);
                    assert(mine.len() == 0) by {
                        if mine.len() > 0 {
                            assert(mine.contains(mine[0]));
                            seqs::lemma_filter_contains(d, f, mine[0]);
                            let r = choose|r: int| 0 <= r < d.len() && d[r] == mine[0];
                            assert(tells_itself(row_key(p.keys, p.kinds, d[r])));
                            assert(k0.contains(key));
                            let j = choose|j: int| 0 <= j < k0.len() && k0[j] == key;
                            lemma_same(key, key);
                            assert(same_key(k0[j], key));
                        }
                    }
                    assert(mine =~= Seq::empty());
                    assert(rows.filter(f) =~= seq![row]);
                    assert forall|s: int| 0 <= s < p.fresh.len() implies took(
                        p,
                        s,
                        seq![row],
                        #[trigger] groups[i].accs[s],
                    ) by {
                        assert(take_one(p.fresh[s], p.args[s], p.kinds, row, p.weighted)
                            == Taken::Done(accs[s]));
                        lemma_fed_push(p, s, Seq::empty(), row);
                        lemma_fed_none(p, s);
                        assert(Seq::<RowV>::empty().push(row) =~= seq![row]);
                        if p.fresh[s] is Fed {
                            assert(p.fresh[s]->Fed_0 =~= Seq::empty());
                        }
                    }
                }
            }
        }
        assert forall|r: int|
            0 <= r < rows.len() && tells_itself(
                row_key(p.keys, p.kinds, #[trigger] rows[r]),
            ) implies keys.contains(row_key(p.keys, p.kinds, rows[r])) by {
            if r < d.len() {
                assert(rows[r] == d[r]);
                let k = row_key(p.keys, p.kinds, d[r]);
                assert(k0.contains(k));
                let j = choose|j: int| 0 <= j < k0.len() && k0[j] == k;
                assert(keys[j] == k);
            } else {
                assert(rows[r] == row);
                if at < k0.len() {
                    lemma_same_is_equal(k0[at], key);
                }
                assert(keys[at] == key);
            }
        }
    }
}

proof fn lemma_fed_none(p: ReduceV, s: int)
    ensures
        fed(p, s, Seq::empty()) == Seq::<ValV>::empty(),
{
    let keep = |r: RowV| reduce::arg_value(p.args[s], p.kinds, r) matches Some(v) && !(v is Null);
    seqs::lemma_filter_empty(keep);
    assert(fed(p, s, Seq::empty()) =~= Seq::empty());
}

proof fn lemma_same(a: Seq<ValV>, b: Seq<ValV>)
    requires
        a == b,
        tells_itself(a),
    ensures
        same_key(a, b),
{
}

proof fn lemma_same_is_equal(a: Seq<ValV>, b: Seq<ValV>)
    requires
        same_key(a, b),
    ensures
        a == b,
{
    assert forall|i: int| 0 <= i < a.len() implies a[i] == b[i] by {
        assert(reduce::same_val(a[i], b[i]));
    }
    assert(a =~= b);
}

/// The rows in which the keys come to some values.
pub open spec fn rows_of_key(
    p: AggV,
    kinds: Seq<VarKind>,
    t: TellsV,
    key: Seq<ValV>,
    rows: Seq<RowV>,
) -> Seq<RowV> {
    rows.filter(|r: RowV| keys_in(p, kinds, t, r) == key)
}

/// What the operand of an aggregate comes to in rows, where it comes to something.
pub open spec fn args_of_rows(
    p: AggV,
    kinds: Seq<VarKind>,
    t: TellsV,
    s: int,
    rows: Seq<RowV>,
) -> Seq<ValV> {
    rows.map_values(|r: RowV| arg_in(p, kinds, t, s, r)).filter(|v: ValV| !(v is Null))
}

/// What a plan groups rows into: there is one group for each value of the keys that some
/// row has, and it holds the ids of the first such row. An aggregate of a star counts
/// such rows, and any other is fed what its operand comes to in each of them, in order,
/// where it comes to something.
pub proof fn law_groups_hold_their_rows(
    g: Graph,
    p: AggV,
    chunk: DataChunk,
    ids: Seq<Vec<u64>>,
    x: Supply,
    t: TellsV,
)
    requires
        plan_groups(g, p, chunk, ids, x) is Groups,
        chunk.live_view().len() > 0,
        chunk.weights@.len() == 0,
        plan_fits(p, ids.len() as int),
        supply_tells(p, ids, x, t),
        lists_bound(ids, chunk.live_view()),
        forall|s: int| 0 <= s < p.sites.len() ==> (p.site_args[s] is Star <==> (#[trigger] p.sites[s]).star),
    ensures
        ({
            let rows = chunk.live_view();
            let kinds = chunk.var_kinds@;
            let keys = plan_groups(g, p, chunk, ids, x)->Groups_0;
            let groups = plan_groups(g, p, chunk, ids, x)->Groups_1;
            &&& keys.len() == groups.len()
            &&& forall|r: int|
                0 <= r < rows.len() && tells_itself(keys_in(p, kinds, t, #[trigger] rows[r]))
                    ==> keys.contains(keys_in(p, kinds, t, rows[r]))
            &&& forall|i: int|
                0 <= i < keys.len() && tells_itself(#[trigger] keys[i]) ==> {
                    let mine = rows_of_key(p, kinds, t, keys[i], rows);
                    &&& mine.len() > 0
                    &&& groups[i].ids == mine[0].ids
                    &&& groups[i].accs.len() == p.sites.len()
                    &&& forall|s: int|
                        0 <= s < p.sites.len() ==> #[trigger] groups[i].accs[s] == if p.sites[s].star {
                            AccV::Count(mine.len() as int)
                        } else {
                            AccV::Fed(args_of_rows(p, kinds, t, s, mine))
                        }
                }
            &&& forall|i: int, j: int|
                0 <= i < j < keys.len() && tells_itself(keys[i]) ==> #[trigger] keys[i]
                    != #[trigger] keys[j]
        }),
{
    let rows = chunk.live_view();
    let kinds = chunk.var_kinds@;
    let ks = bound_keys(p, ids, x.keys@)->0;
    let args = bound_args(p, ids, x.args@)->0;
    let v = plan_view(g, p, chunk, ks, args);
    let keys = reduce(v, rows)->Groups_0;
    let groups = reduce(v, rows)->Groups_1;
    assert(fresh_ok(v));
    lemma_holds(v, rows);
    assert forall|r: int| 0 <= r < rows.len() implies row_key(v.keys, v.kinds, #[trigger] rows[r])
        == keys_in(p, kinds, t, rows[r]) by {
        lemma_row_key(p, kinds, ids, x, t, rows, r);
    }
    assert forall|i: int| 0 <= i < keys.len() && tells_itself(#[trigger] keys[i]) implies {
        let mine = rows_of_key(p, kinds, t, keys[i], rows);
        &&& mine.len() > 0
        &&& groups[i].ids == mine[0].ids
        &&& groups[i].accs.len() == p.sites.len()
        &&& forall|s: int|
            0 <= s < p.sites.len() ==> #[trigger] groups[i].accs[s] == if p.sites[s].star {
                AccV::Count(mine.len() as int)
            } else {
                AccV::Fed(args_of_rows(p, kinds, t, s, mine))
            }
    } by {
        let f = has_key(v, keys[i]);
        let h = |r: RowV| keys_in(p, kinds, t, r) == keys[i];
        assert forall|r: int| 0 <= r < rows.len() implies #[trigger] f(rows[r]) == h(rows[r]) by {}
        seqs::lemma_filter_same(rows, f, h);
        let mine = rows_of_key(p, kinds, t, keys[i], rows);
        assert(mine == rows.filter(f));
        assert(holds(v, keys[i], groups[i], rows));
        assert forall|s: int| 0 <= s < p.sites.len() implies #[trigger] groups[i].accs[s]
            == if p.sites[s].star {
            AccV::Count(mine.len() as int)
        } else {
            AccV::Fed(args_of_rows(p, kinds, t, s, mine))
        } by {
            assert(took(v, s, mine, groups[i].accs[s]));
            if p.sites[s].star {
                assert(same_key(keys[i], keys[i]));
                group_laws::law_group_counts(v, rows, s, i);
                lemma_key_weight(v, rows, keys[i]);
            } else {
                assert forall|j: int| 0 <= j < mine.len() implies reduce::arg_value(
                    args[s],
                    kinds,
                    #[trigger] mine[j],
                ) == Some(arg_in(p, kinds, t, s, mine[j])) by {
                    assert(mine.contains(mine[j]));
                    seqs::lemma_filter_contains(rows, h, mine[j]);
                    let r = choose|r: int| 0 <= r < rows.len() && rows[r] == mine[j];
                    lemma_row_arg(p, kinds, ids, x, t, rows, r, s);
                    assert(p.sites[s].star <==> p.site_args[s] is Star);
                }
                lemma_fed_args(v, p, t, s, mine);
            }
        }
    }
    assert forall|i: int, j: int| 0 <= i < j < keys.len() && tells_itself(
        keys[i],
    ) implies #[trigger] keys[i] != #[trigger] keys[j] by {
        reduce::law_keys_differ(v, rows, i, j);
        if keys[i] == keys[j] {
            lemma_same(keys[i], keys[j]);
        }
    }
}

proof fn lemma_fed_args(v: ReduceV, p: AggV, t: TellsV, s: int, mine: Seq<RowV>)
    requires
        forall|j: int|
            0 <= j < mine.len() ==> reduce::arg_value(v.args[s], v.kinds, #[trigger] mine[j])
                == Some(arg_in(p, v.kinds, t, s, mine[j])),
    ensures
        fed(v, s, mine) == args_of_rows(p, v.kinds, t, s, mine),
    decreases mine.len(),
{
    let make = |r: RowV| arg_in(p, v.kinds, t, s, r);
    let keep = |x: ValV| !(x is Null);
    if mine.len() == 0 {
        assert(mine =~= Seq::empty());
        lemma_fed_none(v, s);
        assert(mine.map_values(make) =~= Seq::empty());
        seqs::lemma_filter_empty(keep);
    } else {
        let d = mine.drop_last();
        let r = mine.last();
        assert forall|j: int| 0 <= j < d.len() implies reduce::arg_value(
            v.args[s],
            v.kinds,
            #[trigger] d[j],
        ) == Some(arg_in(p, v.kinds, t, s, d[j])) by {
            assert(d[j] == mine[j]);
        }
        lemma_fed_args(v, p, t, s, d);
        assert(mine =~= d.push(r));
        lemma_fed_push(v, s, d, r);
        assert(mine[mine.len() - 1] == r);
        let all = mine.map_values(make);
        assert(all.drop_last() =~= d.map_values(make));
        seqs::lemma_filter_last(all, keep);
    }
}

/// Rows that stand for one match each weigh as many as they are.
proof fn lemma_key_weight(p: ReduceV, rows: Seq<RowV>, key: Seq<ValV>)
    requires
        !p.weighted,
        tells_itself(key),
    ensures
        group_laws::key_weight(p, rows, key) == rows.filter(has_key(p, key)).len(),
    decreases rows.len(),
{
    let f = has_key(p, key);
    if rows.len() == 0 {
        assert(rows =~= Seq::empty());
        seqs::lemma_filter_empty(f);
    } else {
        lemma_key_weight(p, rows.drop_last(), key);
        seqs::lemma_filter_last(rows, f);
        let k = row_key(p.keys, p.kinds, rows.last());
        if same_key(k, key) {
            lemma_same_is_equal(k, key);
        }
        if k == key {
            lemma_same(k, key);
        }
    }
}

/// Without rows there are no groups, but a projection without keys has one, and its
/// aggregates took nothing.
pub proof fn law_no_rows_no_groups(g: Graph, p: AggV, chunk: DataChunk, ids: Seq<Vec<u64>>, x: Supply)
    requires
        chunk.live_view().len() == 0,
    ensures
        plan_groups(g, p, chunk, ids, x) matches Reduced::Groups(keys, groups) && groups.len() == (
        if p.group_keys.len() == 0 {
            1int
        } else {
            0
        }) && forall|s: int|
            0 <= s < p.sites.len() && groups.len() == 1 ==> #[trigger] groups[0].accs[s]
                == if p.sites[s].star {
                AccV::Count(0)
            } else {
                AccV::Fed(Seq::empty())
            },
{
}

} // verus!
