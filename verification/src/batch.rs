//! The last stage of a query, run over a batch of its driving rows at a time.

use std::collections::BTreeSet;

use vstd::prelude::*;

use crate::chunk;
use crate::chunk::{DataChunk, HopV, RowV};
use crate::graph::{Graph, RunError, VarKind};
use crate::hop;
use crate::hop::{run_hop, Hop};
use crate::names;
use crate::operators;
use crate::reduce;
use crate::reduce::{column_at, entity_val, find_group, key_value, key_wf, same_key, Group, KeyColV, KeyVal, Val, ValV};
use crate::seeds;
use crate::seeds::end_set;
use crate::select::Filter;
use crate::seqs;

verus! {

/// How many driving rows a batch holds.
pub const MULTISTAGE_TOPK_BATCH: usize = 1024;

/// Where a batch ends.
pub fn batch_end(start: usize, n: usize) -> (end: usize)
    requires
        start <= n,
    ensures
        start <= end <= n,
        start < n ==> start < end,
        end == if n - start <= MULTISTAGE_TOPK_BATCH {
            n as int
        } else {
            start + MULTISTAGE_TOPK_BATCH
        },
{
    if n - start <= MULTISTAGE_TOPK_BATCH {
        n
    } else {
        start + MULTISTAGE_TOPK_BATCH
    }
}

/// The rows after `k` steps; none where the budget refuses one.
pub open spec fn steps_rows(g: Graph, hops: Seq<Hop>, rows: Seq<RowV>, k: nat) -> Option<Seq<RowV>>
    decreases k,
{
    if k == 0 {
        Some(rows)
    } else {
        match steps_rows(g, hops, rows, (k - 1) as nat) {
            Some(r) => hop::hop_rows(
                g,
                hops[k - 1],
                g.type_tokens(names::of(hops[k - 1].types@)),
                seeds::end_members(g, names::of(hops[k - 1].labels@)),
                r,
            ),
            None => None,
        }
    }
}

/// The variables after `k` steps.
pub open spec fn steps_vars(hops: Seq<Hop>, vars: Seq<Seq<char>>, k: nat) -> Seq<Seq<char>>
    decreases k,
{
    if k == 0 {
        vars
    } else {
        hop::hop_vars(hops[k - 1], steps_vars(hops, vars, (k - 1) as nat))
    }
}

/// The kinds of the variables after `k` steps.
pub open spec fn steps_kinds(hops: Seq<Hop>, kinds: Seq<VarKind>, k: nat) -> Seq<VarKind>
    decreases k,
{
    if k == 0 {
        kinds
    } else {
        hop::hop_kinds(hops[k - 1], steps_kinds(hops, kinds, (k - 1) as nat))
    }
}

/// The rows that pass the first `n` conditions; none where one cannot be
/// answered.
pub open spec fn filtered(
    g: Graph,
    fs: Seq<Filter>,
    vars: Seq<Seq<char>>,
    kinds: Seq<VarKind>,
    rows: Seq<RowV>,
    n: nat,
) -> Option<Seq<RowV>>
    decreases n,
{
    if n == 0 {
        Some(rows)
    } else {
        match filtered(g, fs, vars, kinds, rows, (n - 1) as nat) {
            Some(r) => if fs[n - 1].answers(vars, kinds, r) {
                Some(r.filter(|row: RowV| fs[n - 1].holds(g, vars, row.ids)))
            } else {
                None
            },
            None => None,
        }
    }
}

proof fn lemma_steps_none(g: Graph, hops: Seq<Hop>, rows: Seq<RowV>, k: nat, n: nat)
    requires
        k <= n,
        steps_rows(g, hops, rows, k) is None,
    ensures
        steps_rows(g, hops, rows, n) is None,
    decreases n - k,
{
    if k < n {
        lemma_steps_none(g, hops, rows, k, (n - 1) as nat);
    }
}

proof fn lemma_filtered_none(
    g: Graph,
    fs: Seq<Filter>,
    vars: Seq<Seq<char>>,
    kinds: Seq<VarKind>,
    rows: Seq<RowV>,
    k: nat,
    n: nat,
)
    requires
        k <= n,
        filtered(g, fs, vars, kinds, rows, k) is None,
    ensures
        filtered(g, fs, vars, kinds, rows, n) is None,
    decreases n - k,
{
    if k < n {
        lemma_filtered_none(g, fs, vars, kinds, rows, k, (n - 1) as nat);
    }
}

fn own_members(m: &Option<BTreeSet<u64>>) -> (r: Option<&BTreeSet<u64>>)
    ensures
        match (r, *m) {
            (Some(a), Some(b)) => *a == b,
            (None, None) => true,
            _ => false,
        },
{
    match m {
        Some(s) => Some(s),
        None => None,
    }
}

/// Runs steps over a chunk, one after the other.
pub fn run_steps(g: &Graph, c: DataChunk, hops: &Vec<Hop>) -> (r: Result<DataChunk, RunError>)
    requires
        g.wf(),
        c.wf(),
        forall|k: int|
            0 <= k < hops@.len() ==> hop::hop_fits(
                #[trigger] hops@[k],
                steps_vars(hops@, names::of(c.vars@), k as nat).len(),
            ),
    ensures
        match (r, steps_rows(*g, hops@, c.live_view(), hops@.len())) {
            (Ok(d), Some(rows)) => {
                &&& d.wf()
                &&& d.live_view() == rows
                &&& names::of(d.vars@) == steps_vars(hops@, names::of(c.vars@), hops@.len())
                &&& d.var_kinds@ == steps_kinds(hops@, c.var_kinds@, hops@.len())
                &&& c.prov@.len() == 0 ==> d.prov@.len() == 0
                &&& c.weights@.len() == 0 ==> d.weights@.len() == 0
                &&& c.weights@.len() > 0 && rows.len() > 0 ==> d.weights@.len() > 0
            },
            (Err(e), None) => e == RunError::RowBudget,
            _ => false,
        },
{
    let ghost vars = names::of(c.vars@);
    let ghost kinds = c.var_kinds@;
    let ghost rows = c.live_view();
    let ghost no_prov = c.prov@.len() == 0;
    let ghost no_weight = c.weights@.len() == 0;
    let mut d = c;
    let mut k: usize = 0;
    while k < hops.len()
        invariant
            k <= hops@.len(),
            g.wf(),
            vars == names::of(c.vars@),
            kinds == c.var_kinds@,
            rows == c.live_view(),
            no_prov == (c.prov@.len() == 0),
            no_weight == (c.weights@.len() == 0),
            forall|k: int|
                0 <= k < hops@.len() ==> hop::hop_fits(
                    #[trigger] hops@[k],
                    steps_vars(hops@, vars, k as nat).len(),
                ),
            d.wf(),
            steps_rows(*g, hops@, rows, k as nat) == Some(d.live_view()),
            names::of(d.vars@) == steps_vars(hops@, vars, k as nat),
            d.var_kinds@ == steps_kinds(hops@, kinds, k as nat),
            no_prov ==> d.prov@.len() == 0,
            no_weight ==> d.weights@.len() == 0,
            !no_weight && d.live_view().len() > 0 ==> d.weights@.len() > 0,
        decreases hops.len() - k,
    {
        let m = end_set(g, &hops[k].labels);
        let t = g.type_tokens_peek(&hops[k].types);
        assert(names::of(d.vars@).len() == d.vars@.len());
        assert(hop::hop_fits(hops@[k as int], steps_vars(hops@, vars, k as nat).len()));
        match run_hop(g, d, &hops[k], own_members(&m), &t) {
            Ok(x) => {
                d = x;
            },
            Err(e) => {
                proof {
                    lemma_steps_none(*g, hops@, rows, (k + 1) as nat, hops@.len());
                }
                return Err(e);
            },
        }
        k = k + 1;
    }
    Ok(d)
}

/// Runs the last stage over one batch: its steps, and then its conditions.
pub fn expand_last_stage_batch(g: &Graph, c: DataChunk, hops: &Vec<Hop>, filters: &Vec<Filter>) -> (r:
    Result<Option<DataChunk>, RunError>)
    requires
        g.wf(),
        c.wf(),
        forall|k: int|
            0 <= k < hops@.len() ==> hop::hop_fits(
                #[trigger] hops@[k],
                steps_vars(hops@, names::of(c.vars@), k as nat).len(),
            ),
        forall|k: int|
            0 <= k < filters@.len() ==> (#[trigger] filters@[k]).bound(
                steps_vars(hops@, names::of(c.vars@), hops@.len()),
            ),
    ensures
        match steps_rows(*g, hops@, c.live_view(), hops@.len()) {
            None => r matches Err(e) && e == RunError::RowBudget,
            Some(rows) => match filtered(
                *g,
                filters@,
                steps_vars(hops@, names::of(c.vars@), hops@.len()),
                steps_kinds(hops@, c.var_kinds@, hops@.len()),
                rows,
                filters@.len(),
            ) {
                None => r matches Ok(None),
                Some(rows) => r matches Ok(Some(d)) && d.wf() && d.live_view() == rows && names::of(
                    d.vars@,
                ) == steps_vars(hops@, names::of(c.vars@), hops@.len()) && d.var_kinds@
                    == steps_kinds(hops@, c.var_kinds@, hops@.len()) && (c.weights@.len() == 0
                    ==> d.weights@.len() == 0) && (c.weights@.len() > 0 && rows.len() > 0
                    ==> d.weights@.len() > 0),
            },
        },
{
    let ghost vars = steps_vars(hops@, names::of(c.vars@), hops@.len());
    let ghost kinds = steps_kinds(hops@, c.var_kinds@, hops@.len());
    let ghost no_weight = c.weights@.len() == 0;
    let mut d = match run_steps(g, c, hops) {
        Ok(d) => d,
        Err(e) => {
            return Err(e);
        },
    };
    let ghost rows = d.live_view();
    let mut k: usize = 0;
    while k < filters.len()
        invariant
            k <= filters@.len(),
            g.wf(),
            no_weight == (c.weights@.len() == 0),
            vars == steps_vars(hops@, names::of(c.vars@), hops@.len()),
            kinds == steps_kinds(hops@, c.var_kinds@, hops@.len()),
            steps_rows(*g, hops@, c.live_view(), hops@.len()) == Some(rows),
            forall|k: int| 0 <= k < filters@.len() ==> (#[trigger] filters@[k]).bound(vars),
            d.wf(),
            names::of(d.vars@) == vars,
            d.var_kinds@ == kinds,
            filtered(*g, filters@, vars, kinds, rows, k as nat) == Some(d.live_view()),
            no_weight ==> d.weights@.len() == 0,
            !no_weight && d.live_view().len() > 0 ==> d.weights@.len() > 0,
        decreases filters.len() - k,
    {
        assert(filters@[k as int].bound(vars));
        if d.filter(g, &filters[k]).is_none() {
            proof {
                lemma_filtered_none(
                    *g,
                    filters@,
                    vars,
                    kinds,
                    rows,
                    (k + 1) as nat,
                    filters@.len(),
                );
            }
            return Ok(None);
        }
        k = k + 1;
    }
    Ok(Some(d))
}

fn key_of_ids(k: &KeyVal, kinds: &Vec<VarKind>, ids: &Vec<u64>) -> (v: Val)
    requires
        kinds@.len() == ids@.len(),
        key_wf(k.v(), ids@.len()),
    ensures
        v.v() == key_value(
            k.v(),
            kinds@,
            RowV { ids: ids@, used: Seq::empty(), prov: None, weight: 1 },
        ),
{
    match k {
        KeyVal::Node(i) => entity_val(kinds[*i], ids[*i]),
        KeyVal::Col(i, cs, vals) => column_at(cs, vals, ids[*i]),
        KeyVal::Const(x) => x.copy(),
    }
}

/// The key of a group, read off its first row.
pub open spec fn group_key(ks: Seq<KeyColV>, kinds: Seq<VarKind>, ids: Seq<u64>) -> Seq<ValV> {
    reduce::row_key(ks, kinds, RowV { ids, used: Seq::empty(), prov: None, weight: 1 })
}

/// The key of a group, read off its first row.
pub fn key_of_group(ks: &Vec<KeyVal>, kinds: &Vec<VarKind>, ids: &Vec<u64>) -> (r: Vec<Val>)
    requires
        kinds@.len() == ids@.len(),
        forall|i: int| 0 <= i < ks@.len() ==> key_wf((#[trigger] ks@[i]).v(), ids@.len()),
    ensures
        reduce::vals_v(r@) == group_key(reduce::key_vals_v(ks@), kinds@, ids@),
{
    let ghost kv = reduce::key_vals_v(ks@);
    let mut r: Vec<Val> = Vec::new();
    let mut i: usize = 0;
    while i < ks.len()
        invariant
            i <= ks@.len(),
            kv == reduce::key_vals_v(ks@),
            kinds@.len() == ids@.len(),
            forall|i: int| 0 <= i < ks@.len() ==> key_wf((#[trigger] ks@[i]).v(), ids@.len()),
            r@.len() == i,
            forall|j: int|
                0 <= j < i ==> (#[trigger] r@[j]).v() == group_key(kv, kinds@, ids@)[j],
        decreases ks.len() - i,
    {
        assert(kv[i as int] == ks@[i as int].v());
        let v = key_of_ids(&ks[i], kinds, ids);
        r.push(v);
        i = i + 1;
    }
    assert(reduce::vals_v(r@) =~= group_key(kv, kinds@, ids@));
    r
}

/// The groups of the batches so far.
#[derive(Debug)]
pub struct BatchGroups {
    pub keys: Vec<Vec<Val>>,
    pub groups: Vec<Group>,
}

/// Whether some of the keys that come in is one of those that are there.
pub open spec fn collides(have: Seq<Seq<ValV>>, more: Seq<Seq<ValV>>) -> bool {
    exists|i: int| 0 <= i < more.len() && find_group(have, #[trigger] more[i]) is Some
}

fn same_tuple(a: &Vec<Val>, b: &Vec<Val>) -> (r: bool)
    ensures
        r == same_key(reduce::vals_v(a@), reduce::vals_v(b@)),
{
    let ghost av = reduce::vals_v(a@);
    let ghost bv = reduce::vals_v(b@);
    if a.len() != b.len() {
        assert(av.len() != bv.len());
        return false;
    }
    let mut i: usize = 0;
    while i < a.len()
        invariant
            i <= a@.len() == b@.len(),
            av == reduce::vals_v(a@),
            bv == reduce::vals_v(b@),
            forall|j: int| 0 <= j < i ==> reduce::same_val(#[trigger] av[j], bv[j]),
        decreases a.len() - i,
    {
        assert(av[i as int] == a@[i as int].v());
        assert(bv[i as int] == b@[i as int].v());
        if !a[i].groups_with(&b[i]) {
            assert(!reduce::same_val(av[i as int], bv[i as int]));
            return false;
        }
        i = i + 1;
    }
    true
}

fn holds_key(keys: &Vec<Vec<Val>>, key: &Vec<Val>) -> (b: bool)
    ensures
        b == (find_group(reduce::tuples_v(keys@), reduce::vals_v(key@)) is Some),
{
    let ghost kv = reduce::tuples_v(keys@);
    let ghost key_v = reduce::vals_v(key@);
    let mut i: usize = 0;
    while i < keys.len()
        invariant
            i <= keys@.len(),
            kv == reduce::tuples_v(keys@),
            key_v == reduce::vals_v(key@),
            forall|j: int| 0 <= j < i ==> !same_key(#[trigger] kv[j], key_v),
        decreases keys.len() - i,
    {
        assert(kv[i as int] == reduce::vals_v(keys@[i as int]@));
        if same_tuple(&keys[i], key) {
            proof {
                reduce::lemma_find_none(kv, key_v);
                assert(same_key(kv[i as int], key_v));
            }
            return true;
        }
        i = i + 1;
    }
    proof {
        reduce::lemma_find_none(kv, key_v);
    }
    false
}

impl BatchGroups {
    pub fn new() -> (r: BatchGroups)
        ensures
            r.keys@.len() == 0,
            r.groups@.len() == 0,
    {
        BatchGroups { keys: Vec::new(), groups: Vec::new() }
    }

    /// Adds the groups of one more batch. Refuses, and stays as it is, where one
    /// has the key of a group of an earlier batch.
    pub fn absorb(&mut self, keys: Vec<Vec<Val>>, groups: Vec<Group>) -> (ok: bool)
        ensures
            ok == !collides(reduce::tuples_v(old(self).keys@), reduce::tuples_v(keys@)),
            ok ==> final(self).keys@ == old(self).keys@ + keys@ && final(self).groups@ == old(
                self,
            ).groups@ + groups@,
            !ok ==> *final(self) == *old(self),
    {
        let ghost have = reduce::tuples_v(self.keys@);
        let ghost more = reduce::tuples_v(keys@);
        let mut i: usize = 0;
        while i < keys.len()
            invariant
                i <= keys@.len(),
                *self == *old(self),
                have == reduce::tuples_v(self.keys@),
                more == reduce::tuples_v(keys@),
                forall|j: int| 0 <= j < i ==> find_group(have, #[trigger] more[j]) is None,
            decreases keys.len() - i,
        {
            assert(more[i as int] == reduce::vals_v(keys@[i as int]@));
            if holds_key(&self.keys, &keys[i]) {
                assert(find_group(have, more[i as int]) is Some);
                return false;
            }
            i = i + 1;
        }
        let mut ks = keys;
        let mut gs = groups;
        self.keys.append(&mut ks);
        self.groups.append(&mut gs);
        true
    }
}

/// The values of a variable's properties, by ascending id: per property, one
/// value for each id.
#[derive(Debug)]
pub struct KeyColumn {
    pub ids: Vec<u64>,
    pub vals: Vec<Val>,
}

impl KeyColumn {
    /// The ids ascend, and each has a value.
    pub open spec fn wf(self) -> bool {
        reduce::column_wf(self.ids@, reduce::vals_v(self.vals@))
    }

    /// The value of an id.
    pub open spec fn at(self, id: u64) -> Option<ValV> {
        match names::position(self.ids@, id) {
            Some(i) => Some(self.vals@[i].v()),
            None => None,
        }
    }
}

/// Puts a value into a column, unless its id has one.
fn put(c: &mut KeyColumn, id: u64, v: Val)
    requires
        old(c).wf(),
    ensures
        final(c).wf(),
        forall|x: u64| #[trigger]
            final(c).at(x) == if x == id && old(c).at(id) is None {
                Some(v.v())
            } else {
                old(c).at(x)
            },
{
    let mut i: usize = 0;
    assert(reduce::vals_v(c.vals@).len() == c.vals@.len());
    while i < c.ids.len() && c.ids[i] < id
        invariant
            i <= c.ids@.len(),
            *c == *old(c),
            forall|j: int| 0 <= j < i ==> #[trigger] c.ids@[j] < id,
        decreases c.ids.len() - i,
    {
        i = i + 1;
    }
    if i < c.ids.len() && c.ids[i] == id {
        proof {
            lemma_at(*c, id, i as int);
        }
        return;
    }
    let ghost c0 = *c;
    c.ids.insert(i, id);
    c.vals.insert(i, v);
    proof {
        let ids = c.ids@;
        assert(crate::select::ascending(ids)) by {
            assert forall|a: int, b: int| 0 <= a < b < ids.len() implies ids[a] < ids[b] by {
                if b < i {
                    assert(c0.ids@[a] < c0.ids@[b]);
                } else if a < i && b > i {
                    assert(c0.ids@[a] < c0.ids@[b - 1]);
                } else if a > i {
                    assert(c0.ids@[a - 1] < c0.ids@[b - 1]);
                } else if a == i {
                    if b - 1 > i {
                        assert(c0.ids@[i as int] < c0.ids@[b - 1]);
                    }
                }
            }
        }
        assert(reduce::vals_v(c.vals@).len() == c.vals@.len());
        assert forall|x: u64| #[trigger] c.at(x) == if x == id && c0.at(id) is None {
            Some(v.v())
        } else {
            c0.at(x)
        } by {
            names::lemma_position(c.ids@, x);
            names::lemma_position(c0.ids@, x);
            if c0.ids@.contains(id) {
                let k = choose|k: int| 0 <= k < c0.ids@.len() && c0.ids@[k] == id;
                if k < i {
                    assert(c0.ids@[k] < id);
                } else if k > i {
                    assert(c0.ids@[i as int] < c0.ids@[k]);
                }
                assert(false);
            }
            names::lemma_position(c0.ids@, id);
            if x == id {
                lemma_at(*c, id, i as int);
            } else if c0.ids@.contains(x) {
                let k = choose|k: int| 0 <= k < c0.ids@.len() && c0.ids@[k] == x;
                lemma_at(c0, x, k);
                if k < i {
                    lemma_at(*c, x, k);
                } else {
                    lemma_at(*c, x, k + 1);
                }
            } else {
                assert(!c.ids@.contains(x)) by {
                    if c.ids@.contains(x) {
                        let k = choose|k: int| 0 <= k < c.ids@.len() && c.ids@[k] == x;
                        if k < i {
                            assert(c0.ids@[k] == x);
                        } else if k > i {
                            assert(c0.ids@[k - 1] == x);
                        }
                    }
                }
            }
        }
    }
}

proof fn lemma_at(c: KeyColumn, id: u64, i: int)
    requires
        c.wf(),
        0 <= i < c.ids@.len(),
        c.ids@[i] == id,
    ensures
        c.at(id) == Some(c.vals@[i].v()),
{
    assert forall|j: int| 0 <= j < i implies c.ids@[j] != id by {
        assert(c.ids@[j] < c.ids@[i]);
    }
    names::lemma_first_is_position(c.ids@, id, i);
}

/// Merges the values that one more batch brings into those that are there. An
/// id that has a value keeps it.
pub fn merge_group_key_cols(dst: &mut KeyColumn, src: &KeyColumn)
    requires
        old(dst).wf(),
        src.wf(),
    ensures
        final(dst).wf(),
        forall|x: u64| #[trigger]
            final(dst).at(x) == match old(dst).at(x) {
                Some(v) => Some(v),
                None => src.at(x),
            },
{
    assert(reduce::vals_v(src.vals@).len() == src.vals@.len());
    let mut i: usize = 0;
    proof {
        assert forall|x: u64| #[trigger] dst.at(x) == match old(dst).at(x) {
            Some(v) => Some(v),
            None => upto(*src, 0, x),
        } by {
            assert(src.ids@.take(0) =~= Seq::empty());
        }
    }
    while i < src.ids.len()
        invariant
            i <= src.ids@.len(),
            src.ids@.len() == src.vals@.len(),
            src.wf(),
            dst.wf(),
            forall|x: u64| #[trigger]
                dst.at(x) == match old(dst).at(x) {
                    Some(v) => Some(v),
                    None => upto(*src, i as int, x),
                },
        decreases src.ids.len() - i,
    {
        let ghost d0 = *dst;
        let id = src.ids[i];
        let v = src.vals[i].copy();
        put(dst, id, v);
        proof {
            lemma_at(*src, id, i as int);
            assert forall|x: u64| #[trigger] dst.at(x) == match old(dst).at(x) {
                Some(v) => Some(v),
                None => upto(*src, i + 1, x),
            } by {
                assert(d0.at(x) == match old(dst).at(x) {
                    Some(v) => Some(v),
                    None => upto(*src, i as int, x),
                });
                assert(d0.at(id) == match old(dst).at(id) {
                    Some(v) => Some(v),
                    None => upto(*src, i as int, id),
                });
                seqs::lemma_take_last(src.ids@, i as int);
                seqs::lemma_push_contains(src.ids@.take(i as int), id, x);
                seqs::lemma_push_contains(src.ids@.take(i as int), id, id);
            }
        }
        i = i + 1;
    }
    proof {
        assert(src.ids@.take(i as int) =~= src.ids@);
        assert forall|x: u64| #[trigger] dst.at(x) == match old(dst).at(x) {
            Some(v) => Some(v),
            None => src.at(x),
        } by {
            names::lemma_position(src.ids@, x);
        }
    }
}

/// The value of an id among the first `n` of a column.
spec fn upto(c: KeyColumn, n: int, x: u64) -> Option<ValV> {
    if c.ids@.take(n).contains(x) {
        c.at(x)
    } else {
        None
    }
}

/// The steps of two batches one after the other are the steps of both together:
/// where the rows of the whole fit the budget, those of each batch do, and they
/// join in order.
pub proof fn law_batches_expand(g: Graph, hops: Seq<Hop>, a: Seq<RowV>, b: Seq<RowV>, k: nat)
    requires
        k <= hops.len(),
    ensures
        steps_rows(g, hops, a + b, k) matches Some(rows) ==> (steps_rows(g, hops, a, k) matches Some(
            ra,
        ) && (steps_rows(g, hops, b, k) matches Some(rb) && rows == ra + rb)),
    decreases k,
{
    if k > 0 {
        law_batches_expand(g, hops, a, b, (k - 1) as nat);
        if steps_rows(g, hops, a + b, k) is Some {
            let h = hops[k - 1];
            let v = hop::hop_view(
                h,
                g.type_tokens(names::of(h.types@)),
                seeds::end_members(g, names::of(h.labels@)),
            );
            let xa = steps_rows(g, hops, a, (k - 1) as nat)->0;
            let xb = steps_rows(g, hops, b, (k - 1) as nat)->0;
            match (h.varlen, h.tgt) {
                (Some(max), _) => {
                    operators::law_reach_slices(
                        g,
                        HopV { members: seeds::end_members(g, names::of(h.labels@)), ..v },
                        max as nat,
                        xa,
                        xb,
                    );
                },
                (None, None) => {
                    chunk::law_expand_slices(g, v, xa, xb);
                },
                (None, Some(t)) => {
                    chunk::law_close_slices(g, v, t as int, xa, xb);
                },
            }
        }
    }
}

/// The conditions on two batches one after the other are the conditions on both
/// together: where they can be answered on the whole, they can on each batch,
/// and what they keep joins in order.
pub proof fn law_batches_filter(
    g: Graph,
    fs: Seq<Filter>,
    vars: Seq<Seq<char>>,
    kinds: Seq<VarKind>,
    a: Seq<RowV>,
    b: Seq<RowV>,
    n: nat,
)
    requires
        n <= fs.len(),
    ensures
        filtered(g, fs, vars, kinds, a + b, n) matches Some(rows) ==> (filtered(
            g,
            fs,
            vars,
            kinds,
            a,
            n,
        ) matches Some(ra) && (filtered(g, fs, vars, kinds, b, n) matches Some(rb) && rows == ra
            + rb)),
    decreases n,
{
    if n > 0 {
        law_batches_filter(g, fs, vars, kinds, a, b, (n - 1) as nat);
        if filtered(g, fs, vars, kinds, a + b, n) is Some {
            let xa = filtered(g, fs, vars, kinds, a, (n - 1) as nat)->0;
            let xb = filtered(g, fs, vars, kinds, b, (n - 1) as nat)->0;
            let f = fs[n - 1];
            assert(f.answers(vars, kinds, xa)) by {
                assert forall|i: int| 0 <= i < xa.len() implies #[trigger] xa[i] == (xa + xb)[i] by {}
            }
            assert(f.answers(vars, kinds, xb)) by {
                assert forall|i: int| 0 <= i < xb.len() implies #[trigger] xb[i] == (xa + xb)[xa.len()
                    + i] by {}
            }
            Seq::filter_distributes_over_add(xa, xb, |row: RowV| f.holds(g, vars, row.ids));
        }
    }
}

} // verus!
