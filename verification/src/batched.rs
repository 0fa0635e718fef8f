//! The groups of a last stage, made a batch of driving rows at a time.

use vstd::prelude::*;

use crate::batch;
use crate::batch::{batch_end, collides, expand_last_stage_batch, group_key, key_of_group, BatchGroups, MULTISTAGE_TOPK_BATCH};
use crate::chunk::{DataChunk, RowV};
use crate::graph::{Graph, RunError, VarKind, NULL_ID};
use crate::group_laws;
use crate::hop;
use crate::hop::Hop;
use crate::names;
use crate::plan;
use crate::plan::{AggSite, SiteV};
use crate::reduce;
use crate::reduce::{find_group, find_id, reduce, reduce_agg_groups, row_key, Group, GroupV, KeyVal, ReduceV, Reduced, SiteArgVal, Val, ValV};
use crate::select::Filter;

verus! {

/// A last stage: its steps and conditions, and what binds its driving rows.
pub struct LastV {
    pub g: Graph,
    pub hops: Seq<Hop>,
    pub fs: Seq<Filter>,
    pub vars: Seq<Seq<char>>,
    pub kinds: Seq<VarKind>,
}

impl LastV {
    /// The variables that the stage binds.
    pub open spec fn bound(self) -> Seq<Seq<char>> {
        batch::steps_vars(self.hops, self.vars, self.hops.len())
    }

    /// Their kinds.
    pub open spec fn bound_kinds(self) -> Seq<VarKind> {
        batch::steps_kinds(self.hops, self.kinds, self.hops.len())
    }

    /// The rows that the stage makes: no answer where the budget refuses a step,
    /// and no rows where a condition cannot be answered.
    pub open spec fn rows(self, rows: Seq<RowV>) -> Option<Option<Seq<RowV>>> {
        match batch::steps_rows(self.g, self.hops, rows, self.hops.len()) {
            None => None,
            Some(r) => Some(
                batch::filtered(
                    self.g,
                    self.fs,
                    self.bound(),
                    self.bound_kinds(),
                    r,
                    self.fs.len(),
                ),
            ),
        }
    }
}

/// How a last stage groups its rows.
pub open spec fn last_view(
    l: LastV,
    ks: Seq<KeyVal>,
    args: Seq<SiteArgVal>,
    sites: Seq<AggSite>,
    weighted: bool,
) -> ReduceV {
    ReduceV {
        keys: reduce::key_vals_v(ks),
        args: reduce::arg_vals_v(args),
        fresh: plan::sites_v(sites).map_values(|s: SiteV| reduce::fresh(s)),
        kinds: l.bound_kinds(),
        weighted,
        budget: l.g.row_budget,
    }
}

/// Whether each key and each argument has a value in every row.
pub open spec fn covered(p: ReduceV, rows: Seq<RowV>) -> bool {
    &&& forall|i: int| 0 <= i < p.keys.len() ==> reduce::key_covers(#[trigger] p.keys[i], rows)
    &&& forall|i: int| 0 <= i < p.args.len() ==> reduce::arg_covers(#[trigger] p.args[i], rows)
}

/// The groups of what a stage makes of rows.
pub open spec fn stage_groups(p: ReduceV, made: Option<Option<Seq<RowV>>>) -> Reduced {
    match made {
        None => Reduced::OverBudget,
        Some(None) => Reduced::Decline,
        Some(Some(rows)) => if covered(p, rows) {
            reduce(p, rows)
        } else {
            Reduced::Decline
        },
    }
}

/// Groups, and those of one more batch behind them. Declined where a group spans
/// both.
pub open spec fn joined(have: Reduced, more: Reduced) -> Reduced {
    match have {
        Reduced::Groups(k, gs) => match more {
            Reduced::Groups(k2, gs2) => if collides(k, k2) {
                Reduced::Decline
            } else {
                Reduced::Groups(k + k2, gs + gs2)
            },
            x => x,
        },
        x => x,
    }
}

/// Rows before any relationship is used.
pub open spec fn unused(rows: Seq<RowV>) -> Seq<RowV> {
    rows.map_values(|row: RowV| RowV { used: Seq::empty(), ..row })
}

/// Where the first `n` batches end.
pub open spec fn batch_at(rows: Seq<RowV>, n: nat) -> int {
    if n * MULTISTAGE_TOPK_BATCH <= rows.len() {
        n * MULTISTAGE_TOPK_BATCH
    } else {
        rows.len() as int
    }
}

/// The groups of the first `n` batches.
pub open spec fn batched(l: LastV, p: ReduceV, rows: Seq<RowV>, n: nat) -> Reduced
    decreases n,
{
    if n == 0 {
        Reduced::Groups(Seq::empty(), Seq::empty())
    } else {
        joined(
            batched(l, p, rows, (n - 1) as nat),
            stage_groups(
                p,
                l.rows(
                    unused(rows.subrange(batch_at(rows, (n - 1) as nat), batch_at(rows, n))),
                ),
            ),
        )
    }
}

/// How many batches there are.
pub open spec fn batch_count(rows: Seq<RowV>) -> nat {
    ((rows.len() + MULTISTAGE_TOPK_BATCH - 1) / (MULTISTAGE_TOPK_BATCH as int)) as nat
}

/// Groups, one at least where there is no key.
pub open spec fn at_least_one(p: ReduceV, r: Reduced) -> Reduced {
    match r {
        Reduced::Groups(_, gs) => if gs.len() == 0 && p.keys.len() == 0 {
            Reduced::Groups(
                seq![Seq::empty()],
                seq![GroupV { ids: Seq::empty(), accs: p.fresh }],
            )
        } else {
            r
        },
        x => x,
    }
}

proof fn lemma_batched_stops(l: LastV, p: ReduceV, rows: Seq<RowV>, k: nat, n: nat)
    requires
        k <= n,
        !(batched(l, p, rows, k) is Groups),
    ensures
        batched(l, p, rows, n) == batched(l, p, rows, k),
    decreases n,
{
    if k < n {
        lemma_batched_stops(l, p, rows, k, (n - 1) as nat);
    }
}

/// A group's key is that of its first row.
proof fn lemma_group_keys(p: ReduceV, rows: Seq<RowV>, width: nat)
    requires
        p.args.len() == p.fresh.len(),
        reduce(p, rows) is Groups,
        forall|i: int| 0 <= i < rows.len() ==> (#[trigger] rows[i]).ids.len() == width,
    ensures
        reduce(p, rows)->Groups_0.len() == reduce(p, rows)->Groups_1.len(),
        forall|i: int|
            0 <= i < reduce(p, rows)->Groups_1.len() ==> {
                &&& (#[trigger] reduce(p, rows)->Groups_1[i]).ids.len() == width
                &&& reduce(p, rows)->Groups_0[i] == group_key(
                    p.keys,
                    p.kinds,
                    reduce(p, rows)->Groups_1[i].ids,
                )
            },
    decreases rows.len(),
{
    reduce::lemma_reduce_wf(p, rows);
    if rows.len() > 0 {
        let before = rows.drop_last();
        assert forall|i: int| 0 <= i < before.len() implies (#[trigger] before[i]).ids.len()
            == width by {
            assert(rows[i] == before[i]);
        }
        lemma_group_keys(p, before, width);
        let row = rows.last();
        assert(rows[rows.len() - 1] == row);
        let key = row_key(p.keys, p.kinds, row);
        assert(key =~= group_key(p.keys, p.kinds, row.ids));
        reduce::lemma_find_none(reduce(p, before)->Groups_0, key);
    }
}

fn column_covers(ids: &Vec<u64>, vi: usize, d: &DataChunk) -> (b: bool)
    requires
        d.wf(),
        vi < d.ids@.len(),
        crate::select::ascending(ids@),
    ensures
        b == reduce::covers(ids@, vi as int, d.live_view()),
{
    let ghost rows = d.live_view();
    let mut k: usize = 0;
    while k < d.selection.len()
        invariant
            k <= d.selection@.len(),
            d.wf(),
            vi < d.ids@.len(),
            crate::select::ascending(ids@),
            rows == d.live_view(),
            forall|j: int|
                0 <= j < k ==> (#[trigger] rows[j]).ids[vi as int] == NULL_ID || ids@.contains(
                    rows[j].ids[vi as int],
                ),
        decreases d.selection.len() - k,
    {
        assert(d.selection@[k as int] < d.rows());
        let id = d.ids[vi][d.selection[k]];
        assert(rows[k as int].ids[vi as int] == id);
        if id != NULL_ID && find_id(ids, id).is_none() {
            assert(!ids@.contains(id)) by {
                names::lemma_position(ids@, id);
            }
            return false;
        }
        proof {
            names::lemma_position(ids@, id);
        }
        k = k + 1;
    }
    true
}

fn is_covered(ks: &Vec<KeyVal>, args: &Vec<SiteArgVal>, d: &DataChunk, Ghost(p): Ghost<ReduceV>) -> (b:
    bool)
    requires
        d.wf(),
        p.keys == reduce::key_vals_v(ks@),
        p.args == reduce::arg_vals_v(args@),
        forall|i: int| 0 <= i < ks@.len() ==> reduce::key_wf((#[trigger] ks@[i]).v(), d.ids@.len()),
        forall|i: int|
            0 <= i < args@.len() ==> reduce::arg_wf((#[trigger] args@[i]).v(), d.ids@.len()),
    ensures
        b == covered(p, d.live_view()),
{
    let ghost rows = d.live_view();
    let mut i: usize = 0;
    while i < ks.len()
        invariant
            i <= ks@.len(),
            d.wf(),
            p.keys == reduce::key_vals_v(ks@),
            rows == d.live_view(),
            forall|i: int|
                0 <= i < ks@.len() ==> reduce::key_wf((#[trigger] ks@[i]).v(), d.ids@.len()),
            forall|j: int| 0 <= j < i ==> reduce::key_covers(#[trigger] p.keys[j], rows),
        decreases ks.len() - i,
    {
        assert(p.keys[i as int] == ks@[i as int].v());
        let ok = match &ks[i] {
            KeyVal::Col(v, ids, _) => column_covers(ids, *v, d),
            _ => true,
        };
        if !ok {
            assert(!reduce::key_covers(p.keys[i as int], rows));
            return false;
        }
        i = i + 1;
    }
    let mut i: usize = 0;
    while i < args.len()
        invariant
            i <= args@.len(),
            d.wf(),
            p.args == reduce::arg_vals_v(args@),
            rows == d.live_view(),
            forall|i: int|
                0 <= i < args@.len() ==> reduce::arg_wf((#[trigger] args@[i]).v(), d.ids@.len()),
            forall|j: int| 0 <= j < i ==> reduce::arg_covers(#[trigger] p.args[j], rows),
        decreases args.len() - i,
    {
        assert(p.args[i as int] == args@[i as int].v());
        let ok = match &args[i] {
            SiteArgVal::Gather(v, ids, _) => column_covers(ids, *v, d),
            _ => true,
        };
        if !ok {
            assert(!reduce::arg_covers(p.args[i as int], rows));
            return false;
        }
        i = i + 1;
    }
    true
}

fn keys_of_groups(
    ks: &Vec<KeyVal>,
    kinds: &Vec<VarKind>,
    groups: &Vec<Group>,
    Ghost(keys): Ghost<Seq<Seq<ValV>>>,
) -> (r: Vec<Vec<Val>>)
    requires
        forall|i: int| 0 <= i < ks@.len() ==> reduce::key_wf((#[trigger] ks@[i]).v(), kinds@.len()),
        keys.len() == groups@.len(),
        forall|i: int|
            0 <= i < groups@.len() ==> (#[trigger] groups@[i]).ids@.len() == kinds@.len() && keys[i]
                == group_key(reduce::key_vals_v(ks@), kinds@, groups@[i].ids@),
    ensures
        reduce::tuples_v(r@) == keys,
{
    let mut r: Vec<Vec<Val>> = Vec::new();
    let mut i: usize = 0;
    while i < groups.len()
        invariant
            i <= groups@.len() == keys.len(),
            forall|i: int|
                0 <= i < ks@.len() ==> reduce::key_wf((#[trigger] ks@[i]).v(), kinds@.len()),
            forall|i: int|
                0 <= i < groups@.len() ==> (#[trigger] groups@[i]).ids@.len() == kinds@.len()
                    && keys[i] == group_key(reduce::key_vals_v(ks@), kinds@, groups@[i].ids@),
            r@.len() == i,
            forall|j: int| 0 <= j < i ==> reduce::vals_v((#[trigger] r@[j])@) == keys[j],
        decreases groups.len() - i,
    {
        assert(groups@[i as int].ids@.len() == kinds@.len());
        r.push(key_of_group(ks, kinds, &groups[i].ids));
        i = i + 1;
    }
    assert(reduce::tuples_v(r@) =~= keys);
    r
}

/// Groups what a last stage makes of its driving rows, a batch at a time, and
/// puts the groups of the batches one after the other. Declines where a group
/// spans two batches, and where a key or an argument has no value for a row.
pub fn batched_agg_last_stage(
    g: &Graph,
    driving: &DataChunk,
    hops: &Vec<Hop>,
    filters: &Vec<Filter>,
    ks: &Vec<KeyVal>,
    args: &Vec<SiteArgVal>,
    sites: &Vec<AggSite>,
) -> (o: Result<Option<Vec<Group>>, RunError>)
    requires
        g.wf(),
        driving.wf(),
        driving.ids@.len() > 0,
        driving.prov@.len() == 0,
        forall|k: int|
            0 <= k < hops@.len() ==> hop::hop_fits(
                #[trigger] hops@[k],
                batch::steps_vars(hops@, names::of(driving.vars@), k as nat).len(),
            ),
        forall|k: int|
            0 <= k < filters@.len() ==> (#[trigger] filters@[k]).bound(
                batch::steps_vars(hops@, names::of(driving.vars@), hops@.len()),
            ),
        args@.len() == sites@.len(),
        forall|i: int|
            0 <= i < ks@.len() ==> reduce::key_wf(
                (#[trigger] ks@[i]).v(),
                batch::steps_vars(hops@, names::of(driving.vars@), hops@.len()).len(),
            ),
        forall|i: int|
            0 <= i < args@.len() ==> reduce::arg_wf(
                (#[trigger] args@[i]).v(),
                batch::steps_vars(hops@, names::of(driving.vars@), hops@.len()).len(),
            ),
    ensures
        ({
            let l = LastV {
                g: *g,
                hops: hops@,
                fs: filters@,
                vars: names::of(driving.vars@),
                kinds: driving.var_kinds@,
            };
            let p = last_view(l, ks@, args@, sites@, driving.weights@.len() > 0);
            let rows = driving.live_view();
            reduce::reduced_to(at_least_one(p, batched(l, p, rows, batch_count(rows))), o)
        }),
{
    let ghost l = LastV {
        g: *g,
        hops: hops@,
        fs: filters@,
        vars: names::of(driving.vars@),
        kinds: driving.var_kinds@,
    };
    let ghost p = last_view(l, ks@, args@, sites@, driving.weights@.len() > 0);
    let ghost rows = driving.live_view();
    let ghost all = batch_count(rows);
    let n = driving.live();
    let mut acc = BatchGroups::new();
    let mut start: usize = 0;
    let ghost mut b: nat = 0;
    proof {
        assert(reduce::tuples_v(acc.keys@) =~= Seq::empty());
        assert(reduce::groups_v(acc.groups@) =~= Seq::empty());
        assert(plan::sites_v(sites@).len() == sites@.len());
    }
    while start < n
        invariant
            start <= n,
            n == rows.len(),
            rows == driving.live_view(),
            all == batch_count(rows),
            start == batch_at(rows, b),
            start < n ==> start == b * MULTISTAGE_TOPK_BATCH,
            b <= all,
            start == n ==> b == all,
            g.wf(),
            driving.wf(),
            driving.ids@.len() > 0,
            driving.prov@.len() == 0,
            l == (LastV {
                g: *g,
                hops: hops@,
                fs: filters@,
                vars: names::of(driving.vars@),
                kinds: driving.var_kinds@,
            }),
            p == last_view(l, ks@, args@, sites@, driving.weights@.len() > 0),
            p.args.len() == p.fresh.len(),
            args@.len() == sites@.len(),
            forall|k: int|
                0 <= k < hops@.len() ==> hop::hop_fits(
                    #[trigger] hops@[k],
                    batch::steps_vars(hops@, l.vars, k as nat).len(),
                ),
            forall|k: int| 0 <= k < filters@.len() ==> (#[trigger] filters@[k]).bound(l.bound()),
            forall|i: int|
                0 <= i < ks@.len() ==> reduce::key_wf((#[trigger] ks@[i]).v(), l.bound().len()),
            forall|i: int|
                0 <= i < args@.len() ==> reduce::arg_wf((#[trigger] args@[i]).v(), l.bound().len()),
            batched(l, p, rows, b) == Reduced::Groups(
                reduce::tuples_v(acc.keys@),
                reduce::groups_v(acc.groups@),
            ),
        decreases n - start,
    {
        let end = batch_end(start, n);
        let part = driving.driving_slice(start, end);
        let ghost slice = unused(rows.subrange(start as int, end as int));
        let ghost k0 = reduce::tuples_v(acc.keys@);
        let ghost g0 = reduce::groups_v(acc.groups@);
        let ghost made = l.rows(slice);
        proof {
            assert(part.live_view() == slice);
            assert(end == batch_at(rows, b + 1));
            assert(b + 1 <= all);
            assert(end == n ==> b + 1 == all);
            assert(batched(l, p, rows, b + 1) == joined(
                Reduced::Groups(k0, g0),
                stage_groups(p, made),
            ));
        }
        let d = match expand_last_stage_batch(g, part, hops, filters) {
            Ok(Some(d)) => d,
            Ok(None) => {
                proof {
                    lemma_batched_stops(l, p, rows, b + 1, all);
                }
                return Ok(None);
            },
            Err(e) => {
                proof {
                    lemma_batched_stops(l, p, rows, b + 1, all);
                }
                return Err(e);
            },
        };
        assert(made == Some(Some(d.live_view())));
        assert(names::of(d.vars@).len() == d.vars@.len());
        if d.live() > 0 {
            if !is_covered(ks, args, &d, Ghost(p)) {
                proof {
                    lemma_batched_stops(l, p, rows, b + 1, all);
                }
                return Ok(None);
            }
            proof {
                assert(reduce::reduce_view(*g, d, ks@, args@, sites@) == p);
                assert forall|i: int| 0 <= i < ks@.len() implies reduce::key_covers(
                    (#[trigger] ks@[i]).v(),
                    d.live_view(),
                ) by {
                    assert(p.keys[i] == ks@[i].v());
                }
                assert forall|i: int| 0 <= i < args@.len() implies reduce::arg_covers(
                    (#[trigger] args@[i]).v(),
                    d.live_view(),
                ) by {
                    assert(p.args[i] == args@[i].v());
                }
            }
            let groups = match reduce_agg_groups(g, &d, ks, args, sites) {
                Ok(Some(v)) => v,
                Ok(None) => {
                    proof {
                        lemma_batched_stops(l, p, rows, b + 1, all);
                    }
                    return Ok(None);
                },
                Err(e) => {
                    proof {
                        lemma_batched_stops(l, p, rows, b + 1, all);
                    }
                    return Err(e);
                },
            };
            let ghost red = reduce(p, d.live_view());
            proof {
                assert forall|i: int| 0 <= i < d.live_view().len() implies (
                #[trigger] d.live_view()[i]).ids.len() == d.ids@.len() by {}
                lemma_group_keys(p, d.live_view(), d.ids@.len());
                assert forall|i: int| 0 <= i < groups@.len() implies (
                #[trigger] groups@[i]).ids@.len() == d.var_kinds@.len() && red->Groups_0[i]
                    == group_key(reduce::key_vals_v(ks@), d.var_kinds@, groups@[i].ids@) by {
                    assert(red->Groups_1[i] == groups@[i].v());
                }
                assert(reduce::groups_v(groups@).len() == groups@.len());
            }
            let keys = keys_of_groups(ks, &d.var_kinds, &groups, Ghost(red->Groups_0));
            let ghost acc0 = acc;
            if !acc.absorb(keys, groups) {
                proof {
                    lemma_batched_stops(l, p, rows, b + 1, all);
                }
                return Ok(None);
            }
            proof {
                assert(reduce::tuples_v(acc.keys@) =~= k0 + red->Groups_0);
                assert(reduce::groups_v(acc.groups@) =~= g0 + red->Groups_1);
            }
        } else {
            proof {
                assert(d.live_view() =~= Seq::empty());
                assert(k0 + Seq::<Seq<ValV>>::empty() =~= k0);
                assert(g0 + Seq::<GroupV>::empty() =~= g0);
            }
        }
        start = end;
        proof {
            b = b + 1;
        }
    }
    proof {
        assert(reduce::groups_v(acc.groups@).len() == acc.groups@.len());
        assert(reduce::key_vals_v(ks@).len() == ks@.len());
    }
    let mut groups = acc.groups;
    if groups.len() == 0 && ks.len() == 0 {
        let ids: Vec<u64> = Vec::new();
        let one = Group { ids, accs: reduce::fresh_accs(sites) };
        assert(one.v().ids =~= Seq::empty());
        groups.push(one);
        assert(reduce::groups_v(groups@) =~= seq![one.v()]);
    }
    Ok(Some(groups))
}

/// No group spans two batches if none of their keys is in both.
proof fn lemma_apart(p: ReduceV, keys: Seq<Seq<ValV>>, rows: Seq<RowV>, i: int)
    requires
        p.args.len() == p.fresh.len(),
        reduce(p, rows) is Groups,
        0 <= i < rows.len(),
        find_group(keys, row_key(p.keys, p.kinds, rows[i])) is Some,
    ensures
        collides(keys, reduce(p, rows)->Groups_0),
    decreases rows.len(),
{
    let before = rows.drop_last();
    let row = rows.last();
    let kb = reduce(p, before)->Groups_0;
    let all = reduce(p, rows)->Groups_0;
    let key = row_key(p.keys, p.kinds, row);
    reduce::lemma_reduce_wf(p, before);
    reduce::lemma_find_none(kb, key);
    if i < rows.len() - 1 {
        assert(before[i] == rows[i]);
        lemma_apart(p, keys, before, i);
        let j = choose|j: int| 0 <= j < kb.len() && find_group(keys, #[trigger] kb[j]) is Some;
        assert(all[j] == kb[j]);
    } else {
        match find_group(kb, key) {
            Some(j) => {
                assert(reduce::same_key(kb[j], key));
                assert(kb[j] =~= key) by {
                    assert forall|x: int| 0 <= x < key.len() implies kb[j][x] == key[x] by {
                        assert(reduce::same_val(kb[j][x], key[x]));
                    }
                }
                assert(all[j] == key);
            },
            None => {
                assert(all[kb.len() as int] == key);
            },
        }
    }
}

proof fn lemma_one_pass(l: LastV, p: ReduceV, rows: Seq<RowV>, n: nat)
    requires
        p.args.len() == p.fresh.len(),
        batched(l, p, rows, n) is Groups,
        l.rows(unused(rows.take(batch_at(rows, n)))) matches Some(Some(out)) && covered(p, out),
        !reduce::too_many(p, batched(l, p, rows, n)->Groups_1.len() as int),
    ensures
        reduce(p, l.rows(unused(rows.take(batch_at(rows, n))))->0->0) == batched(l, p, rows, n),
    decreases n,
{
    let out = l.rows(unused(rows.take(batch_at(rows, n))))->0->0;
    if n == 0 {
        let none = unused(rows.take(0));
        assert(none =~= Seq::empty());
        lemma_no_rows(l, l.hops.len(), l.fs.len());
        assert(out =~= Seq::empty());
    } else {
        let m = (n - 1) as nat;
        let cut = batch_at(rows, m);
        let end = batch_at(rows, n);
        let a = unused(rows.take(cut));
        let b = unused(rows.subrange(cut, end));
        assert(unused(rows.take(end)) =~= a + b);
        batch::law_batches_expand(l.g, l.hops, a, b, l.hops.len());
        let ra = batch::steps_rows(l.g, l.hops, a, l.hops.len())->0;
        let rb = batch::steps_rows(l.g, l.hops, b, l.hops.len())->0;
        batch::law_batches_filter(l.g, l.fs, l.bound(), l.bound_kinds(), ra, rb, l.fs.len());
        let oa = l.rows(a)->0->0;
        let ob = l.rows(b)->0->0;
        assert(out == oa + ob);
        lemma_covered(p, oa, ob);
        lemma_one_pass(l, p, rows, m);
        let ka = reduce(p, oa)->Groups_0;
        let kb = reduce(p, ob)->Groups_0;
        assert(group_laws::keys_apart(p, ka, ob)) by {
            assert forall|i: int| 0 <= i < ob.len() implies find_group(
                ka,
                row_key(p.keys, p.kinds, #[trigger] ob[i]),
            ) is None by {
                if find_group(ka, row_key(p.keys, p.kinds, ob[i])) is Some {
                    lemma_apart(p, ka, ob, i);
                }
            }
        }
        group_laws::law_batches_reduce(p, oa, ob);
    }
}

/// Batches are one pass: where the stage can be run on all driving rows at once,
/// and every key and argument has its values, the groups of the batches are the
/// groups of all rows together, as long as they are within the budget together.
pub proof fn law_batches_are_one_pass(l: LastV, p: ReduceV, rows: Seq<RowV>)
    requires
        p.args.len() == p.fresh.len(),
        batched(l, p, rows, batch_count(rows)) is Groups,
        l.rows(unused(rows)) matches Some(Some(out)) && covered(p, out),
        !reduce::too_many(p, batched(l, p, rows, batch_count(rows))->Groups_1.len() as int),
    ensures
        reduce(p, l.rows(unused(rows))->0->0) == batched(l, p, rows, batch_count(rows)),
{
    let n = batch_count(rows);
    assert(batch_at(rows, n) == rows.len());
    assert(rows.take(rows.len() as int) =~= rows);
    lemma_one_pass(l, p, rows, n);
}

proof fn lemma_covered(p: ReduceV, a: Seq<RowV>, b: Seq<RowV>)
    requires
        covered(p, a + b),
    ensures
        covered(p, a),
        covered(p, b),
{
    let both = a + b;
    assert forall|ids: Seq<u64>, vi: int| #[trigger]
        reduce::covers(ids, vi, both) implies reduce::covers(ids, vi, a) && reduce::covers(
        ids,
        vi,
        b,
    ) by {
        assert forall|k: int| 0 <= k < a.len() implies (#[trigger] a[k]).ids[vi] == NULL_ID
            || ids.contains(a[k].ids[vi]) by {
            assert(both[k] == a[k]);
        }
        assert forall|k: int| 0 <= k < b.len() implies (#[trigger] b[k]).ids[vi] == NULL_ID
            || ids.contains(b[k].ids[vi]) by {
            assert(both[a.len() + k] == b[k]);
        }
    }
    assert forall|i: int| 0 <= i < p.keys.len() implies reduce::key_covers(#[trigger] p.keys[i], a)
        && reduce::key_covers(p.keys[i], b) by {
        assert(reduce::key_covers(p.keys[i], both));
    }
    assert forall|i: int| 0 <= i < p.args.len() implies reduce::arg_covers(#[trigger] p.args[i], a)
        && reduce::arg_covers(p.args[i], b) by {
        assert(reduce::arg_covers(p.args[i], both));
    }
}

/// A stage makes no row of none.
proof fn lemma_no_rows(l: LastV, k: nat, n: nat)
    requires
        k <= l.hops.len(),
        n <= l.fs.len(),
    ensures
        batch::steps_rows(l.g, l.hops, Seq::empty(), k) matches Some(r) ==> r.len() == 0,
        forall|r: Seq<RowV>|
            #![trigger batch::filtered(l.g, l.fs, l.bound(), l.bound_kinds(), r, n)]
            r.len() == 0 ==> (batch::filtered(l.g, l.fs, l.bound(), l.bound_kinds(), r, n) matches Some(
                s,
            ) ==> s.len() == 0),
    decreases k + n,
{
    if k > 0 {
        lemma_no_rows(l, (k - 1) as nat, n);
    }
    if n > 0 {
        lemma_no_rows(l, k, (n - 1) as nat);
        assert forall|r: Seq<RowV>|
            #![trigger batch::filtered(l.g, l.fs, l.bound(), l.bound_kinds(), r, n)]
            r.len() == 0 implies (batch::filtered(
            l.g,
            l.fs,
            l.bound(),
            l.bound_kinds(),
            r,
            n,
        ) matches Some(s) ==> s.len() == 0) by {
            let s = batch::filtered(l.g, l.fs, l.bound(), l.bound_kinds(), r, (n - 1) as nat);
            if s is Some {
                assert(s->0 =~= Seq::empty());
                let f = |row: RowV| l.fs[n - 1].holds(l.g, l.bound(), row.ids);
                reveal(Seq::filter);
                assert(s->0.filter(f).len() == 0);
            }
        }
    }
}

} // verus!
