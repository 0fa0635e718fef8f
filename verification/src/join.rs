//! Joining two chunks on the variables they share.

use std::collections::BTreeMap;
use vstd::multiset::Multiset;
use vstd::prelude::*;

use crate::chunk;
use crate::chunk::{DataChunk, RowV};
use crate::graph::{Graph, RunError};
use crate::names;
use crate::names::{empty_lists, name_index};
use crate::select;
use crate::select::same_ids;
use crate::seqs;
use crate::table;
use crate::table::{chunk_of, push_row};

verus! {

broadcast use {vstd::std_specs::btree::group_btree_axioms, vstd::laws_cmp::group_laws_cmp};

/// The columns of the left side whose variable the right side binds too, each
/// with the right side's column, in left order.
pub open spec fn shared_cols(a: Seq<Seq<char>>, b: Seq<Seq<char>>) -> Seq<(usize, usize)>
    decreases a.len(),
{
    if a.len() == 0 {
        Seq::empty()
    } else {
        let d = shared_cols(a.drop_last(), b);
        match names::position(b, a.last()) {
            Some(i) => d.push(((a.len() - 1) as usize, i as usize)),
            None => d,
        }
    }
}

/// The columns of the right side whose variable the left side does not bind.
pub open spec fn extra_cols(a: Seq<Seq<char>>, b: Seq<Seq<char>>) -> Seq<usize>
    decreases b.len(),
{
    if b.len() == 0 {
        Seq::empty()
    } else {
        let d = extra_cols(a, b.drop_last());
        if a.contains(b.last()) {
            d
        } else {
            d.push((b.len() - 1) as usize)
        }
    }
}

/// The left columns of the shared variables.
pub open spec fn left_of(s: Seq<(usize, usize)>) -> Seq<usize> {
    s.map_values(|p: (usize, usize)| p.0)
}

/// The right columns of the shared variables.
pub open spec fn right_of(s: Seq<(usize, usize)>) -> Seq<usize> {
    s.map_values(|p: (usize, usize)| p.1)
}

/// What a join of two tables matches on and adds.
pub struct JoinV {
    pub left: Seq<usize>,
    pub right: Seq<usize>,
    pub extra: Seq<usize>,
}

/// Whether two rows agree on the shared variables.
pub open spec fn matching(j: JoinV, a: RowV, b: RowV) -> bool {
    select::pick(a.ids, j.left) == select::pick(b.ids, j.right)
}

/// The ids of a joined pair.
pub open spec fn joined(j: JoinV, a: RowV, b: RowV) -> Seq<u64> {
    a.ids + select::pick(b.ids, j.extra)
}

/// The pairs of one right row, in left order.
pub open spec fn pairs_of_right(j: JoinV, ra: Seq<RowV>, b: RowV) -> Seq<Seq<u64>> {
    seqs::keep_map(ra, |a: RowV| matching(j, a, b), |a: RowV| joined(j, a, b))
}

/// The pairs of one left row, in right order.
pub open spec fn pairs_of_left(j: JoinV, a: RowV, rb: Seq<RowV>) -> Seq<Seq<u64>> {
    seqs::keep_map(rb, |b: RowV| matching(j, a, b), |b: RowV| joined(j, a, b))
}

/// The pairs, right row by right row.
pub open spec fn pairs_by_right(j: JoinV, ra: Seq<RowV>, rb: Seq<RowV>) -> Seq<Seq<u64>>
    decreases rb.len(),
{
    if rb.len() == 0 {
        Seq::empty()
    } else {
        pairs_by_right(j, ra, rb.drop_last()) + pairs_of_right(j, ra, rb.last())
    }
}

/// The pairs, left row by left row: the nested loop.
pub open spec fn pairs_by_left(j: JoinV, ra: Seq<RowV>, rb: Seq<RowV>) -> Seq<Seq<u64>>
    decreases ra.len(),
{
    if ra.len() == 0 {
        Seq::empty()
    } else {
        pairs_by_left(j, ra.drop_last(), rb) + pairs_of_left(j, ra.last(), rb)
    }
}

/// The joined rows: the side with fewer live rows is looked up, the left one
/// when they have as many, and the other gives the order.
pub open spec fn join_rows(j: JoinV, ra: Seq<RowV>, rb: Seq<RowV>) -> Seq<Seq<u64>> {
    if ra.len() <= rb.len() {
        pairs_by_right(j, ra, rb)
    } else {
        pairs_by_left(j, ra, rb)
    }
}

proof fn lemma_by_right_push(j: JoinV, ra: Seq<RowV>, a: RowV, rb: Seq<RowV>)
    ensures
        pairs_by_right(j, ra.push(a), rb).to_multiset() == pairs_by_right(
            j,
            ra,
            rb,
        ).to_multiset().add(pairs_of_left(j, a, rb).to_multiset()),
    decreases rb.len(),
{
    broadcast use {
        vstd::multiset::group_multiset_axioms,
        vstd::seq_lib::group_to_multiset_ensures,
    };

    let keep = |b: RowV| matching(j, a, b);
    let make = |b: RowV| joined(j, a, b);
    if rb.len() == 0 {
        seqs::lemma_filter_empty(keep);
        assert(rb =~= Seq::empty());
        assert(pairs_of_left(j, a, rb) =~= Seq::empty());
        assert(pairs_by_right(j, ra.push(a), rb).to_multiset() =~= pairs_by_right(
            j,
            ra,
            rb,
        ).to_multiset().add(pairs_of_left(j, a, rb).to_multiset()));
    } else {
        let d = rb.drop_last();
        let b = rb.last();
        lemma_by_right_push(j, ra, a, d);
        let ka = |x: RowV| matching(j, x, b);
        let ma = |x: RowV| joined(j, x, b);
        assert(ra.push(a).take(ra.len() as int) =~= ra);
        assert(ra.push(a).take((ra.len() + 1) as int) =~= ra.push(a));
        seqs::lemma_keep_map_take(ra.push(a), ra.len() as int, ka, ma);
        assert(rb.take(d.len() as int) =~= d);
        assert(rb.take((d.len() + 1) as int) =~= rb);
        seqs::lemma_keep_map_take(rb, d.len() as int, keep, make);
        let x = pairs_by_right(j, ra.push(a), d);
        let y = pairs_by_right(j, ra, d);
        let p0 = pairs_of_right(j, ra, b);
        let p1 = pairs_of_right(j, ra.push(a), b);
        let l0 = pairs_of_left(j, a, d);
        let l1 = pairs_of_left(j, a, rb);
        vstd::seq_lib::lemma_multiset_commutative(x, p1);
        vstd::seq_lib::lemma_multiset_commutative(y, p0);
        if matching(j, a, b) {
            let one = seq![joined(j, a, b)];
            assert(p1 =~= p0 + one);
            assert(l1 =~= l0 + one);
            vstd::seq_lib::lemma_multiset_commutative(p0, one);
            vstd::seq_lib::lemma_multiset_commutative(l0, one);
        }
        assert(pairs_by_right(j, ra.push(a), rb).to_multiset() =~= pairs_by_right(
            j,
            ra,
            rb,
        ).to_multiset().add(l1.to_multiset()));
    }
}

proof fn lemma_no_left(j: JoinV, rb: Seq<RowV>)
    ensures
        pairs_by_right(j, Seq::empty(), rb) == Seq::<Seq<u64>>::empty(),
    decreases rb.len(),
{
    if rb.len() > 0 {
        lemma_no_left(j, rb.drop_last());
        seqs::lemma_filter_empty(|a: RowV| matching(j, a, rb.last()));
        assert(pairs_of_right(j, Seq::empty(), rb.last()) =~= Seq::empty());
        assert(pairs_by_right(j, Seq::empty(), rb) =~= Seq::empty());
    }
}

/// The joined rows are those of the nested loop, each as often, whichever
/// side is looked up.
pub proof fn law_join_is_nested_loop(j: JoinV, ra: Seq<RowV>, rb: Seq<RowV>)
    ensures
        join_rows(j, ra, rb).to_multiset() == pairs_by_left(j, ra, rb).to_multiset(),
{
    lemma_sides(j, ra, rb);
}

/// Dropping what is not asked for after keeping what qualifies changes nothing
/// where everything asked for qualifies.
proof fn lemma_filter_twice(s: Seq<RowV>, keep: spec_fn(RowV) -> bool, ask: spec_fn(RowV) -> bool)
    requires
        forall|i: int| 0 <= i < s.len() && ask(#[trigger] s[i]) ==> keep(s[i]),
    ensures
        s.filter(keep).filter(ask) == s.filter(ask),
    decreases s.len(),
{
    if s.len() == 0 {
        assert(s =~= Seq::empty());
        seqs::lemma_filter_empty(keep);
        seqs::lemma_filter_empty(ask);
    } else {
        let d = s.drop_last();
        assert forall|i: int| 0 <= i < d.len() && ask(#[trigger] d[i]) implies keep(d[i]) by {
            assert(d[i] == s[i]);
        }
        lemma_filter_twice(d, keep, ask);
        seqs::lemma_filter_last(s, keep);
        seqs::lemma_filter_last(s, ask);
        assert(s[s.len() - 1] == s.last());
        if keep(s.last()) {
            let kept = d.filter(keep).push(s.last());
            seqs::lemma_filter_last(kept, ask);
            assert(kept.drop_last() =~= d.filter(keep));
        }
    }
}

/// A join may leave out the rows of one side that agree with no row of the other:
/// the joined rows are the same, each as often.
pub proof fn law_join_needs_partners(
    j: JoinV,
    ra: Seq<RowV>,
    rb: Seq<RowV>,
    keep: spec_fn(RowV) -> bool,
)
    requires
        forall|i: int, k: int|
            #![trigger ra[i], rb[k]]
            0 <= i < ra.len() && 0 <= k < rb.len() && matching(j, ra[i], rb[k]) ==> keep(rb[k]),
    ensures
        join_rows(j, ra, rb.filter(keep)).to_multiset() == join_rows(j, ra, rb).to_multiset(),
{
    lemma_sides(j, ra, rb);
    lemma_sides(j, ra, rb.filter(keep));
    lemma_partners(j, ra, rb, keep);
}

proof fn lemma_partners(
    j: JoinV,
    ra: Seq<RowV>,
    rb: Seq<RowV>,
    keep: spec_fn(RowV) -> bool,
)
    requires
        forall|i: int, k: int|
            #![trigger ra[i], rb[k]]
            0 <= i < ra.len() && 0 <= k < rb.len() && matching(j, ra[i], rb[k]) ==> keep(rb[k]),
    ensures
        pairs_by_left(j, ra, rb.filter(keep)) == pairs_by_left(j, ra, rb),
    decreases ra.len(),
{
    if ra.len() > 0 {
        let d = ra.drop_last();
        let a = ra.last();
        assert forall|i: int, k: int|
            #![trigger d[i], rb[k]]
            0 <= i < d.len() && 0 <= k < rb.len() && matching(j, d[i], rb[k]) implies keep(rb[k]) by {
            assert(d[i] == ra[i]);
        }
        lemma_partners(j, d, rb, keep);
        let ask = |b: RowV| matching(j, a, b);
        assert forall|k: int| 0 <= k < rb.len() && ask(#[trigger] rb[k]) implies keep(rb[k]) by {
            assert(ra[ra.len() - 1] == a);
        }
        lemma_filter_twice(rb, keep, ask);
    }
}

proof fn lemma_sides(j: JoinV, ra: Seq<RowV>, rb: Seq<RowV>)
    ensures
        pairs_by_right(j, ra, rb).to_multiset() == pairs_by_left(j, ra, rb).to_multiset(),
    decreases ra.len(),
{
    broadcast use {
        vstd::multiset::group_multiset_axioms,
        vstd::seq_lib::group_to_multiset_ensures,
    };

    if ra.len() == 0 {
        assert(ra =~= Seq::empty());
        lemma_no_left(j, rb);
    } else {
        let d = ra.drop_last();
        lemma_sides(j, d, rb);
        assert(d.push(ra.last()) =~= ra);
        lemma_by_right_push(j, d, ra.last(), rb);
        vstd::seq_lib::lemma_multiset_commutative(
            pairs_by_left(j, d, rb),
            pairs_of_left(j, ra.last(), rb),
        );
    }
}

/// The key that a bucket of rows shares: the id of the first shared variable.
spec fn bucket_key(ids: Seq<u64>, cols: Seq<usize>) -> u64 {
    if cols.len() == 0 {
        0
    } else {
        ids[cols[0] as int]
    }
}

/// The live positions among the first `n` whose row has a bucket key.
spec fn bucket(rows: Seq<RowV>, cols: Seq<usize>, key: u64, n: nat) -> Seq<usize>
    decreases n,
{
    if n == 0 {
        Seq::empty()
    } else {
        let d = bucket(rows, cols, key, (n - 1) as nat);
        if bucket_key(rows[n - 1].ids, cols) == key {
            d.push((n - 1) as usize)
        } else {
            d
        }
    }
}

/// Looking up a bucket and testing its rows is filtering all rows.
proof fn lemma_bucket<B>(
    rows: Seq<RowV>,
    cols: Seq<usize>,
    key: u64,
    n: nat,
    keep: spec_fn(RowV) -> bool,
    make: spec_fn(RowV) -> B,
)
    requires
        n <= rows.len(),
        rows.len() <= usize::MAX,
        forall|r: RowV| #[trigger] keep(r) ==> bucket_key(r.ids, cols) == key,
    ensures
        seqs::keep_map(
            bucket(rows, cols, key, n),
            |k: usize| keep(rows[k as int]),
            |k: usize| make(rows[k as int]),
        ) == seqs::keep_map(rows.take(n as int), keep, make),
    decreases n,
{
    let kk = |k: usize| keep(rows[k as int]);
    let mm = |k: usize| make(rows[k as int]);
    let s = bucket(rows, cols, key, n);
    if n == 0 {
        seqs::lemma_keep_map_empty(rows, keep, make);
        seqs::lemma_keep_map_empty(s, kk, mm);
        assert(s.take(0) =~= s);
    } else {
        lemma_bucket(rows, cols, key, (n - 1) as nat, keep, make);
        seqs::lemma_keep_map_take(rows, n - 1, keep, make);
        let d = bucket(rows, cols, key, (n - 1) as nat);
        if bucket_key(rows[n - 1].ids, cols) == key {
            assert(s.take(d.len() as int) =~= d);
            assert(s.take((d.len() + 1) as int) =~= s);
            seqs::lemma_keep_map_take(s, d.len() as int, kk, mm);
        }
    }
}

/// The live rows of a chunk by the id of their first shared variable.
fn index_rows(c: &DataChunk, cols: &Vec<usize>) -> (m: BTreeMap<u64, Vec<usize>>)
    requires
        c.wf(),
        forall|k: int| 0 <= k < cols@.len() ==> #[trigger] cols@[k] < c.ids@.len(),
    ensures
        forall|key: u64|
            #![trigger m@.contains_key(key)]
            if m@.contains_key(key) {
                m@[key]@ == bucket(c.live_view(), cols@, key, c.selection@.len())
            } else {
                bucket(c.live_view(), cols@, key, c.selection@.len()) == Seq::<usize>::empty()
            },
{
    let ghost rows = c.live_view();
    let mut m: BTreeMap<u64, Vec<usize>> = BTreeMap::new();
    let mut k: usize = 0;
    while k < c.selection.len()
        invariant
            k <= c.selection@.len(),
            c.wf(),
            rows == c.live_view(),
            forall|k: int| 0 <= k < cols@.len() ==> #[trigger] cols@[k] < c.ids@.len(),
            forall|key: u64|
                #![trigger m@.contains_key(key)]
                if m@.contains_key(key) {
                    m@[key]@ == bucket(rows, cols@, key, k as nat)
                } else {
                    bucket(rows, cols@, key, k as nat) == Seq::<usize>::empty()
                },
        decreases c.selection.len() - k,
    {
        let r = c.selection[k];
        assert(c.selection@[k as int] < c.rows());
        let key: u64 = if cols.len() == 0 {
            0
        } else {
            assert(cols@[0] < c.ids@.len());
            assert(c.ids@[cols@[0] as int]@.len() == c.rows());
            c.ids[cols[0]][r]
        };
        assert(key == bucket_key(rows[k as int].ids, cols@));
        let ghost m0 = m@;
        let mut list: Vec<usize> = match m.remove(&key) {
            Some(v) => v,
            None => Vec::new(),
        };
        assert(list@ == bucket(rows, cols@, key, k as nat)) by {
            assert(m0.contains_key(key) || !m0.contains_key(key));
        }
        list.push(k);
        m.insert(key, list);
        proof {
            assert forall|x: u64|
                #![trigger m@.contains_key(x)]
                if m@.contains_key(x) {
                    m@[x]@ == bucket(rows, cols@, x, (k + 1) as nat)
                } else {
                    bucket(rows, cols@, x, (k + 1) as nat) == Seq::<usize>::empty()
                } by {
                assert(m0.contains_key(x) || !m0.contains_key(x));
            }
        }
        k = k + 1;
    }
    m
}

/// Join two chunks on the variables they share: one row per matching pair,
/// the left row's ids and then the right row's other ids.
pub fn hash_join_chunks(g: &Graph, a: &DataChunk, b: &DataChunk) -> (res: Result<
    DataChunk,
    RunError,
>)
    requires
        a.wf(),
        b.wf(),
        a.ids@.len() > 0,
    ensures
        ({
            let va = names::of(a.vars@);
            let vb = names::of(b.vars@);
            let shared = shared_cols(va, vb);
            let j = JoinV {
                left: left_of(shared),
                right: right_of(shared),
                extra: extra_cols(va, vb),
            };
            let rows = join_rows(j, a.live_view(), b.live_view());
            match res {
                Ok(c) => {
                    &&& !g.over_budget(rows.len() as int)
                    &&& c.wf()
                    &&& c.dense()
                    &&& c.live_view() == table::plain_rows(rows)
                    &&& names::of(c.vars@) == va + j.extra.map_values(|i: usize| vb[i as int])
                    &&& c.var_kinds@ == a.var_kinds@ + j.extra.map_values(
                        |i: usize| b.var_kinds@[i as int],
                    )
                    &&& c.prov@.len() == 0
                    &&& c.weights@.len() == 0
                },
                Err(e) => e == RunError::RowBudget && g.over_budget(rows.len() as int),
            }
        }),
{
    let ghost va = names::of(a.vars@);
    let ghost vb = names::of(b.vars@);
    let ghost shared = shared_cols(va, vb);
    let ghost j = JoinV {
        left: left_of(shared),
        right: right_of(shared),
        extra: extra_cols(va, vb),
    };
    let mut left: Vec<usize> = Vec::new();
    let mut right: Vec<usize> = Vec::new();
    let mut i: usize = 0;
    proof {
        assert(va.take(0) =~= Seq::empty());
        assert(left_of(Seq::empty()) =~= Seq::<usize>::empty());
        assert(right_of(Seq::empty()) =~= Seq::<usize>::empty());
    }
    while i < a.vars.len()
        invariant
            i <= a.vars@.len(),
            a.wf(),
            b.wf(),
            va == names::of(a.vars@),
            vb == names::of(b.vars@),
            left@ == left_of(shared_cols(va.take(i as int), vb)),
            right@ == right_of(shared_cols(va.take(i as int), vb)),
            forall|k: int| 0 <= k < left@.len() ==> #[trigger] left@[k] < a.ids@.len(),
            forall|k: int| 0 <= k < right@.len() ==> #[trigger] right@[k] < b.ids@.len(),
        decreases a.vars.len() - i,
    {
        proof {
            seqs::lemma_take_last(va, i as int);
        }
        let ghost d = shared_cols(va.take(i as int), vb);
        match name_index(&b.vars, &a.vars[i]) {
            Some(bi) => {
                left.push(i);
                right.push(bi);
                proof {
                    let s = d.push((i, bi));
                    assert(shared_cols(va.take(i + 1), vb) == s);
                    assert(left@ =~= left_of(s));
                    assert(right@ =~= right_of(s));
                }
            },
            None => {},
        }
        i = i + 1;
    }
    assert(va.take(i as int) =~= va);
    let mut extra: Vec<usize> = Vec::new();
    let mut vars = crate::names::copy_names(&a.vars);
    let mut kinds = crate::chunk::copy_kinds(&a.var_kinds);
    let ghost vf = |i: usize| vb[i as int];
    let ghost kf = |i: usize| b.var_kinds@[i as int];
    let mut i: usize = 0;
    proof {
        assert(vb.take(0) =~= Seq::empty());
        assert(names::of(vars@) =~= va + Seq::<usize>::empty().map_values(vf));
        assert(kinds@ =~= a.var_kinds@ + Seq::<usize>::empty().map_values(kf));
    }
    while i < b.vars.len()
        invariant
            i <= b.vars@.len(),
            b.wf(),
            va == names::of(a.vars@),
            vb == names::of(b.vars@),
            vf == (|i: usize| vb[i as int]),
            kf == (|i: usize| b.var_kinds@[i as int]),
            extra@ == extra_cols(va, vb.take(i as int)),
            forall|k: int| 0 <= k < extra@.len() ==> #[trigger] extra@[k] < b.ids@.len(),
            names::of(vars@) == va + extra@.map_values(vf),
            kinds@ == a.var_kinds@ + extra@.map_values(kf),
            vars@.len() == a.vars@.len() + extra@.len(),
        decreases b.vars.len() - i,
    {
        proof {
            seqs::lemma_take_last(vb, i as int);
        }
        if name_index(&a.vars, &b.vars[i]).is_none() {
            let ghost e0 = extra@;
            let ghost v0 = vars@;
            extra.push(i);
            vars.push(b.vars[i].clone());
            kinds.push(b.var_kinds[i]);
            proof {
                assert(extra@.map_values(vf) =~= e0.map_values(vf).push(vb[i as int]));
                assert(extra@.map_values(kf) =~= e0.map_values(kf).push(b.var_kinds@[i as int]));
                assert(names::of(vars@) =~= names::of(v0).push(vb[i as int]));
                assert(names::of(vars@) =~= va + extra@.map_values(vf));
                assert(kinds@ =~= a.var_kinds@ + extra@.map_values(kf));
            }
        }
        i = i + 1;
    }
    assert(vb.take(i as int) =~= vb);
    assert(names::of(vars@).len() == vars@.len());
    let mut cols = empty_lists(vars.len());
    let ghost ra = a.live_view();
    let ghost rb = b.live_view();
    proof {
        assert(cols@[0]@.len() == 0);
        assert(table::rows_of(cols@) =~= Seq::empty());
    }
    let na = a.live();
    let nb = b.live();
    if na <= nb {
        let m = index_rows(a, &left);
        let mut k: usize = 0;
        assert(rb.take(0) =~= Seq::empty());
        while k < b.selection.len()
            invariant
                k <= b.selection@.len(),
                a.wf(),
                b.wf(),
                va == names::of(a.vars@),
                vb == names::of(b.vars@),
                shared == shared_cols(va, vb),
                j == (JoinV {
                    left: left_of(shared),
                    right: right_of(shared),
                    extra: extra_cols(va, vb),
                }),
                ra == a.live_view(),
                rb == b.live_view(),
                na == ra.len(),
                nb == rb.len(),
                na <= nb,
                j.left == left@,
                j.right == right@,
                j.extra == extra@,
                left@.len() == right@.len(),
                forall|k: int| 0 <= k < left@.len() ==> #[trigger] left@[k] < a.ids@.len(),
                forall|k: int| 0 <= k < right@.len() ==> #[trigger] right@[k] < b.ids@.len(),
                forall|k: int| 0 <= k < extra@.len() ==> #[trigger] extra@[k] < b.ids@.len(),
                forall|key: u64|
                    #![trigger m@.contains_key(key)]
                    if m@.contains_key(key) {
                        m@[key]@ == bucket(ra, left@, key, ra.len())
                    } else {
                        bucket(ra, left@, key, ra.len()) == Seq::<usize>::empty()
                    },
                cols@.len() == a.ids@.len() + extra@.len(),
                a.ids@.len() > 0,
                table::aligned(cols@),
                table::rows_of(cols@) == pairs_by_right(j, ra, rb.take(k as int)),
                !g.over_budget(table::rows_of(cols@).len() as int),
            decreases b.selection.len() - k,
        {
            let br = b.selection[k];
            assert(b.selection@[k as int] < b.rows());
            let want = b.pick_ids(br, &right);
            let tail = b.pick_ids(br, &extra);
            let ghost row = b.row(br as int);
            let ghost keep = |x: RowV| matching(j, x, row);
            let ghost make = |x: RowV| joined(j, x, row);
            let ghost before = table::rows_of(cols@);
            let key: u64 = if right.len() == 0 {
                0
            } else {
                want[0]
            };
            let none: Vec<usize> = Vec::new();
            let list: &Vec<usize> = match m.get(&key) {
                Some(v) => v,
                None => &none,
            };
            let ghost kk = |q: usize| keep(ra[q as int]);
            let ghost mm = |q: usize| make(ra[q as int]);
            proof {
                assert(m@.contains_key(key) || !m@.contains_key(key));
                assert(list@ == bucket(ra, left@, key, ra.len()));
                assert(rb[k as int] == row);
                assert forall|x: RowV| #[trigger] keep(x) implies bucket_key(x.ids, left@) == key by {
                    if left@.len() > 0 {
                        assert(select::pick(x.ids, left@)[0] == select::pick(row.ids, right@)[0]);
                    }
                }
                lemma_bucket(ra, left@, key, ra.len(), keep, make);
                assert(ra.take(ra.len() as int) =~= ra);
                seqs::lemma_keep_map_empty(list@, kk, mm);
                assert(before + Seq::<Seq<u64>>::empty() =~= before);
                lemma_bucket_bound(ra, left@, key, ra.len());
                seqs::lemma_take_last(rb, k as int);
            }
            let mut q: usize = 0;
            while q < list.len()
                invariant
                    q <= list@.len(),
                    a.wf(),
                    va == names::of(a.vars@),
                    vb == names::of(b.vars@),
                    shared == shared_cols(va, vb),
                    j == (JoinV {
                        left: left_of(shared),
                        right: right_of(shared),
                        extra: extra_cols(va, vb),
                    }),
                    ra == a.live_view(),
                    rb == b.live_view(),
                    na == ra.len(),
                    nb == rb.len(),
                    na <= nb,
                    j.left == left@,
                    j.right == right@,
                    j.extra == extra@,
                    want@ == select::pick(row.ids, right@),
                    tail@ == select::pick(row.ids, extra@),
                    forall|k: int| 0 <= k < left@.len() ==> #[trigger] left@[k] < a.ids@.len(),
                    keep == (|x: RowV| matching(j, x, row)),
                    make == (|x: RowV| joined(j, x, row)),
                    kk == (|q: usize| keep(ra[q as int])),
                    mm == (|q: usize| make(ra[q as int])),
                    forall|i: int| 0 <= i < list@.len() ==> #[trigger] list@[i] < ra.len(),
                    cols@.len() == a.ids@.len() + extra@.len(),
                    a.ids@.len() > 0,
                    table::aligned(cols@),
                    table::rows_of(cols@) == before + seqs::keep_map(list@.take(q as int), kk, mm),
                    !g.over_budget(table::rows_of(cols@).len() as int),
                    pairs_by_right(j, ra, rb.take(k + 1)) == before + seqs::keep_map(
                        list@,
                        kk,
                        mm,
                    ),
                    k < rb.len(),
                decreases list.len() - q,
            {
                let ka = list[q];
                assert(list@[q as int] < ra.len());
                let ar = a.selection[ka];
                assert(a.selection@[ka as int] < a.rows());
                let have = a.pick_ids(ar, &left);
                proof {
                    seqs::lemma_keep_map_take(list@, q as int, kk, mm);
                    assert(ra[ka as int] == a.row(ar as int));
                    assert(kk(ka) == (have@ == want@));
                }
                if same_ids(&have, &want) {
                    let mut ids = a.row_ids(ar);
                    let ghost ids0 = ids@;
                    let mut t: usize = 0;
                    while t < tail.len()
                        invariant
                            t <= tail@.len(),
                            ids@ == ids0 + tail@.take(t as int),
                        decreases tail.len() - t,
                    {
                        ids.push(tail[t]);
                        proof {
                            seqs::lemma_take_last(tail@, t as int);
                            assert(ids@ =~= ids0 + tail@.take(t + 1));
                        }
                        t = t + 1;
                    }
                    proof {
                        assert(tail@.take(t as int) =~= tail@);
                        assert(ids@ == mm(ka));
                    }
                    push_row(&mut cols, &ids);
                    proof {
                        assert(cols@[0]@.len() == table::rows_of(cols@).len());
                        assert(table::rows_of(cols@) =~= before + seqs::keep_map(
                            list@.take(q + 1),
                            kk,
                            mm,
                        ));
                        lemma_keep_map_prefix(list@, q + 1, kk, mm);
                        lemma_by_right_prefix(j, ra, rb, k + 1);
                    }
                    match g.budget_check(cols[0].len()) {
                        Ok(()) => {},
                        Err(e) => {
                            return Err(e);
                        },
                    }
                }
                q = q + 1;
            }
            proof {
                assert(list@.take(q as int) =~= list@);
            }
            k = k + 1;
        }
        assert(rb.take(k as int) =~= rb);
    } else {
        let m = index_rows(b, &right);
        let mut k: usize = 0;
        assert(ra.take(0) =~= Seq::empty());
        while k < a.selection.len()
            invariant
                k <= a.selection@.len(),
                a.wf(),
                b.wf(),
                va == names::of(a.vars@),
                vb == names::of(b.vars@),
                shared == shared_cols(va, vb),
                j == (JoinV {
                    left: left_of(shared),
                    right: right_of(shared),
                    extra: extra_cols(va, vb),
                }),
                ra == a.live_view(),
                rb == b.live_view(),
                na == ra.len(),
                nb == rb.len(),
                na > nb,
                j.left == left@,
                j.right == right@,
                j.extra == extra@,
                left@.len() == right@.len(),
                forall|k: int| 0 <= k < left@.len() ==> #[trigger] left@[k] < a.ids@.len(),
                forall|k: int| 0 <= k < right@.len() ==> #[trigger] right@[k] < b.ids@.len(),
                forall|k: int| 0 <= k < extra@.len() ==> #[trigger] extra@[k] < b.ids@.len(),
                forall|key: u64|
                    #![trigger m@.contains_key(key)]
                    if m@.contains_key(key) {
                        m@[key]@ == bucket(rb, right@, key, rb.len())
                    } else {
                        bucket(rb, right@, key, rb.len()) == Seq::<usize>::empty()
                    },
                cols@.len() == a.ids@.len() + extra@.len(),
                a.ids@.len() > 0,
                table::aligned(cols@),
                table::rows_of(cols@) == pairs_by_left(j, ra.take(k as int), rb),
                !g.over_budget(table::rows_of(cols@).len() as int),
            decreases a.selection.len() - k,
        {
            let ar = a.selection[k];
            assert(a.selection@[k as int] < a.rows());
            let want = a.pick_ids(ar, &left);
            let ghost row = a.row(ar as int);
            let ghost keep = |x: RowV| matching(j, row, x);
            let ghost make = |x: RowV| joined(j, row, x);
            let ghost before = table::rows_of(cols@);
            let key: u64 = if left.len() == 0 {
                0
            } else {
                want[0]
            };
            let none: Vec<usize> = Vec::new();
            let list: &Vec<usize> = match m.get(&key) {
                Some(v) => v,
                None => &none,
            };
            let ghost kk = |q: usize| keep(rb[q as int]);
            let ghost mm = |q: usize| make(rb[q as int]);
            proof {
                assert(m@.contains_key(key) || !m@.contains_key(key));
                assert(list@ == bucket(rb, right@, key, rb.len()));
                assert(ra[k as int] == row);
                assert forall|x: RowV| #[trigger] keep(x) implies bucket_key(x.ids, right@) == key by {
                    if right@.len() > 0 {
                        assert(select::pick(row.ids, left@)[0] == select::pick(x.ids, right@)[0]);
                    }
                }
                lemma_bucket(rb, right@, key, rb.len(), keep, make);
                assert(rb.take(rb.len() as int) =~= rb);
                seqs::lemma_keep_map_empty(list@, kk, mm);
                assert(before + Seq::<Seq<u64>>::empty() =~= before);
                lemma_bucket_bound(rb, right@, key, rb.len());
                seqs::lemma_take_last(ra, k as int);
            }
            let mut q: usize = 0;
            while q < list.len()
                invariant
                    q <= list@.len(),
                    a.wf(),
                    b.wf(),
                    ar < a.rows(),
                    row == a.row(ar as int),
                    va == names::of(a.vars@),
                    vb == names::of(b.vars@),
                    shared == shared_cols(va, vb),
                    j == (JoinV {
                        left: left_of(shared),
                        right: right_of(shared),
                        extra: extra_cols(va, vb),
                    }),
                    ra == a.live_view(),
                    rb == b.live_view(),
                    na == ra.len(),
                    nb == rb.len(),
                    na > nb,
                    j.left == left@,
                    j.right == right@,
                    j.extra == extra@,
                    want@ == select::pick(row.ids, left@),
                    forall|k: int| 0 <= k < right@.len() ==> #[trigger] right@[k] < b.ids@.len(),
                    forall|k: int| 0 <= k < extra@.len() ==> #[trigger] extra@[k] < b.ids@.len(),
                    keep == (|x: RowV| matching(j, row, x)),
                    make == (|x: RowV| joined(j, row, x)),
                    kk == (|q: usize| keep(rb[q as int])),
                    mm == (|q: usize| make(rb[q as int])),
                    forall|i: int| 0 <= i < list@.len() ==> #[trigger] list@[i] < rb.len(),
                    cols@.len() == a.ids@.len() + extra@.len(),
                    a.ids@.len() > 0,
                    table::aligned(cols@),
                    table::rows_of(cols@) == before + seqs::keep_map(list@.take(q as int), kk, mm),
                    !g.over_budget(table::rows_of(cols@).len() as int),
                    pairs_by_left(j, ra.take(k + 1), rb) == before + seqs::keep_map(list@, kk, mm),
                    k < ra.len(),
                decreases list.len() - q,
            {
                let kb = list[q];
                assert(list@[q as int] < rb.len());
                let br = b.selection[kb];
                assert(b.selection@[kb as int] < b.rows());
                let have = b.pick_ids(br, &right);
                proof {
                    seqs::lemma_keep_map_take(list@, q as int, kk, mm);
                    assert(rb[kb as int] == b.row(br as int));
                    assert(kk(kb) == (want@ == have@));
                }
                if same_ids(&have, &want) {
                    let tail = b.pick_ids(br, &extra);
                    let mut ids = a.row_ids(ar);
                    let ghost ids0 = ids@;
                    let mut t: usize = 0;
                    while t < tail.len()
                        invariant
                            t <= tail@.len(),
                            ids@ == ids0 + tail@.take(t as int),
                        decreases tail.len() - t,
                    {
                        ids.push(tail[t]);
                        proof {
                            seqs::lemma_take_last(tail@, t as int);
                            assert(ids@ =~= ids0 + tail@.take(t + 1));
                        }
                        t = t + 1;
                    }
                    proof {
                        assert(tail@.take(t as int) =~= tail@);
                        assert(ids@ == mm(kb));
                    }
                    push_row(&mut cols, &ids);
                    proof {
                        assert(cols@[0]@.len() == table::rows_of(cols@).len());
                        assert(table::rows_of(cols@) =~= before + seqs::keep_map(
                            list@.take(q + 1),
                            kk,
                            mm,
                        ));
                        lemma_keep_map_prefix(list@, q + 1, kk, mm);
                        lemma_by_left_prefix(j, ra, rb, k + 1);
                    }
                    match g.budget_check(cols[0].len()) {
                        Ok(()) => {},
                        Err(e) => {
                            return Err(e);
                        },
                    }
                }
                q = q + 1;
            }
            proof {
                assert(list@.take(q as int) =~= list@);
            }
            k = k + 1;
        }
        assert(ra.take(k as int) =~= ra);
    }
    Ok(chunk_of(vars, kinds, cols))
}

proof fn lemma_bucket_bound(rows: Seq<RowV>, cols: Seq<usize>, key: u64, n: nat)
    requires
        n <= rows.len(),
        rows.len() <= usize::MAX,
    ensures
        forall|i: int|
            0 <= i < bucket(rows, cols, key, n).len() ==> #[trigger] bucket(
                rows,
                cols,
                key,
                n,
            )[i] < rows.len(),
    decreases n,
{
    if n > 0 {
        lemma_bucket_bound(rows, cols, key, (n - 1) as nat);
        let d = bucket(rows, cols, key, (n - 1) as nat);
        let s = bucket(rows, cols, key, n);
        assert forall|i: int| 0 <= i < s.len() implies #[trigger] s[i] < rows.len() by {
            if i < d.len() {
                assert(s[i] == d[i]);
            } else {
                assert(s[i] == (n - 1) as usize);
            }
        }
    }
}

proof fn lemma_keep_map_prefix<A, B>(
    s: Seq<A>,
    i: int,
    keep: spec_fn(A) -> bool,
    make: spec_fn(A) -> B,
)
    requires
        0 <= i <= s.len(),
    ensures
        seqs::keep_map(s.take(i), keep, make).len() <= seqs::keep_map(s, keep, make).len(),
    decreases s.len() - i,
{
    if i == s.len() {
        assert(s.take(i) =~= s);
    } else {
        seqs::lemma_keep_map_take(s, i, keep, make);
        lemma_keep_map_prefix(s, i + 1, keep, make);
    }
}

proof fn lemma_by_right_prefix(j: JoinV, ra: Seq<RowV>, rb: Seq<RowV>, i: int)
    requires
        0 <= i <= rb.len(),
    ensures
        pairs_by_right(j, ra, rb.take(i)).len() <= pairs_by_right(j, ra, rb).len(),
    decreases rb.len() - i,
{
    if i == rb.len() {
        assert(rb.take(i) =~= rb);
    } else {
        seqs::lemma_take_last(rb, i);
        lemma_by_right_prefix(j, ra, rb, i + 1);
    }
}

proof fn lemma_by_left_prefix(j: JoinV, ra: Seq<RowV>, rb: Seq<RowV>, i: int)
    requires
        0 <= i <= ra.len(),
    ensures
        pairs_by_left(j, ra.take(i), rb).len() <= pairs_by_left(j, ra, rb).len(),
    decreases ra.len() - i,
{
    if i == ra.len() {
        assert(ra.take(i) =~= ra);
    } else {
        seqs::lemma_take_last(ra, i);
        lemma_by_left_prefix(j, ra, rb, i + 1);
    }
}

} // verus!
