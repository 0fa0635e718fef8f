//! What grouping counts, whatever the order of the rows.

use vstd::prelude::*;

use crate::chunk::RowV;
use crate::reduce;
use crate::reduce::{find_group, lemma_find_none, lemma_reduce_wf, lemma_take_row_at, reduce, row_key, row_weight, same_key, take_one, take_row, AccV, GroupV, ReduceV, Reduced, Taken, ValV};

verus! {

/// How many matches the rows with a key stand for.
pub open spec fn key_weight(p: ReduceV, rows: Seq<RowV>, key: Seq<ValV>) -> int
    decreases rows.len(),
{
    if rows.len() == 0 {
        0
    } else {
        key_weight(p, rows.drop_last(), key) + if same_key(
            row_key(p.keys, p.kinds, rows.last()),
            key,
        ) {
            row_weight(p, rows.last())
        } else {
            0
        }
    }
}

/// A key that groups with itself: no part of it groups with nothing.
pub open spec fn groups_itself(key: Seq<ValV>) -> bool {
    same_key(key, key)
}

proof fn lemma_same_key(a: Seq<ValV>, b: Seq<ValV>, c: Seq<ValV>)
    requires
        same_key(a, b),
    ensures
        a =~= b,
        same_key(a, c) <==> same_key(b, c),
        same_key(c, a) <==> same_key(c, b),
{
    assert forall|i: int| 0 <= i < a.len() implies a[i] == b[i] by {
        assert(reduce::same_val(a[i], b[i]));
    }
}

/// The count of a group is the number of matches that the rows with its key
/// stand for. It depends on which rows there are, not on their order.
pub proof fn law_group_counts(p: ReduceV, rows: Seq<RowV>, s: int, i: int)
    requires
        p.args.len() == p.fresh.len(),
        0 <= s < p.fresh.len(),
        p.fresh[s] == AccV::Count(0),
        reduce(p, rows) is Groups,
        0 <= i < reduce(p, rows)->Groups_0.len(),
        groups_itself(reduce(p, rows)->Groups_0[i]),
    ensures
        reduce(p, rows)->Groups_1[i].accs[s] == AccV::Count(
            key_weight(p, rows, reduce(p, rows)->Groups_0[i]),
        ),
    decreases rows.len(),
{
    if rows.len() > 0 {
        let before = rows.drop_last();
        lemma_reduce_wf(p, before);
        lemma_reduce_wf(p, rows);
        let keys = reduce(p, before)->Groups_0;
        let groups = reduce(p, before)->Groups_1;
        let row = rows.last();
        let key = row_key(p.keys, p.kinds, row);
        let mine = reduce(p, rows)->Groups_0[i];
        lemma_find_none(keys, key);
        reduce::law_counts_add_up(p, before, s);
        match find_group(keys, key) {
            Some(k) => {
                law_group_counts(p, before, s, i);
                lemma_take_row_at(
                    groups[k].accs,
                    p.args,
                    p.kinds,
                    row,
                    p.weighted,
                    p.args.len(),
                );
                let a = take_row(
                    groups[k].accs,
                    p.args,
                    p.kinds,
                    row,
                    p.weighted,
                    p.args.len(),
                )->Done_0;
                assert(take_one(groups[k].accs[s], p.args[s], p.kinds, row, p.weighted)
                    == Taken::Done(a[s]));
                if i != k {
                    lemma_same_key(keys[k], key, mine);
                    if i < k {
                        reduce::law_keys_differ(p, before, i, k);
                    } else {
                        reduce::law_keys_differ(p, before, k, i);
                    }
                    if same_key(key, mine) {
                        lemma_same_key(key, mine, keys[k]);
                        lemma_same_key(keys[k], key, keys[i]);
                    }
                } else {
                    lemma_same_key(keys[k], key, key);
                }
            },
            None => {
                let gs = groups.push(GroupV { ids: row.ids, accs: p.fresh });
                let k = groups.len() as int;
                lemma_take_row_at(gs[k].accs, p.args, p.kinds, row, p.weighted, p.args.len());
                let a = take_row(
                    gs[k].accs,
                    p.args,
                    p.kinds,
                    row,
                    p.weighted,
                    p.args.len(),
                )->Done_0;
                assert(take_one(gs[k].accs[s], p.args[s], p.kinds, row, p.weighted) == Taken::Done(
                    a[s],
                ));
                if i < k {
                    law_group_counts(p, before, s, i);
                    assert(!same_key(keys[i], key));
                    if same_key(key, mine) {
                        lemma_same_key(key, mine, key);
                        assert(keys[i] =~= key);
                        assert(false);
                    }
                } else {
                    assert(mine == key);
                    lemma_key_unseen(p, before, key);
                }
            },
        }
    }
}

/// A key that no group has is that of no row.
proof fn lemma_key_unseen(p: ReduceV, rows: Seq<RowV>, key: Seq<ValV>)
    requires
        reduce(p, rows) is Groups,
        groups_itself(key),
        find_group(reduce(p, rows)->Groups_0, key) is None,
    ensures
        key_weight(p, rows, key) == 0,
    decreases rows.len(),
{
    if rows.len() > 0 {
        let before = rows.drop_last();
        let keys = reduce(p, before)->Groups_0;
        let all = reduce(p, rows)->Groups_0;
        let k = row_key(p.keys, p.kinds, rows.last());
        lemma_find_none(all, key);
        lemma_find_none(keys, key);
        lemma_find_none(keys, k);
        if find_group(keys, key) is Some {
            let j = find_group(keys, key)->0;
            assert(all[j] == keys[j]);
            assert(!same_key(all[j], key));
        }
        lemma_key_unseen(p, before, key);
        if same_key(k, key) {
            match find_group(keys, k) {
                Some(j) => {
                    lemma_same_key(k, key, keys[j]);
                    assert(all[j] == keys[j]);
                    assert(!same_key(all[j], key));
                },
                None => {
                    assert(all[keys.len() as int] == k);
                    assert(!same_key(all[keys.len() as int], key));
                },
            }
        }
    }
}

/// The same groups with a smaller key list in front are found further on.
proof fn lemma_find_after(a: Seq<Seq<ValV>>, b: Seq<Seq<ValV>>, key: Seq<ValV>)
    requires
        find_group(a, key) is None,
    ensures
        find_group(a + b, key) == match find_group(b, key) {
            Some(i) => Some(a.len() + i),
            None => None,
        },
    decreases b.len(),
{
    if b.len() == 0 {
        assert(a + b =~= a);
    } else {
        lemma_find_after(a, b.drop_last(), key);
        assert((a + b).drop_last() =~= a + b.drop_last());
    }
}

/// Whether no row has a key of some groups.
pub open spec fn keys_apart(p: ReduceV, keys: Seq<Seq<ValV>>, rows: Seq<RowV>) -> bool {
    forall|i: int|
        0 <= i < rows.len() ==> find_group(keys, row_key(p.keys, p.kinds, #[trigger] rows[i])) is None
}

/// Two batches of rows may be grouped apart and their groups put one after the
/// other, as long as no group spans both and the groups together are within the
/// budget.
pub proof fn law_batches_reduce(p: ReduceV, a: Seq<RowV>, b: Seq<RowV>)
    requires
        p.args.len() == p.fresh.len(),
        reduce(p, a) is Groups,
        reduce(p, b) is Groups,
        keys_apart(p, reduce(p, a)->Groups_0, b),
        !reduce::too_many(
            p,
            (reduce(p, a)->Groups_1.len() + reduce(p, b)->Groups_1.len()) as int,
        ),
    ensures
        reduce(p, a + b) == Reduced::Groups(
            reduce(p, a)->Groups_0 + reduce(p, b)->Groups_0,
            reduce(p, a)->Groups_1 + reduce(p, b)->Groups_1,
        ),
    decreases b.len(),
{
    let ka = reduce(p, a)->Groups_0;
    let ga = reduce(p, a)->Groups_1;
    if b.len() == 0 {
        assert(a + b =~= a);
        assert(ka + reduce(p, b)->Groups_0 =~= ka);
        assert(ga + reduce(p, b)->Groups_1 =~= ga);
    } else {
        let c = b.drop_last();
        let row = b.last();
        let key = row_key(p.keys, p.kinds, row);
        assert((a + b).drop_last() =~= a + c);
        assert((a + b).last() == row);
        assert(b[b.len() - 1] == row);
        assert(keys_apart(p, ka, c)) by {
            assert forall|i: int| 0 <= i < c.len() implies find_group(
                ka,
                row_key(p.keys, p.kinds, #[trigger] c[i]),
            ) is None by {
                assert(b[i] == c[i]);
            }
        }
        lemma_reduce_wf(p, a);
        lemma_reduce_wf(p, c);
        lemma_reduce_wf(p, b);
        let kc = reduce(p, c)->Groups_0;
        let gc = reduce(p, c)->Groups_1;
        assert(gc.len() <= reduce(p, b)->Groups_1.len());
        law_batches_reduce(p, a, c);
        lemma_find_after(ka, kc, key);
        lemma_find_none(kc, key);
        match find_group(kc, key) {
            Some(i) => {
                assert((ga + gc)[ga.len() + i] == gc[i]);
                let accs = take_row(
                    gc[i].accs,
                    p.args,
                    p.kinds,
                    row,
                    p.weighted,
                    p.args.len(),
                )->Done_0;
                let g = GroupV { ids: gc[i].ids, accs };
                assert((ga + gc).update(ga.len() + i, g) =~= ga + gc.update(i, g));
            },
            None => {
                let n = GroupV { ids: row.ids, accs: p.fresh };
                assert((ka + kc).push(key) =~= ka + kc.push(key));
                assert((ga + gc).push(n) =~= ga + gc.push(n));
                let k = gc.len() as int;
                let gs = gc.push(n);
                let accs = take_row(
                    p.fresh,
                    p.args,
                    p.kinds,
                    row,
                    p.weighted,
                    p.args.len(),
                )->Done_0;
                let g = GroupV { ids: row.ids, accs };
                assert((ga + gs)[ga.len() + k] == gs[k]);
                assert((ga + gs).update(ga.len() + k, g) =~= ga + gs.update(k, g));
            },
        }
    }
}

} // verus!
