//! A side of a join may be built from the starts that the other side has.

use vstd::prelude::*;

use crate::chain_rows::{apply_first, built, narrowed, seed_of, seed_rows, settle, step, BuildV, Built, StageV};
use crate::chunk;
use crate::chunk::{HopV, RowV};
use crate::graph::Graph;
use crate::hop;
use crate::join;
use crate::join::{join_rows, JoinV};
use crate::names;
use crate::operators;
use crate::operators::{reach, reach_makes, reach_rows};
use crate::runs::is_seed_of;
use crate::seeds;
use crate::select;
use crate::select::{ascending, Filter};
use crate::seqs;

verus! {

/// Whether a row starts at one of some nodes.
pub open spec fn starts_in(some: Seq<u64>) -> spec_fn(RowV) -> bool {
    |r: RowV| some.contains(r.ids[0])
}

/// Whether every row has a start.
spec fn rooted(rows: Seq<RowV>) -> bool {
    forall|i: int| 0 <= i < rows.len() ==> (#[trigger] rows[i]).ids.len() > 0
}

/// Whether every row starts where a row does.
spec fn from_row(rows: Seq<RowV>, row: RowV) -> bool {
    forall|i: int|
        0 <= i < rows.len() ==> (#[trigger] rows[i]).ids.len() > 0 && rows[i].ids[0] == row.ids[0]
}

/// Rows that start alike are all kept or all left out.
proof fn lemma_all_or_none(rows: Seq<RowV>, row: RowV, some: Seq<u64>)
    requires
        from_row(rows, row),
    ensures
        rows.filter(starts_in(some)) == if starts_in(some)(row) {
            rows
        } else {
            Seq::empty()
        },
    decreases rows.len(),
{
    let keep = starts_in(some);
    if rows.len() == 0 {
        assert(rows =~= Seq::empty());
        seqs::lemma_filter_empty(keep);
    } else {
        let p = rows.drop_last();
        assert(from_row(p, row)) by {
            assert forall|i: int| 0 <= i < p.len() implies (#[trigger] p[i]).ids.len() > 0
                && p[i].ids[0] == row.ids[0] by {
                assert(rows[i] == p[i]);
            }
        }
        lemma_all_or_none(p, row, some);
        seqs::lemma_filter_last(rows, keep);
        assert(rows[rows.len() - 1] == rows.last());
        assert(p.push(rows.last()) =~= rows);
    }
}

/// What a step makes of the rows that are kept is what is kept of what it makes.
proof fn lemma_made(
    made: Seq<RowV>,
    more: Seq<RowV>,
    kept: Seq<RowV>,
    row: RowV,
    some: Seq<u64>,
)
    requires
        from_row(more, row),
        kept == made.filter(starts_in(some)),
    ensures
        (made + more).filter(starts_in(some)) == if starts_in(some)(row) {
            kept + more
        } else {
            kept
        },
{
    Seq::filter_distributes_over_add(made, more, starts_in(some));
    lemma_all_or_none(more, row, some);
    assert(kept + Seq::<RowV>::empty() =~= kept);
}

proof fn lemma_expand_kept(g: Graph, h: HopV, rows: Seq<RowV>, some: Seq<u64>)
    requires
        rooted(rows),
    ensures
        chunk::expand_rows(g, h, rows.filter(starts_in(some))) == chunk::expand_rows(
            g,
            h,
            rows,
        ).filter(starts_in(some)),
        rooted(chunk::expand_rows(g, h, rows)),
    decreases rows.len(),
{
    let keep = starts_in(some);
    if rows.len() == 0 {
        assert(rows =~= Seq::empty());
        seqs::lemma_filter_empty(keep);
    } else {
        let p = rows.drop_last();
        let row = rows.last();
        assert(rows[rows.len() - 1] == row);
        lemma_rooted_part(rows);
        lemma_expand_kept(g, h, p, some);
        let more = chunk::expand_row(g, h, row);
        assert(from_row(more, row));
        let made = chunk::expand_rows(g, h, p);
        lemma_made(made, more, made.filter(keep), row, some);
        lemma_rooted_add(made, more, row);
        seqs::lemma_filter_last(rows, keep);
        if keep(row) {
            let s = p.filter(keep).push(row);
            assert(s.drop_last() =~= p.filter(keep));
        }
    }
}

proof fn lemma_close_kept(g: Graph, h: HopV, tgt: int, rows: Seq<RowV>, some: Seq<u64>)
    requires
        rooted(rows),
    ensures
        chunk::close_rows(g, h, tgt, rows.filter(starts_in(some))) == chunk::close_rows(
            g,
            h,
            tgt,
            rows,
        ).filter(starts_in(some)),
        rooted(chunk::close_rows(g, h, tgt, rows)),
    decreases rows.len(),
{
    let keep = starts_in(some);
    if rows.len() == 0 {
        assert(rows =~= Seq::empty());
        seqs::lemma_filter_empty(keep);
    } else {
        let p = rows.drop_last();
        let row = rows.last();
        assert(rows[rows.len() - 1] == row);
        lemma_rooted_part(rows);
        lemma_close_kept(g, h, tgt, p, some);
        let more = chunk::close_row(g, h, tgt, row);
        assert(from_row(more, row));
        let made = chunk::close_rows(g, h, tgt, p);
        lemma_made(made, more, made.filter(keep), row, some);
        lemma_rooted_add(made, more, row);
        seqs::lemma_filter_last(rows, keep);
        if keep(row) {
            let s = p.filter(keep).push(row);
            assert(s.drop_last() =~= p.filter(keep));
        }
    }
}

proof fn lemma_rooted_part(rows: Seq<RowV>)
    requires
        rooted(rows),
        rows.len() > 0,
    ensures
        rooted(rows.drop_last()),
{
    let p = rows.drop_last();
    assert forall|i: int| 0 <= i < p.len() implies (#[trigger] p[i]).ids.len() > 0 by {
        assert(rows[i] == p[i]);
    }
}

proof fn lemma_rooted_add(made: Seq<RowV>, more: Seq<RowV>, row: RowV)
    requires
        rooted(made),
        from_row(more, row),
    ensures
        rooted(made + more),
{
    assert forall|i: int| 0 <= i < (made + more).len() implies (#[trigger] (made + more)[i]).ids.len()
        > 0 by {
        if i < made.len() {
            assert(made[i].ids.len() > 0);
        } else {
            assert(more[i - made.len()].ids.len() > 0);
        }
    }
}

proof fn lemma_reach_kept(g: Graph, h: HopV, max: nat, rows: Seq<RowV>, some: Seq<u64>)
    requires
        rooted(rows),
        reach_rows(g, h, max, rows) is Some,
    ensures
        reach_rows(g, h, max, rows.filter(starts_in(some))) == Some(
            reach_rows(g, h, max, rows)->0.filter(starts_in(some)),
        ),
        rooted(reach_rows(g, h, max, rows)->0),
    decreases rows.len(),
{
    let keep = starts_in(some);
    if rows.len() == 0 {
        assert(rows =~= Seq::empty());
        seqs::lemma_filter_empty(keep);
    } else {
        let p = rows.drop_last();
        let row = rows.last();
        assert(rows[rows.len() - 1] == row);
        lemma_rooted_part(rows);
        lemma_reach_kept(g, h, max, p, some);
        let made = reach_rows(g, h, max, p)->0;
        let src = row.ids[h.src];
        let found = reach(g, h, made.len(), src, max)->0;
        let more = found.map_values(|v: u64| reach_makes(row, v));
        assert(from_row(more, row));
        let kept = made.filter(keep);
        lemma_made(made, more, kept, row, some);
        lemma_rooted_add(made, more, row);
        seqs::lemma_filter_last(rows, keep);
        if keep(row) {
            let s = p.filter(keep).push(row);
            assert(s.drop_last() =~= p.filter(keep));
            assert(kept.len() <= made.len()) by {
                made.lemma_filter_len(keep);
            }
            operators::lemma_reach_less(
                g,
                h,
                made.len(),
                kept.len(),
                Set::empty(),
                Seq::empty(),
                seq![src],
                0,
                max,
            );
        }
    }
}

/// Conditions keep of the rows that are kept what is kept of the rows that they keep.
proof fn lemma_apply_kept(g: Graph, fs: Seq<Filter>, st: StageV, n: nat, some: Seq<u64>)
    requires
        rooted(st.rows),
        apply_first(g, fs, st, n) is Some,
    ensures
        apply_first(
            g,
            fs,
            StageV { rows: st.rows.filter(starts_in(some)), ..st },
            n,
        ) == Some(apply_first(g, fs, st, n)->0.filter(starts_in(some))),
        rooted(apply_first(g, fs, st, n)->0),
    decreases n,
{
    if n > 0 {
        let keep = starts_in(some);
        lemma_apply_kept(g, fs, st, (n - 1) as nat, some);
        let rows = apply_first(g, fs, st, (n - 1) as nat)->0;
        let part = rows.filter(keep);
        let f = fs[st.pending[n - 1]];
        if f.bound(st.vars) {
            let holds = |row: RowV| f.holds(g, st.vars, row.ids);
            assert(narrowed(g, f, StageV { rows, ..st }) is Some);
            assert forall|k: int| 0 <= k < part.len() implies rows.contains(#[trigger] part[k]) by {
                assert(part.contains(part[k]));
                seqs::lemma_filter_contains(rows, keep, part[k]);
            }
            assert(f.answers(st.vars, st.kinds, part)) by {
                assert forall|k: int| 0 <= k < part.len() implies exists|i: int|
                    0 <= i < rows.len() && rows[i] == #[trigger] part[k] by {
                    assert(rows.contains(part[k]));
                }
            }
            lemma_filters_commute(rows, keep, holds);
            let out = rows.filter(holds);
            assert forall|i: int| 0 <= i < out.len() implies (#[trigger] out[i]).ids.len() > 0 by {
                assert(out.contains(out[i]));
                seqs::lemma_filter_contains(rows, holds, out[i]);
                let k = choose|k: int| 0 <= k < rows.len() && rows[k] == out[i];
                assert(rows[k].ids.len() > 0);
            }
        }
    }
}

proof fn lemma_filters_commute(
    s: Seq<RowV>,
    f: spec_fn(RowV) -> bool,
    g: spec_fn(RowV) -> bool,
)
    ensures
        s.filter(f).filter(g) == s.filter(g).filter(f),
    decreases s.len(),
{
    if s.len() == 0 {
        assert(s =~= Seq::empty());
        seqs::lemma_filter_empty(f);
        seqs::lemma_filter_empty(g);
    } else {
        let p = s.drop_last();
        let x = s.last();
        lemma_filters_commute(p, f, g);
        seqs::lemma_filter_last(s, f);
        seqs::lemma_filter_last(s, g);
        if f(x) {
            let a = p.filter(f).push(x);
            seqs::lemma_filter_last(a, g);
            assert(a.drop_last() =~= p.filter(f));
        }
        if g(x) {
            let b = p.filter(g).push(x);
            seqs::lemma_filter_last(b, f);
            assert(b.drop_last() =~= p.filter(g));
        }
    }
}

/// A stage with only the rows that start at some nodes.
pub open spec fn started(st: StageV, some: Seq<u64>) -> StageV {
    StageV { rows: st.rows.filter(starts_in(some)), ..st }
}

proof fn lemma_settle_kept(g: Graph, fs: Seq<Filter>, st: StageV, some: Seq<u64>)
    requires
        rooted(st.rows),
        settle(g, fs, st) is At,
    ensures
        settle(g, fs, started(st, some)) == Built::At(started(settle(g, fs, st)->At_0, some)),
        rooted(settle(g, fs, st)->At_0.rows),
{
    reveal(settle);
    lemma_apply_kept(g, fs, st, st.pending.len(), some);
}

proof fn lemma_step_kept(b: BuildV, k: int, st: StageV, some: Seq<u64>)
    requires
        rooted(st.rows),
        !b.hops[k].fold,
        step(b, k, st) is At,
    ensures
        step(b, k, started(st, some)) == Built::At(started(step(b, k, st)->At_0, some)),
        rooted(step(b, k, st)->At_0.rows),
{
    reveal(step);
    let h = b.hops[k];
    let tokens = b.g.type_tokens(names::of(h.types@));
    let members = seeds::end_members(b.g, names::of(h.labels@));
    let v = hop::hop_view(h, tokens, members);
    let keep = starts_in(some);
    match (h.varlen, h.tgt) {
        (Some(max), _) => {
            lemma_reach_kept(b.g, HopV { members, ..v }, max as nat, st.rows, some);
        },
        (None, None) => {
            lemma_expand_kept(b.g, v, st.rows, some);
            chunk::expand_rows(b.g, v, st.rows).lemma_filter_len(keep);
        },
        (None, Some(t)) => {
            lemma_close_kept(b.g, v, t as int, st.rows, some);
            chunk::close_rows(b.g, v, t as int, st.rows).lemma_filter_len(keep);
        },
    }
}

/// The starts of an ascending list that are in another ascending list are those.
proof fn lemma_part_of(all: Seq<u64>, some: Seq<u64>)
    requires
        ascending(all),
        ascending(some),
        forall|i: int| 0 <= i < some.len() ==> all.contains(#[trigger] some[i]),
    ensures
        seed_rows(all).filter(starts_in(some)) == seed_rows(some),
{
    let keep = |x: u64| some.contains(x);
    lemma_seed_filter(all, some, keep);
    let part = all.filter(keep);
    lemma_filter_ascends(all, keep);
    assert forall|x: u64| part.contains(x) <==> some.contains(x) by {
        seqs::lemma_filter_contains(all, keep, x);
        if some.contains(x) {
            let i = choose|i: int| 0 <= i < some.len() && some[i] == x;
            assert(all.contains(some[i]));
        }
    }
    lemma_ascending_same(part, some);
}

proof fn lemma_seed_filter(all: Seq<u64>, some: Seq<u64>, keep: spec_fn(u64) -> bool)
    requires
        keep == (|x: u64| some.contains(x)),
    ensures
        seed_rows(all).filter(starts_in(some)) == seed_rows(all.filter(keep)),
    decreases all.len(),
{
    let f = starts_in(some);
    if all.len() == 0 {
        assert(all =~= Seq::empty());
        seqs::lemma_filter_empty(keep);
        assert(seed_rows(all) =~= Seq::empty());
        seqs::lemma_filter_empty(f);
        assert(seed_rows(all.filter(keep)) =~= Seq::empty());
    } else {
        let p = all.drop_last();
        lemma_seed_filter(p, some, keep);
        seqs::lemma_filter_last(all, keep);
        assert(seed_rows(all).drop_last() =~= seed_rows(p));
        seqs::lemma_filter_last(seed_rows(all), f);
        assert(seed_rows(all).last().ids[0] == all.last());
        if keep(all.last()) {
            assert(seed_rows(all.filter(keep)) =~= seed_rows(p.filter(keep)).push(
                seed_rows(all).last(),
            ));
        }
    }
}

proof fn lemma_filter_ascends(all: Seq<u64>, keep: spec_fn(u64) -> bool)
    requires
        ascending(all),
    ensures
        ascending(all.filter(keep)),
    decreases all.len(),
{
    if all.len() == 0 {
        assert(all =~= Seq::empty());
        seqs::lemma_filter_empty(keep);
    } else {
        let p = all.drop_last();
        assert(ascending(p));
        lemma_filter_ascends(p, keep);
        seqs::lemma_filter_last(all, keep);
        let s = p.filter(keep);
        assert forall|i: int| 0 <= i < s.len() implies #[trigger] s[i] < all.last() by {
            assert(s.contains(s[i]));
            seqs::lemma_filter_contains(p, keep, s[i]);
            let k = choose|k: int| 0 <= k < p.len() && p[k] == s[i];
            assert(all[k] < all[all.len() - 1]);
        }
    }
}

/// Two ascending lists of the same are the same.
proof fn lemma_ascending_same(a: Seq<u64>, b: Seq<u64>)
    requires
        ascending(a),
        ascending(b),
        forall|x: u64| a.contains(x) <==> b.contains(x),
    ensures
        a == b,
    decreases a.len() + b.len(),
{
    if a.len() == 0 {
        if b.len() > 0 {
            assert(b.contains(b[0]));
            assert(a.contains(b[0]));
        }
        assert(a =~= b);
    } else if b.len() == 0 {
        assert(a.contains(a[0]));
        assert(b.contains(a[0]));
    } else {
        let x = a.last();
        let y = b.last();
        assert(a.contains(x) && b.contains(y)) by {
            assert(a[a.len() - 1] == x && b[b.len() - 1] == y);
        }
        let i = choose|i: int| 0 <= i < b.len() && b[i] == x;
        let j = choose|j: int| 0 <= j < a.len() && a[j] == y;
        assert(x == y) by {
            if i < b.len() - 1 {
                assert(b[i] < b[b.len() - 1]);
            }
            if j < a.len() - 1 {
                assert(a[j] < a[a.len() - 1]);
            }
        }
        let p = a.drop_last();
        let q = b.drop_last();
        assert(ascending(p) && ascending(q));
        assert forall|z: u64| p.contains(z) <==> q.contains(z) by {
            if p.contains(z) {
                let k = choose|k: int| 0 <= k < p.len() && p[k] == z;
                assert(a[k] == z && a[k] < a[a.len() - 1]);
                assert(b.contains(z)) by {
                    assert(a.contains(a[k]));
                }
                let r = choose|r: int| 0 <= r < b.len() && b[r] == z;
                assert(q[r] == z);
            }
            if q.contains(z) {
                let k = choose|k: int| 0 <= k < q.len() && q[k] == z;
                assert(b[k] == z && b[k] < b[b.len() - 1]);
                assert(a.contains(z)) by {
                    assert(b.contains(b[k]));
                }
                let r = choose|r: int| 0 <= r < a.len() && a[r] == z;
                assert(p[r] == z);
            }
        }
        lemma_ascending_same(p, q);
        assert(a =~= p.push(x));
        assert(b =~= q.push(y));
    }
}

/// A chain that is built from some of its starts has those of its rows that start
/// there, in their order.
pub proof fn law_fewer_starts_give_their_rows(
    b: BuildV,
    var: Seq<char>,
    all: Seq<u64>,
    some: Seq<u64>,
    k: int,
)
    requires
        0 <= k <= b.hops.len(),
        forall|i: int| 0 <= i < b.hops.len() ==> !(#[trigger] b.hops[i]).fold,
        ascending(all),
        ascending(some),
        forall|i: int| 0 <= i < some.len() ==> all.contains(#[trigger] some[i]),
        built(b, var, all, k) is At,
    ensures
        built(b, var, some, k) == Built::At(started(built(b, var, all, k)->At_0, some)),
{
    lemma_built_kept(b, var, all, some, k);
}

proof fn lemma_built_kept(b: BuildV, var: Seq<char>, all: Seq<u64>, some: Seq<u64>, k: int)
    requires
        0 <= k <= b.hops.len(),
        forall|i: int| 0 <= i < b.hops.len() ==> !(#[trigger] b.hops[i]).fold,
        ascending(all),
        ascending(some),
        forall|i: int| 0 <= i < some.len() ==> all.contains(#[trigger] some[i]),
        built(b, var, all, k) is At,
    ensures
        built(b, var, some, k) == Built::At(started(built(b, var, all, k)->At_0, some)),
        rooted(built(b, var, all, k)->At_0.rows),
    decreases k,
{
    if k == 0 {
        lemma_part_of(all, some);
        let st = seed_of(b, var, all);
        if st.rows.len() == 0 {
            assert(st.rows =~= Seq::empty());
            seqs::lemma_filter_empty(starts_in(some));
        }
        assert(seed_of(b, var, some).rows =~= started(st, some).rows) by {
            assert(seed_rows(Seq::empty()) =~= Seq::empty());
            seqs::lemma_filter_empty(starts_in(some));
        }
        assert(seed_of(b, var, some) == started(st, some));
        lemma_settle_kept(b.g, b.filters, st, some);
    } else {
        lemma_built_kept(b, var, all, some, k - 1);
        let st = built(b, var, all, k - 1)->At_0;
        lemma_step_kept(b, k - 1, st, some);
        lemma_settle_kept(b.g, b.filters, step(b, k - 1, st)->At_0, some);
    }
}

/// A side of a join may be built from the starts that the other side has: where the
/// sides agree on the column that the first holds them in, the joined rows are those of
/// the whole side, each as often.
pub proof fn law_join_from_fewer_starts(
    j: JoinV,
    i: int,
    ra: Seq<RowV>,
    b: BuildV,
    var: Seq<char>,
    all: Seq<u64>,
    seed: Seq<u64>,
)
    requires
        0 <= i < j.left.len(),
        j.left.len() == j.right.len(),
        j.right[i] == 0,
        forall|k: int| 0 <= k < b.hops.len() ==> !(#[trigger] b.hops[k]).fold,
        ascending(all),
        is_seed_of(seed, ra, j.left[i] as int),
        forall|k: int| 0 <= k < seed.len() ==> all.contains(#[trigger] seed[k]),
        built(b, var, all, b.hops.len() as int) is At,
    ensures
        built(b, var, seed, b.hops.len() as int) is At,
        join_rows(
            j,
            ra,
            built(b, var, seed, b.hops.len() as int)->At_0.rows,
        ).to_multiset() == join_rows(
            j,
            ra,
            built(b, var, all, b.hops.len() as int)->At_0.rows,
        ).to_multiset(),
{
    let n = b.hops.len() as int;
    law_fewer_starts_give_their_rows(b, var, all, seed, n);
    let rb = built(b, var, all, n)->At_0.rows;
    let keep = starts_in(seed);
    assert forall|x: int, y: int|
        #![trigger ra[x], rb[y]]
        0 <= x < ra.len() && 0 <= y < rb.len() && join::matching(j, ra[x], rb[y]) implies keep(
        rb[y],
    ) by {
        let l = select::pick(ra[x].ids, j.left);
        let r = select::pick(rb[y].ids, j.right);
        assert(l[i] == r[i]);
        assert(ra[x].ids[j.left[i] as int] == rb[y].ids[0]);
        assert(seed.contains(rb[y].ids[0]));
    }
    join::law_join_needs_partners(j, ra, rb, keep);
}

} // verus!
