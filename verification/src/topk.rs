//! The first rows of a sorted result, kept while the rows come in.

use vstd::prelude::*;

use crate::chunk::{DataChunk, RowV};
use crate::names;
use crate::reduce::find_id;
use crate::select::ascending;
use crate::seqs;

verus! {

/// The number of rows that a skip and a limit ask for.
pub fn topk_cap(limit: usize, skip: Option<usize>) -> (r: usize)
    ensures
        r == if limit + match skip {
            Some(s) => s as int,
            None => 0,
        } > usize::MAX {
            usize::MAX as int
        } else {
            limit + match skip {
                Some(s) => s as int,
                None => 0,
            }
        },
{
    let s: usize = match skip {
        Some(s) => s,
        None => 0,
    };
    match limit.checked_add(s) {
        Some(n) => n,
        None => usize::MAX,
    }
}

/// Whether one string of bytes sorts before another.
pub open spec fn bytes_less(a: Seq<u8>, b: Seq<u8>) -> bool
    decreases a.len(),
{
    if b.len() == 0 {
        false
    } else if a.len() == 0 {
        true
    } else if a[0] != b[0] {
        a[0] < b[0]
    } else {
        bytes_less(a.skip(1), b.skip(1))
    }
}

/// Whether one tuple of sort keys comes before another. Each key is a string of
/// bytes that sorts as the value does; a key may sort downwards.
pub open spec fn key_less(a: Seq<Seq<u8>>, b: Seq<Seq<u8>>, down: Seq<bool>) -> bool
    decreases down.len(),
{
    if down.len() == 0 || a.len() == 0 || b.len() == 0 {
        false
    } else if a[0] != b[0] {
        if down[0] {
            bytes_less(b[0], a[0])
        } else {
            bytes_less(a[0], b[0])
        }
    } else {
        key_less(a.skip(1), b.skip(1), down.skip(1))
    }
}

proof fn lemma_skip_one<A>(a: Seq<A>, b: Seq<A>)
    requires
        a.len() > 0,
        b.len() > 0,
        a[0] == b[0],
        a.skip(1) == b.skip(1),
    ensures
        a == b,
{
    assert(a.len() == a.skip(1).len() + 1);
    assert(b.len() == b.skip(1).len() + 1);
    assert forall|i: int| 0 <= i < a.len() implies a[i] == b[i] by {
        if i > 0 {
            assert(a.skip(1)[i - 1] == a[i]);
            assert(b.skip(1)[i - 1] == b[i]);
        }
    }
    assert(a =~= b);
}

proof fn lemma_bytes_total(a: Seq<u8>, b: Seq<u8>)
    ensures
        a == b || bytes_less(a, b) || bytes_less(b, a),
        !(bytes_less(a, b) && bytes_less(b, a)),
        !bytes_less(a, a),
    decreases a.len(),
{
    if a.len() == 0 && b.len() == 0 {
        assert(a =~= b);
    } else if a.len() > 0 {
        lemma_bytes_total(a.skip(1), a.skip(1));
        if b.len() > 0 && a[0] == b[0] {
            lemma_bytes_total(a.skip(1), b.skip(1));
            if a.skip(1) == b.skip(1) {
                lemma_skip_one(a, b);
            }
        }
    }
}

proof fn lemma_bytes_trans(a: Seq<u8>, b: Seq<u8>, c: Seq<u8>)
    requires
        bytes_less(a, b),
        bytes_less(b, c),
    ensures
        bytes_less(a, c),
    decreases a.len(),
{
    if a.len() > 0 && a[0] == b[0] && b[0] == c[0] {
        lemma_bytes_trans(a.skip(1), b.skip(1), c.skip(1));
    }
}

proof fn lemma_key_total(a: Seq<Seq<u8>>, b: Seq<Seq<u8>>, down: Seq<bool>)
    requires
        a.len() == down.len(),
        b.len() == down.len(),
    ensures
        a == b || key_less(a, b, down) || key_less(b, a, down),
        !(key_less(a, b, down) && key_less(b, a, down)),
        !key_less(a, a, down),
    decreases down.len(),
{
    if down.len() == 0 {
        assert(a =~= b);
    } else {
        lemma_key_total(a.skip(1), a.skip(1), down.skip(1));
        lemma_bytes_total(a[0], b[0]);
        if a[0] == b[0] {
            lemma_key_total(a.skip(1), b.skip(1), down.skip(1));
            if a.skip(1) == b.skip(1) {
                lemma_skip_one(a, b);
            }
        }
    }
}

proof fn lemma_key_trans(a: Seq<Seq<u8>>, b: Seq<Seq<u8>>, c: Seq<Seq<u8>>, down: Seq<bool>)
    requires
        key_less(a, b, down),
        key_less(b, c, down),
        a.len() == down.len(),
        b.len() == down.len(),
        c.len() == down.len(),
    ensures
        key_less(a, c, down),
    decreases down.len(),
{
    lemma_bytes_total(a[0], b[0]);
    lemma_bytes_total(b[0], c[0]);
    lemma_bytes_total(a[0], c[0]);
    if a[0] == b[0] && b[0] == c[0] {
        lemma_key_trans(a.skip(1), b.skip(1), c.skip(1), down.skip(1));
    } else if a[0] != b[0] && b[0] != c[0] {
        if down[0] {
            lemma_bytes_trans(c[0], b[0], a[0]);
        } else {
            lemma_bytes_trans(a[0], b[0], c[0]);
        }
    }
}

/// A row with its sort keys and its place among the rows that came in.
#[derive(Debug)]
pub struct Entry {
    pub key: Vec<Vec<u8>>,
    pub seq: u64,
    pub ids: Vec<u64>,
}

/// An [`Entry`].
pub struct EntryV {
    pub key: Seq<Seq<u8>>,
    pub seq: u64,
    pub ids: Seq<u64>,
}

/// Sort keys.
pub open spec fn keys_v(s: Seq<Vec<u8>>) -> Seq<Seq<u8>> {
    s.map_values(|k: Vec<u8>| k@)
}

impl Entry {
    pub open spec fn v(self) -> EntryV {
        EntryV { key: keys_v(self.key@), seq: self.seq, ids: self.ids@ }
    }
}

/// Rows with their sort keys.
pub open spec fn entries_v(s: Seq<Entry>) -> Seq<EntryV> {
    s.map_values(|e: Entry| e.v())
}

/// Whether one row comes before another: by its keys, else by when it came in.
pub open spec fn before(a: EntryV, b: EntryV, down: Seq<bool>) -> bool {
    key_less(a.key, b.key, down) || (a.key == b.key && a.seq < b.seq)
}

/// Where a row goes among the rows that are kept.
pub open spec fn place(buf: Seq<EntryV>, e: EntryV, down: Seq<bool>) -> int
    decreases buf.len(),
{
    if buf.len() == 0 {
        0
    } else if before(buf[0], e, down) {
        1 + place(buf.skip(1), e, down)
    } else {
        0
    }
}

/// The rows that are kept once a row has come in.
pub open spec fn keep(buf: Seq<EntryV>, e: EntryV, cap: int, down: Seq<bool>) -> Seq<EntryV> {
    let at = place(buf, e, down);
    if at >= cap {
        buf
    } else {
        let all = buf.insert(at, e);
        if all.len() > cap {
            all.take(cap)
        } else {
            all
        }
    }
}

/// The rows that are kept once rows have come in.
pub open spec fn keep_all(buf: Seq<EntryV>, es: Seq<EntryV>, cap: int, down: Seq<bool>) -> Seq<EntryV>
    decreases es.len(),
{
    if es.len() == 0 {
        buf
    } else {
        keep(keep_all(buf, es.drop_last(), cap, down), es.last(), cap, down)
    }
}

/// Rows may come in batch by batch: what is kept of all of them is what is kept
/// of the second batch on top of the first.
pub proof fn law_topk_batches(
    buf: Seq<EntryV>,
    a: Seq<EntryV>,
    b: Seq<EntryV>,
    cap: int,
    down: Seq<bool>,
)
    ensures
        keep_all(buf, a + b, cap, down) == keep_all(keep_all(buf, a, cap, down), b, cap, down),
    decreases b.len(),
{
    if b.len() == 0 {
        assert(a + b =~= a);
    } else {
        assert((a + b).drop_last() =~= a + b.drop_last());
        law_topk_batches(buf, a, b.drop_last(), cap, down);
    }
}

/// The rows are in order.
pub open spec fn in_order(buf: Seq<EntryV>, down: Seq<bool>) -> bool {
    forall|i: int, j: int| 0 <= i < j < buf.len() ==> before(#[trigger] buf[i], #[trigger] buf[j], down)
}

/// Each row has as many keys as are sorted by.
pub open spec fn keyed(es: Seq<EntryV>, n: nat) -> bool {
    forall|i: int| 0 <= i < es.len() ==> (#[trigger] es[i]).key.len() == n
}

/// The rows came in one after another.
pub open spec fn numbered(es: Seq<EntryV>) -> bool {
    forall|i: int, j: int| 0 <= i < j < es.len() ==> (#[trigger] es[i]).seq < (#[trigger] es[j]).seq
}

proof fn lemma_before_total(a: EntryV, b: EntryV, down: Seq<bool>)
    requires
        a.key.len() == down.len(),
        b.key.len() == down.len(),
        a.seq != b.seq,
    ensures
        before(a, b, down) != before(b, a, down),
{
    lemma_key_total(a.key, b.key, down);
}

proof fn lemma_before_trans(a: EntryV, b: EntryV, c: EntryV, down: Seq<bool>)
    requires
        a.key.len() == down.len(),
        b.key.len() == down.len(),
        c.key.len() == down.len(),
        before(a, b, down),
        before(b, c, down),
    ensures
        before(a, c, down),
{
    if key_less(a.key, b.key, down) && key_less(b.key, c.key, down) {
        lemma_key_trans(a.key, b.key, c.key, down);
    }
}

proof fn lemma_place(buf: Seq<EntryV>, e: EntryV, down: Seq<bool>)
    ensures
        0 <= place(buf, e, down) <= buf.len(),
        forall|i: int| 0 <= i < place(buf, e, down) ==> before(#[trigger] buf[i], e, down),
        place(buf, e, down) < buf.len() ==> !before(buf[place(buf, e, down)], e, down),
    decreases buf.len(),
{
    if buf.len() > 0 && before(buf[0], e, down) {
        let rest = buf.skip(1);
        lemma_place(rest, e, down);
        let at = place(rest, e, down);
        assert forall|i: int| 0 <= i < at + 1 implies before(#[trigger] buf[i], e, down) by {
            if i > 0 {
                assert(rest[i - 1] == buf[i]);
            }
        }
        if at < rest.len() {
            assert(rest[at] == buf[at + 1]);
        }
    }
}

/// What is kept of rows are the first of them in order: the kept rows are in
/// order, no more than the cap, all of them came in, and a row that is not
/// kept comes after every kept one, of which there are as many as the cap.
pub proof fn law_topk_keeps_first(es: Seq<EntryV>, cap: nat, down: Seq<bool>)
    requires
        keyed(es, down.len()),
        numbered(es),
    ensures
        ({
            let buf = keep_all(Seq::empty(), es, cap as int, down);
            &&& in_order(buf, down)
            &&& buf.len() <= cap
            &&& forall|i: int| 0 <= i < buf.len() ==> es.contains(#[trigger] buf[i])
            &&& forall|k: int|
                0 <= k < es.len() ==> buf.contains(#[trigger] es[k]) || (buf.len() == cap && forall|
                    i: int,
                |
                    0 <= i < buf.len() ==> before(#[trigger] buf[i], es[k], down))
        }),
    decreases es.len(),
{
    if es.len() > 0 {
        let ds = es.drop_last();
        let e = es.last();
        assert(keyed(ds, down.len())) by {
            assert forall|i: int| 0 <= i < ds.len() implies (#[trigger] ds[i]).key.len()
                == down.len() by {
                assert(es[i] == ds[i]);
            }
        }
        assert(numbered(ds)) by {
            assert forall|i: int, j: int| 0 <= i < j < ds.len() implies (#[trigger] ds[i]).seq < (
            #[trigger] ds[j]).seq by {
                assert(es[i] == ds[i] && es[j] == ds[j]);
            }
        }
        law_topk_keeps_first(ds, cap, down);
        lemma_keep_first(es, cap, down);
    }
}

/// Rows in order: by their keys, and those with equal keys as they came in.
pub open spec fn sorted(es: Seq<EntryV>, down: Seq<bool>) -> Seq<EntryV> {
    keep_all(Seq::empty(), es, es.len() as int, down)
}

/// The first rows of an order, as many as a cap allows.
pub open spec fn first_of(es: Seq<EntryV>, cap: int, down: Seq<bool>) -> Seq<EntryV> {
    sorted(es, down).take(if cap < es.len() {
        cap
    } else {
        es.len() as int
    })
}

/// A cap that is not reached changes nothing, and no row is lost.
proof fn lemma_uncapped(es: Seq<EntryV>, cap: int, down: Seq<bool>)
    requires
        es.len() <= cap,
    ensures
        keep_all(Seq::empty(), es, cap, down) == sorted(es, down),
        sorted(es, down).len() == es.len(),
        sorted(es, down).to_multiset() =~= es.to_multiset(),
    decreases es.len(),
{
    broadcast use vstd::seq_lib::group_to_multiset_ensures;

    if es.len() > 0 {
        let ds = es.drop_last();
        let e = es.last();
        lemma_uncapped(ds, cap, down);
        lemma_uncapped(ds, es.len() as int, down);
        let b = sorted(ds, down);
        lemma_place(b, e, down);
        let at = place(b, e, down);
        let all = b.insert(at, e);
        assert(all.remove(at) =~= b);
        assert(all[at] == e);
        all.to_multiset_ensures();
        assert(all.contains(e));
        assert(all.to_multiset() =~= b.to_multiset().insert(e));
        assert(es =~= ds.push(e));
    }
}

proof fn lemma_place_take(buf: Seq<EntryV>, e: EntryV, down: Seq<bool>, n: int)
    requires
        0 <= n <= buf.len(),
    ensures
        place(buf.take(n), e, down) == if place(buf, e, down) < n {
            place(buf, e, down)
        } else {
            n
        },
    decreases n,
{
    lemma_place(buf, e, down);
    if n > 0 && before(buf[0], e, down) {
        assert(buf.take(n).skip(1) =~= buf.skip(1).take(n - 1));
        lemma_place_take(buf.skip(1), e, down, n - 1);
        lemma_place(buf.skip(1), e, down);
    }
}

/// Keeping rows as they come in is sorting them: what is kept under a cap are the
/// first rows of the order in which rows with equal keys stay as they came in, and
/// that order holds every row as often as it came in.
pub proof fn law_topk_is_first_of_sort(es: Seq<EntryV>, cap: int, down: Seq<bool>)
    requires
        0 <= cap,
        keyed(es, down.len()),
        numbered(es),
    ensures
        keep_all(Seq::empty(), es, cap, down) == first_of(es, cap, down),
        in_order(sorted(es, down), down),
        sorted(es, down).len() == es.len(),
        sorted(es, down).to_multiset() == es.to_multiset(),
{
    lemma_uncapped(es, es.len() as int, down);
    law_topk_keeps_first(es, es.len(), down);
    lemma_first_of(es, cap, down);
}

proof fn lemma_first_of(es: Seq<EntryV>, cap: int, down: Seq<bool>)
    requires
        0 <= cap,
    ensures
        keep_all(Seq::empty(), es, cap, down) == first_of(es, cap, down),
    decreases es.len(),
{
    lemma_uncapped(es, es.len() as int, down);
    if es.len() == 0 {
        assert(first_of(es, cap, down) =~= Seq::empty());
    } else if es.len() <= cap {
        lemma_uncapped(es, cap, down);
        assert(sorted(es, down).take(es.len() as int) =~= sorted(es, down));
    } else {
        let ds = es.drop_last();
        let e = es.last();
        lemma_first_of(ds, cap, down);
        lemma_uncapped(ds, es.len() as int, down);
        let b = sorted(ds, down);
        let at = place(b, e, down);
        lemma_place(b, e, down);
        lemma_place_take(b, e, down, cap);
        assert(first_of(ds, cap, down) == b.take(cap));
        assert(sorted(es, down) == b.insert(at, e));
        if at >= cap {
            assert(b.insert(at, e).take(cap) =~= b.take(cap));
        } else {
            assert(b.take(cap).insert(at, e).take(cap) =~= b.insert(at, e).take(cap));
        }
    }
}

proof fn lemma_keep_first(es: Seq<EntryV>, cap: nat, down: Seq<bool>)
    requires
        es.len() > 0,
        keyed(es, down.len()),
        numbered(es),
        ({
            let ds = es.drop_last();
            let buf = keep_all(Seq::empty(), ds, cap as int, down);
            &&& in_order(buf, down)
            &&& buf.len() <= cap
            &&& forall|i: int| 0 <= i < buf.len() ==> ds.contains(#[trigger] buf[i])
            &&& forall|k: int|
                0 <= k < ds.len() ==> buf.contains(#[trigger] ds[k]) || (buf.len() == cap && forall|
                    i: int,
                |
                    0 <= i < buf.len() ==> before(#[trigger] buf[i], ds[k], down))
        }),
    ensures
        ({
            let buf = keep_all(Seq::empty(), es, cap as int, down);
            &&& in_order(buf, down)
            &&& buf.len() <= cap
            &&& forall|i: int| 0 <= i < buf.len() ==> es.contains(#[trigger] buf[i])
            &&& forall|k: int|
                0 <= k < es.len() ==> buf.contains(#[trigger] es[k]) || (buf.len() == cap && forall|
                    i: int,
                |
                    0 <= i < buf.len() ==> before(#[trigger] buf[i], es[k], down))
        }),
{
    let ds = es.drop_last();
    let e = es.last();
    let b0 = keep_all(Seq::empty(), ds, cap as int, down);
    let b1 = keep_all(Seq::empty(), es, cap as int, down);
    let at = place(b0, e, down);
    lemma_place(b0, e, down);
    assert(es[es.len() - 1] == e);
    assert(e.key.len() == down.len());
    assert forall|i: int| 0 <= i < b0.len() implies (#[trigger] b0[i]).key.len() == down.len()
        && b0[i].seq != e.seq && es.contains(b0[i]) by {
        assert(ds.contains(b0[i]));
        let k = choose|k: int| 0 <= k < ds.len() && ds[k] == b0[i];
        assert(es[k] == b0[i]);
        assert(es[k].seq < es[es.len() - 1].seq);
    }
    // The kept rows from the new one's place on come after it.
    assert forall|i: int| at <= i < b0.len() implies before(e, #[trigger] b0[i], down) by {
        lemma_before_total(b0[at], e, down);
        if i > at {
            assert(before(b0[at], b0[i], down));
            lemma_before_trans(e, b0[at], b0[i], down);
        }
    }
    if at >= cap {
        assert(b1 == b0);
        assert forall|k: int| 0 <= k < es.len() implies b1.contains(#[trigger] es[k]) || (b1.len()
            == cap && forall|i: int| 0 <= i < b1.len() ==> before(#[trigger] b1[i], es[k], down)) by {
            if k < ds.len() {
                assert(es[k] == ds[k]);
                assert(b0.contains(ds[k]) || (b0.len() == cap && forall|i: int|
                    0 <= i < b0.len() ==> before(#[trigger] b0[i], ds[k], down)));
            }
        }
    } else {
        let all = b0.insert(at, e);
        assert(all.len() == b0.len() + 1);
        assert forall|i: int, j: int| 0 <= i < j < all.len() implies before(
            #[trigger] all[i],
            #[trigger] all[j],
            down,
        ) by {
            if i < at && j == at {
                assert(before(b0[i], e, down));
            } else if i == at {
                assert(before(e, b0[j - 1], down));
            } else if j < at {
                assert(before(b0[i], b0[j], down));
            } else if i < at {
                assert(before(b0[i], b0[j - 1], down));
            } else {
                assert(before(b0[i - 1], b0[j - 1], down));
            }
        }
        assert(b1 =~= if all.len() > cap {
            all.take(cap as int)
        } else {
            all
        });
        assert forall|i: int, j: int| 0 <= i < j < b1.len() implies before(
            #[trigger] b1[i],
            #[trigger] b1[j],
            down,
        ) by {
            assert(before(all[i], all[j], down));
        }
        assert forall|i: int| 0 <= i < b1.len() implies es.contains(#[trigger] b1[i]) by {
            if i < at {
                assert(es.contains(b0[i]));
            } else if i > at {
                assert(es.contains(b0[i - 1]));
            } else {
                assert(es[es.len() - 1] == e);
            }
        }
        assert forall|k: int| 0 <= k < es.len() implies b1.contains(#[trigger] es[k]) || (b1.len()
            == cap && forall|i: int| 0 <= i < b1.len() ==> before(#[trigger] b1[i], es[k], down)) by {
            if k == es.len() - 1 {
                assert(b1[at] == e);
            } else {
                assert(es[k] == ds[k]);
                assert(es[k].key.len() == down.len());
                assert(b0.contains(ds[k]) || (b0.len() == cap && forall|i: int|
                    0 <= i < b0.len() ==> before(#[trigger] b0[i], ds[k], down)));
                if b0.contains(ds[k]) {
                    let m = choose|m: int| 0 <= m < b0.len() && b0[m] == ds[k];
                    let n = if m < at {
                        m
                    } else {
                        m + 1
                    };
                    assert(all[n] == ds[k]);
                    if n < b1.len() {
                        assert(b1[n] == ds[k]);
                    } else {
                        assert forall|i: int| 0 <= i < b1.len() implies before(
                            #[trigger] b1[i],
                            es[k],
                            down,
                        ) by {
                            assert(before(all[i], all[n], down));
                        }
                    }
                } else {
                    assert forall|i: int| 0 <= i < b1.len() implies before(
                        #[trigger] b1[i],
                        es[k],
                        down,
                    ) by {
                        if i < at {
                            assert(before(b0[i], ds[k], down));
                        } else if i > at {
                            assert(before(b0[i - 1], ds[k], down));
                        } else {
                            // The new row comes before the kept row at its place.
                            assert(before(b0[at], ds[k], down));
                            assert(before(e, b0[at], down));
                            lemma_before_trans(e, b0[at], ds[k], down);
                        }
                    }
                }
            }
        }
    }
}

/// A sort key, ready to be read per row.
#[derive(Debug)]
pub enum KeyCol {
    /// One value for every row.
    Const(Vec<u8>),
    /// One value per entry of an ascending id list.
    Var(usize, Vec<u64>, Vec<Vec<u8>>),
}

/// The value of a sort key in a row.
pub open spec fn key_of(k: KeyCol, row: RowV) -> Seq<u8> {
    match k {
        KeyCol::Const(b) => b@,
        KeyCol::Var(i, ids, vals) => match names::position(ids@, row.ids[i as int]) {
            Some(at) => vals@[at]@,
            None => Seq::empty(),
        },
    }
}

/// A sort key has a value in each row.
pub open spec fn key_wf(k: KeyCol, width: nat, rows: Seq<RowV>) -> bool {
    match k {
        KeyCol::Const(_) => true,
        KeyCol::Var(i, ids, vals) => i < width && ascending(ids@) && ids@.len() == vals@.len()
            && forall|r: int| 0 <= r < rows.len() ==> ids@.contains((#[trigger] rows[r]).ids[i as int]),
    }
}

/// The sort keys of a row.
pub open spec fn row_keys(ks: Seq<KeyCol>, row: RowV) -> Seq<Seq<u8>> {
    Seq::new(ks.len(), |i: int| key_of(ks[i], row))
}

/// Rows with their sort keys, numbered from `first` on.
pub open spec fn row_entries(ks: Seq<KeyCol>, rows: Seq<RowV>, first: int) -> Seq<EntryV> {
    Seq::new(
        rows.len(),
        |i: int|
            EntryV { key: row_keys(ks, rows[i]), seq: (first + i) as u64, ids: rows[i].ids },
    )
}

fn copy_bytes(b: &Vec<u8>) -> (r: Vec<u8>)
    ensures
        r@ == b@,
{
    let mut r: Vec<u8> = Vec::new();
    let mut i: usize = 0;
    while i < b.len()
        invariant
            i <= b@.len(),
            r@ == b@.take(i as int),
        decreases b.len() - i,
    {
        proof {
            seqs::lemma_take_last(b@, i as int);
        }
        r.push(b[i]);
        i = i + 1;
    }
    assert(b@.take(i as int) =~= b@);
    r
}

fn read_key(k: &KeyCol, chunk: &DataChunk, r: usize) -> (b: Vec<u8>)
    requires
        chunk.wf(),
        r < chunk.rows(),
        k matches KeyCol::Var(i, ids, vals) ==> i < chunk.ids@.len() && ascending(ids@)
            && ids@.len() == vals@.len(),
    ensures
        b@ == key_of(*k, chunk.row(r as int)),
{
    match k {
        KeyCol::Const(b) => copy_bytes(b),
        KeyCol::Var(i, ids, vals) => {
            assert(chunk.ids@[*i as int]@.len() == chunk.rows());
            match find_id(ids, chunk.ids[*i][r]) {
                Some(at) => copy_bytes(&vals[at]),
                None => Vec::new(),
            }
        },
    }
}

fn bytes_come_first(a: &Vec<u8>, b: &Vec<u8>) -> (r: bool)
    ensures
        r == bytes_less(a@, b@),
{
    let mut i: usize = 0;
    assert(a@.skip(0) =~= a@);
    assert(b@.skip(0) =~= b@);
    while i < a.len() && i < b.len()
        invariant
            i <= a@.len(),
            i <= b@.len(),
            bytes_less(a@, b@) == bytes_less(a@.skip(i as int), b@.skip(i as int)),
        decreases a.len() - i,
    {
        proof {
            assert(a@.skip(i as int).skip(1) =~= a@.skip(i + 1));
            assert(b@.skip(i as int).skip(1) =~= b@.skip(i + 1));
        }
        if a[i] != b[i] {
            return a[i] < b[i];
        }
        i = i + 1;
    }
    b.len() > i
}

fn same_bytes(a: &Vec<u8>, b: &Vec<u8>) -> (r: bool)
    ensures
        r == (a@ == b@),
{
    if a.len() != b.len() {
        return false;
    }
    let mut i: usize = 0;
    while i < a.len()
        invariant
            i <= a@.len(),
            a@.len() == b@.len(),
            forall|j: int| 0 <= j < i ==> a@[j] == b@[j],
        decreases a.len() - i,
    {
        if a[i] != b[i] {
            return false;
        }
        i = i + 1;
    }
    assert(a@ =~= b@);
    true
}

fn comes_before(a: &Entry, b: &Entry, down: &Vec<bool>) -> (r: bool)
    requires
        a.key@.len() == down@.len(),
        b.key@.len() == down@.len(),
    ensures
        r == before(a.v(), b.v(), down@),
{
    let ghost ka = keys_v(a.key@);
    let ghost kb = keys_v(b.key@);
    let mut i: usize = 0;
    assert(ka.skip(0) =~= ka);
    assert(kb.skip(0) =~= kb);
    assert(down@.skip(0) =~= down@);
    while i < down.len()
        invariant
            i <= down@.len(),
            a.key@.len() == down@.len(),
            b.key@.len() == down@.len(),
            ka == keys_v(a.key@),
            kb == keys_v(b.key@),
            forall|j: int| 0 <= j < i ==> ka[j] == kb[j],
            key_less(ka, kb, down@) == key_less(
                ka.skip(i as int),
                kb.skip(i as int),
                down@.skip(i as int),
            ),
        decreases down.len() - i,
    {
        proof {
            assert(ka[i as int] == a.key@[i as int]@);
            assert(kb[i as int] == b.key@[i as int]@);
            assert(ka.skip(i as int).skip(1) =~= ka.skip(i + 1));
            assert(kb.skip(i as int).skip(1) =~= kb.skip(i + 1));
            assert(down@.skip(i as int).skip(1) =~= down@.skip(i + 1));
        }
        if !same_bytes(&a.key[i], &b.key[i]) {
            assert(ka != kb);
            return if down[i] {
                bytes_come_first(&b.key[i], &a.key[i])
            } else {
                bytes_come_first(&a.key[i], &b.key[i])
            };
        }
        i = i + 1;
    }
    assert(ka =~= kb);
    a.seq < b.seq
}

/// The first rows in sort order, as many as the cap, of the rows that have come
/// in.
#[derive(Debug)]
pub struct TopKAcc {
    pub cap: usize,
    /// Per sort key, whether it sorts downwards.
    pub down: Vec<bool>,
    pub buf: Vec<Entry>,
    /// How many rows have come in.
    pub seq: u64,
}

impl TopKAcc {
    /// Each kept row has every sort key.
    pub open spec fn wf(self) -> bool {
        forall|i: int| 0 <= i < self.buf@.len() ==> (#[trigger] self.buf@[i]).key@.len()
            == self.down@.len()
    }

    /// Whether the rows that came in are these, and the first of them are kept.
    pub open spec fn holds_first(self, es: Seq<EntryV>) -> bool {
        &&& self.seq == es.len()
        &&& keyed(es, self.down@.len())
        &&& forall|i: int| 0 <= i < es.len() ==> (#[trigger] es[i]).seq == i
        &&& entries_v(self.buf@) == first_of(es, self.cap as int, self.down@)
    }

    /// No row has come in.
    pub fn new(cap: usize, down: Vec<bool>) -> (r: TopKAcc)
        ensures
            r.wf(),
            r.cap == cap,
            r.down@ == down@,
            entries_v(r.buf@) == Seq::<EntryV>::empty(),
            r.seq == 0,
            r.holds_first(Seq::empty()),
    {
        let buf: Vec<Entry> = Vec::new();
        assert(entries_v(buf@) =~= Seq::empty());
        assert(first_of(Seq::empty(), cap as int, down@) =~= Seq::empty());
        TopKAcc { cap, down, buf, seq: 0 }
    }

    fn insert(&mut self, e: Entry)
        requires
            old(self).wf(),
            e.key@.len() == old(self).down@.len(),
        ensures
            final(self).wf(),
            final(self).cap == old(self).cap,
            final(self).down == old(self).down,
            final(self).seq == old(self).seq,
            entries_v(final(self).buf@) == keep(
                entries_v(old(self).buf@),
                e.v(),
                old(self).cap as int,
                old(self).down@,
            ),
    {
        let ghost b = entries_v(self.buf@);
        let ghost d = self.down@;
        let mut at: usize = 0;
        assert(b.skip(0) =~= b);
        while at < self.buf.len() && comes_before(&self.buf[at], &e, &self.down)
            invariant
                at <= self.buf@.len(),
                self.wf(),
                e.key@.len() == self.down@.len(),
                b == entries_v(self.buf@),
                d == self.down@,
                place(b, e.v(), d) == at + place(b.skip(at as int), e.v(), d),
            decreases self.buf.len() - at,
        {
            assert(b[at as int] == self.buf@[at as int].v());
            assert(b.skip(at as int)[0] == b[at as int]);
            assert(b.skip(at as int).skip(1) =~= b.skip(at + 1));
            at = at + 1;
        }
        proof {
            if at < self.buf@.len() {
                assert(b[at as int] == self.buf@[at as int].v());
                assert(b.skip(at as int)[0] == b[at as int]);
            }
            assert(place(b, e.v(), d) == at);
        }
        if at < self.cap {
            let ghost buf0 = self.buf@;
            self.buf.insert(at, e);
            let ghost all = self.buf@;
            proof {
                assert(all =~= buf0.insert(at as int, e));
                assert(entries_v(all) =~= b.insert(at as int, e.v()));
                assert forall|i: int| 0 <= i < all.len() implies (#[trigger] all[i]).key@.len()
                    == d.len() by {
                    if i < at {
                        assert(all[i] == buf0[i]);
                    } else if i > at {
                        assert(all[i] == buf0[i - 1]);
                    }
                }
            }
            if self.buf.len() > self.cap {
                self.buf.truncate(self.cap);
                proof {
                    assert(self.buf@ =~= all.take(self.cap as int));
                    assert(entries_v(self.buf@) =~= entries_v(all).take(self.cap as int));
                }
            }
        }
    }

    /// Takes a chunk's live rows in.
    pub fn push_chunk(&mut self, chunk: &DataChunk, ks: &Vec<KeyCol>)
        requires
            old(self).wf(),
            chunk.wf(),
            ks@.len() == old(self).down@.len(),
            old(self).seq + chunk.selection@.len() <= u64::MAX,
            forall|i: int|
                0 <= i < ks@.len() ==> key_wf(
                    #[trigger] ks@[i],
                    chunk.ids@.len(),
                    chunk.live_view(),
                ),
        ensures
            final(self).wf(),
            final(self).cap == old(self).cap,
            final(self).down@ == old(self).down@,
            final(self).seq == old(self).seq + chunk.selection@.len(),
            entries_v(final(self).buf@) == keep_all(
                entries_v(old(self).buf@),
                row_entries(ks@, chunk.live_view(), old(self).seq as int),
                old(self).cap as int,
                old(self).down@,
            ),
            forall|es: Seq<EntryV>| #[trigger]
                old(self).holds_first(es) ==> final(self).holds_first(
                    es + row_entries(ks@, chunk.live_view(), old(self).seq as int),
                ),
    {
        let ghost b0 = entries_v(self.buf@);
        let ghost s0 = self.seq as int;
        let ghost rows = chunk.live_view();
        let ghost es = row_entries(ks@, rows, s0);
        let mut k: usize = 0;
        assert(es.take(0) =~= Seq::empty());
        while k < chunk.selection.len()
            invariant
                k <= chunk.selection@.len(),
                chunk.wf(),
                self.wf(),
                self.cap == old(self).cap,
                self.down == old(self).down,
                ks@.len() == self.down@.len(),
                b0 == entries_v(old(self).buf@),
                s0 == old(self).seq,
                rows == chunk.live_view(),
                es == row_entries(ks@, rows, s0),
                self.seq == s0 + k,
                s0 + chunk.selection@.len() <= u64::MAX,
                forall|i: int|
                    0 <= i < ks@.len() ==> key_wf(#[trigger] ks@[i], chunk.ids@.len(), rows),
                entries_v(self.buf@) == keep_all(
                    b0,
                    es.take(k as int),
                    self.cap as int,
                    self.down@,
                ),
            decreases chunk.selection.len() - k,
        {
            let r: usize = chunk.selection[k];
            let ghost row = chunk.row(r as int);
            assert(rows[k as int] == row);
            let mut key: Vec<Vec<u8>> = Vec::new();
            let mut i: usize = 0;
            while i < ks.len()
                invariant
                    i <= ks@.len(),
                    chunk.wf(),
                    r < chunk.rows(),
                    row == chunk.row(r as int),
                    forall|i: int|
                        0 <= i < ks@.len() ==> key_wf(#[trigger] ks@[i], chunk.ids@.len(), rows),
                    key@.len() == i,
                    forall|j: int| 0 <= j < i ==> (#[trigger] key@[j])@ == key_of(ks@[j], row),
                decreases ks.len() - i,
            {
                assert(key_wf(ks@[i as int], chunk.ids@.len(), rows));
                let b = read_key(&ks[i], chunk, r);
                key.push(b);
                i = i + 1;
            }
            let e = Entry { key, seq: self.seq, ids: chunk.row_ids(r) };
            proof {
                assert(keys_v(key@) =~= row_keys(ks@, row));
                assert(e.v() == es[k as int]);
                seqs::lemma_take_last(es, k as int);
            }
            self.seq = self.seq + 1;
            self.insert(e);
            k = k + 1;
        }
        assert(es.take(k as int) =~= es);
        proof {
            let cap = self.cap as int;
            let d = self.down@;
            assert forall|xs: Seq<EntryV>| #[trigger] old(self).holds_first(xs) implies self.holds_first(
                xs + es,
            ) by {
                law_topk_batches(Seq::empty(), xs, es, cap, d);
                lemma_first_of(xs, cap, d);
                lemma_first_of(xs + es, cap, d);
                assert(keyed(xs + es, d.len())) by {
                    assert forall|i: int| 0 <= i < (xs + es).len() implies (
                    #[trigger] (xs + es)[i]).key.len() == d.len() by {
                        if i < xs.len() {
                            assert(xs[i].key.len() == d.len());
                        }
                    }
                }
                assert forall|i: int| 0 <= i < (xs + es).len() implies (#[trigger] (xs
                    + es)[i]).seq == i by {
                    if i < xs.len() {
                        assert(xs[i].seq == i);
                    }
                }
            }
        }
    }

    /// The ids of the kept rows, in order.
    pub fn finish(self) -> (r: Vec<Vec<u64>>)
        ensures
            r@.len() == self.buf@.len(),
            forall|i: int| 0 <= i < r@.len() ==> (#[trigger] r@[i])@ == entries_v(self.buf@)[i].ids,
    {
        let mut r: Vec<Vec<u64>> = Vec::new();
        let mut i: usize = 0;
        while i < self.buf.len()
            invariant
                i <= self.buf@.len(),
                r@.len() == i,
                forall|j: int| 0 <= j < i ==> (#[trigger] r@[j])@ == entries_v(self.buf@)[j].ids,
            decreases self.buf.len() - i,
        {
            r.push(names::copy_ids(&self.buf[i].ids));
            i = i + 1;
        }
        r
    }
}

} // verus!
