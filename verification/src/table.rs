//! Columns of ids read as rows.

use vstd::prelude::*;

use crate::chunk;
use crate::chunk::{DataChunk, RowV};
use crate::graph::VarKind;
use crate::seqs;

verus! {

/// The rows that equally long columns hold.
pub open spec fn rows_of(cols: Seq<Vec<u64>>) -> Seq<Seq<u64>> {
    Seq::new(chunk::column_len(cols), |r: int| Seq::new(cols.len(), |c: int| cols[c]@[r]))
}

/// The columns are equally long.
pub open spec fn aligned(cols: Seq<Vec<u64>>) -> bool {
    forall|c: int| 0 <= c < cols.len() ==> (#[trigger] cols[c])@.len() == chunk::column_len(cols)
}

/// A row that has used no relationship, has no outer row and stands for one match.
pub open spec fn plain(ids: Seq<u64>) -> RowV {
    RowV { ids, used: Seq::empty(), prov: None, weight: 1 }
}

/// [`plain`] rows.
pub open spec fn plain_rows(rows: Seq<Seq<u64>>) -> Seq<RowV> {
    rows.map_values(|ids: Seq<u64>| plain(ids))
}

/// Add a row to equally long columns.
pub fn push_row(cols: &mut Vec<Vec<u64>>, row: &Vec<u64>)
    requires
        old(cols)@.len() > 0,
        old(cols)@.len() == row@.len(),
        aligned(old(cols)@),
    ensures
        final(cols)@.len() == old(cols)@.len(),
        aligned(final(cols)@),
        rows_of(final(cols)@) == rows_of(old(cols)@).push(row@),
{
    let ghost n = chunk::column_len(cols@);
    let mut c: usize = 0;
    while c < cols.len()
        invariant
            c <= cols@.len(),
            cols@.len() == old(cols)@.len(),
            cols@.len() == row@.len(),
            forall|k: int| 0 <= k < cols@.len() ==> (#[trigger] old(cols)@[k])@.len() == n,
            forall|k: int| c <= k < cols@.len() ==> (#[trigger] cols@[k])@ == old(cols)@[k]@,
            forall|k: int|
                0 <= k < c ==> (#[trigger] cols@[k])@ == old(cols)@[k]@.push(row@[k]),
        decreases cols.len() - c,
    {
        cols[c].push(row[c]);
        c = c + 1;
    }
    proof {
        assert(cols@[0]@.len() == n + 1);
        let a = rows_of(cols@);
        let b = rows_of(old(cols)@).push(row@);
        assert forall|r: int| 0 <= r < n + 1 implies a[r] =~= b[r] by {
            assert forall|k: int| 0 <= k < cols@.len() implies a[r][k] == b[r][k] by {
                assert(cols@[k]@.len() == n + 1);
            }
        }
        assert(a =~= b);
    }
}

/// A chunk from explicit columns: its rows are those of the columns.
pub fn chunk_of(vars: Vec<String>, var_kinds: Vec<VarKind>, cols: Vec<Vec<u64>>) -> (c: DataChunk)
    requires
        vars@.len() == cols@.len(),
        var_kinds@.len() == cols@.len(),
        aligned(cols@),
    ensures
        c.wf(),
        c.dense(),
        c.vars@ == vars@,
        c.var_kinds@ == var_kinds@,
        c.used_rels@.len() == c.rows(),
        c.prov@.len() == 0,
        c.weights@.len() == 0,
        c.live_view() == plain_rows(rows_of(cols@)),
{
    let c = DataChunk::from_columns(vars, var_kinds, cols);
    proof {
        assert(c.live_view() =~= plain_rows(rows_of(cols@)));
    }
    c
}

/// The first occurrences of a sequence, in order.
pub open spec fn first_seen<A>(s: Seq<A>) -> Seq<A>
    decreases s.len(),
{
    if s.len() == 0 {
        Seq::empty()
    } else {
        let d = first_seen(s.drop_last());
        if d.contains(s.last()) {
            d
        } else {
            d.push(s.last())
        }
    }
}

/// Keeping first occurrences keeps every element once and loses none.
pub proof fn law_first_seen_same<A>(s: Seq<A>)
    ensures
        first_seen(s).no_duplicates(),
        forall|x: A| first_seen(s).contains(x) <==> s.contains(x),
        first_seen(s).len() <= s.len(),
    decreases s.len(),
{
    if s.len() > 0 {
        let p = s.drop_last();
        law_first_seen_same(p);
        let d = first_seen(p);
        let f = first_seen(s);
        assert forall|x: A| f.contains(x) <==> s.contains(x) by {
            if s.contains(x) {
                let i = choose|i: int| 0 <= i < s.len() && s[i] == x;
                if i < p.len() {
                    assert(p[i] == x);
                    assert(p.contains(x));
                    assert(d.contains(x));
                    let j = choose|j: int| 0 <= j < d.len() && d[j] == x;
                    assert(f[j] == x);
                } else if !d.contains(x) {
                    assert(f[f.len() - 1] == x);
                }
            }
            if f.contains(x) {
                let j = choose|j: int| 0 <= j < f.len() && f[j] == x;
                if j < d.len() {
                    assert(d[j] == x);
                    assert(p.contains(x));
                    let i = choose|i: int| 0 <= i < p.len() && p[i] == x;
                    assert(s[i] == x);
                } else {
                    assert(s[s.len() - 1] == x);
                }
            }
        }
        if !d.contains(s.last()) {
            assert forall|i: int, j: int| 0 <= i < f.len() && 0 <= j < f.len() && i != j implies f[i]
                != f[j] by {
                if i == d.len() {
                    assert(d.contains(d[j]));
                }
                if j == d.len() {
                    assert(d.contains(d[i]));
                }
            }
        }
    }
}

/// A sequence without repeats is its own first occurrences.
pub proof fn lemma_first_seen_distinct<A>(s: Seq<A>)
    requires
        s.no_duplicates(),
    ensures
        first_seen(s) == s,
    decreases s.len(),
{
    if s.len() == 0 {
        assert(first_seen(s) =~= s);
    } else {
        let p = s.drop_last();
        assert forall|i: int, j: int| 0 <= i < p.len() && 0 <= j < p.len() && i != j implies p[i]
            != p[j] by {
            assert(s[i] != s[j]);
        }
        lemma_first_seen_distinct(p);
        if p.contains(s.last()) {
            let i = choose|i: int| 0 <= i < p.len() && p[i] == s.last();
            assert(s[i] == s[s.len() - 1]);
        }
        assert(p.push(s.last()) =~= s);
    }
}

/// Keeping first occurrences twice is keeping them once.
pub proof fn law_first_seen_idempotent<A>(s: Seq<A>)
    ensures
        first_seen(first_seen(s)) == first_seen(s),
{
    law_first_seen_same(s);
    lemma_first_seen_distinct(first_seen(s));
}

/// A prefix has no more distinct elements than the whole.
pub proof fn lemma_first_seen_prefix<A>(s: Seq<A>, i: int)
    requires
        0 <= i <= s.len(),
    ensures
        first_seen(s.take(i)).len() <= first_seen(s).len(),
    decreases s.len() - i,
{
    if i == s.len() {
        assert(s.take(i) =~= s);
    } else {
        seqs::lemma_take_last(s, i);
        lemma_first_seen_prefix(s, i + 1);
    }
}

} // verus!
