//! Joins of what a first stage hands on.

use vstd::prelude::*;

use crate::chain_rows;
use crate::chain_rows::{built, Built};
use crate::chunk::{DataChunk, RowV};
use crate::graph::{Graph, RunError};
use crate::join::hash_join_chunks;
use crate::member_posts;
use crate::member_posts::zero_fill;
use crate::names;
use crate::runs;
use crate::runs::{
    build_side, built_rows, carried_on, frontier_allows, is_seed_of, joined, rows_of, side_build,
    side_fits, JoinSide, RowsV,
};
use crate::seqs;
use crate::table;

verus! {

/// The ids of the first column of rows.
pub open spec fn first_ids(rows: Seq<RowV>) -> Seq<u64> {
    rows.map_values(|r: RowV| r.ids[0])
}

fn get_first_ids(c: &DataChunk) -> (v: Vec<u64>)
    requires
        c.wf(),
        c.ids@.len() > 0,
    ensures
        v@ == first_ids(c.live_view()),
{
    let mut v: Vec<u64> = Vec::new();
    let mut k: usize = 0;
    while k < c.selection.len()
        invariant
            k <= c.selection@.len(),
            c.wf(),
            c.ids@.len() > 0,
            v@ == first_ids(c.live_view()).take(k as int),
        decreases c.selection.len() - k,
    {
        let r = c.selection[k];
        proof {
            assert(c.live_view()[k as int] == c.row(r as int));
            assert(first_ids(c.live_view()).take(k + 1) =~= first_ids(c.live_view()).take(
                k as int,
            ).push(c.ids@[0]@[r as int]));
        }
        v.push(c.ids[0][r]);
        k = k + 1;
    }
    proof {
        assert(first_ids(c.live_view()).take(k as int) =~= first_ids(c.live_view()));
    }
    v
}

/// A first stage and the one variable that it hands on.
pub struct Lead<'a> {
    pub side: JoinSide<'a>,
    pub carried: usize,
    pub distinct: bool,
    /// Whether steps of variable length run.
    pub on: bool,
}

/// A first stage can run, and what it hands on is bound.
pub open spec fn lead_fits(l: Lead) -> bool {
    side_fits(l.side) && l.carried < chain_rows::bound_after(
        l.side.hops@,
        l.side.hops@.len() as int,
    )
}

/// What a first stage hands on, or how it ends before that.
pub enum Led {
    On(RowsV),
    Off(Built),
    /// Its steps have a length that may not run.
    Long,
}

/// What a first stage hands on.
pub open spec fn led(g: Graph, l: Lead, ids: Seq<u64>) -> Led {
    if !l.on && exists|i: int|
        0 <= i < l.side.hops@.len() && (#[trigger] l.side.hops@[i]).varlen is Some {
        Led::Long
    } else {
        match built(side_build(g, l.side), l.side.var@, ids, l.side.hops@.len() as int) {
            Built::At(x) => {
                let h = carried_on(seq![l.carried], l.distinct, built_rows(x));
                if l.distinct && g.over_budget(h.rows.len() as int) {
                    Led::Off(Built::OverBudget)
                } else {
                    Led::On(h)
                }
            },
            other => Led::Off(other),
        }
    }
}

/// What a first stage hands on, as a result.
pub open spec fn led_as(x: Led, r: Result<Option<DataChunk>, RunError>) -> bool {
    match x {
        Led::On(h) => r matches Ok(Some(c)) && c.wf() && c.ids@.len() == 1 && rows_of(c) == h,
        Led::Off(b) => !(b is At) && chain_rows::built_as(b, r),
        Led::Long => r matches Ok(None),
    }
}

/// Runs a first stage and hands on its variable.
pub fn run_lead(g: &Graph, l: &Lead, ids: Vec<u64>) -> (r: Result<Option<DataChunk>, RunError>)
    requires
        g.wf(),
        lead_fits(*l),
    ensures
        led_as(led(*g, *l, ids@), r),
{
    if !frontier_allows(l.side.hops, l.on) {
        assert(exists|i: int|
            0 <= i < l.side.hops@.len() && (#[trigger] l.side.hops@[i]).varlen is Some);
        return Ok(None);
    }
    proof {
        runs::lemma_built_width(
            side_build(*g, l.side),
            l.side.var@,
            ids@,
            l.side.hops@.len() as int,
        );
    }
    match build_side(g, &l.side, ids) {
        Ok(Some(c)) => {
            let mut cols: Vec<usize> = Vec::new();
            cols.push(l.carried);
            proof {
                assert(cols@ =~= seq![l.carried]);
                assert(names::of(c.vars@).len() == c.vars@.len());
            }
            match c.project_carried(g, &cols, l.distinct) {
                Ok(d) => {
                    proof {
                        let h = carried_on(seq![l.carried], l.distinct, rows_of(c));
                        assert(names::of(d.vars@) =~= h.vars);
                        assert(d.var_kinds@ =~= h.kinds);
                        assert(rows_of(d) == h);
                    }
                    Ok(Some(d))
                },
                Err(e) => Err(e),
            }
        },
        Ok(None) => Ok(None),
        Err(e) => Err(e),
    }
}

/// What the rows of two sides join to, as a result.
pub open spec fn joined_as(
    g: Graph,
    a: RowsV,
    b: RowsV,
    r: Result<Option<DataChunk>, RunError>,
) -> bool {
    let out = joined(a, b);
    if g.over_budget(out.rows.len() as int) {
        r matches Err(e) && e == RunError::RowBudget
    } else {
        r matches Ok(Some(c)) && c.wf() && rows_of(c) == out
    }
}

/// What a join after a first stage comes to: one side starts at the ids that
/// are handed on, the other at the distinct ids of those or of a variable of
/// the first side.
pub open spec fn multistage_join_as(
    g: Graph,
    l: Lead,
    ids: Seq<u64>,
    a: JoinSide,
    vi: Option<usize>,
    b: JoinSide,
    seed: Seq<u64>,
    r: Result<Option<DataChunk>, RunError>,
) -> bool {
    match led(g, l, ids) {
        Led::On(h) => match built(
            side_build(g, a),
            a.var@,
            first_ids(h.rows),
            a.hops@.len() as int,
        ) {
            Built::At(x) => (match vi {
                None => is_seed_of(seed, h.rows, 0),
                Some(v) => is_seed_of(seed, x.rows, v as int),
            }) && match built(side_build(g, b), b.var@, seed, b.hops@.len() as int) {
                Built::At(y) => joined_as(g, built_rows(x), built_rows(y), r),
                other => chain_rows::built_as(other, r),
            },
            other => chain_rows::built_as(other, r),
        },
        other => led_as(other, r),
    }
}

/// Runs a join after a first stage. The second side starts at what is handed on
/// when `vi` is missing, else at variable `vi` of the first side.
pub fn run_multistage_join(
    g: &Graph,
    l: &Lead,
    ids: Vec<u64>,
    a: &JoinSide,
    vi: Option<usize>,
    b: &JoinSide,
) -> (r: Result<Option<DataChunk>, RunError>)
    requires
        g.wf(),
        lead_fits(*l),
        side_fits(*a),
        side_fits(*b),
        vi matches Some(v) ==> v < chain_rows::bound_after(a.hops@, a.hops@.len() as int),
    ensures
        exists|seed: Seq<u64>| #[trigger]
            multistage_join_as(*g, *l, ids@, *a, vi, *b, seed, r),
{
    let ghost none = Seq::<u64>::empty();
    let ghost idv = ids@;
    let d = match run_lead(g, l, ids) {
        Ok(Some(d)) => d,
        Ok(None) => {
            assert(multistage_join_as(*g, *l, idv, *a, vi, *b, none, Ok(None)));
            return Ok(None);
        },
        Err(e) => {
            assert(multistage_join_as(*g, *l, idv, *a, vi, *b, none, Err(e)));
            return Err(e);
        },
    };
    let start = get_first_ids(&d);
    proof {
        runs::lemma_built_width(side_build(*g, *a), a.var@, start@, a.hops@.len() as int);
    }
    let ca = match build_side(g, a, start) {
        Ok(Some(c)) => c,
        Ok(None) => {
            assert(multistage_join_as(*g, *l, idv, *a, vi, *b, none, Ok(None)));
            return Ok(None);
        },
        Err(e) => {
            assert(multistage_join_as(*g, *l, idv, *a, vi, *b, none, Err(e)));
            return Err(e);
        },
    };
    proof {
        assert(names::of(ca.vars@).len() == ca.vars@.len());
        chain_rows::lemma_bound_low(a.hops@, a.hops@.len() as int);
    }
    let seed = match vi {
        None => d.distinct_ids(0),
        Some(v) => ca.distinct_ids(v),
    };
    let ghost sv = seed@;
    let cb = match build_side(g, b, seed) {
        Ok(Some(c)) => c,
        Ok(None) => {
            assert(multistage_join_as(*g, *l, idv, *a, vi, *b, sv, Ok(None)));
            return Ok(None);
        },
        Err(e) => {
            assert(multistage_join_as(*g, *l, idv, *a, vi, *b, sv, Err(e)));
            return Err(e);
        },
    };
    let r = match hash_join_chunks(g, &ca, &cb) {
        Ok(c) => Ok(Some(c)),
        Err(e) => Err(e),
    };
    proof {
        assert(joined_as(*g, rows_of(ca), rows_of(cb), r));
        assert(multistage_join_as(*g, *l, idv, *a, vi, *b, sv, r));
    }
    r
}

/// The rows of a dense chunk are its columns, row by row.
proof fn lemma_dense(c: DataChunk)
    requires
        c.wf(),
        c.dense(),
        c.ids@.len() > 0,
        exists|rows: Seq<Seq<u64>>| c.live_view() == #[trigger] table::plain_rows(rows),
    ensures
        c.live_view() == table::plain_rows(table::rows_of(c.ids@)),
{
    let rows = choose|rows: Seq<Seq<u64>>| c.live_view() == #[trigger] table::plain_rows(rows);
    let mine = table::rows_of(c.ids@);
    assert(mine.len() == c.live_view().len());
    assert forall|i: int| 0 <= i < mine.len() implies c.live_view()[i] == table::plain_rows(
        mine,
    )[i] by {
        assert(c.ids@[0].len() == c.rows());
        assert(c.selection@[i] == names::upto(c.rows())[i]);
        assert(c.live_view()[i] == c.row(i));
        assert(c.live_view()[i] == table::plain(rows[i]));
        assert(c.row(i).ids =~= mine[i]);
    }
    assert(c.live_view() =~= table::plain_rows(mine));
}

/// The groups of rows, row by row.
pub open spec fn group_ids(rows: Seq<RowV>, gv: int) -> Seq<u64> {
    rows.map_values(|r: RowV| r.ids[gv])
}

/// Rows with one empty row for each group that has none.
pub open spec fn with_empty_groups(x: RowsV, pairs: RowsV, gv: int) -> RowsV {
    RowsV {
        rows: x.rows + table::plain_rows(
            member_posts::groups_missing(pairs.rows, gv, group_ids(x.rows, gv)).map_values(
                |id: u64| member_posts::empty_group(x.vars.len(), gv, id),
            ),
        ),
        ..x
    }
}

/// Whether a row is one of a group.
pub open spec fn in_group(gv: int, id: u64) -> spec_fn(RowV) -> bool {
    |r: RowV| r.ids[gv] == id
}

/// The rows of a group.
pub open spec fn rows_in(rows: Seq<RowV>, gv: int, id: u64) -> Seq<RowV> {
    rows.filter(in_group(gv, id))
}

proof fn lemma_rows_in_none(rows: Seq<RowV>, gv: int, id: u64)
    ensures
        rows_in(rows, gv, id).len() == 0 <==> !group_ids(rows, gv).contains(id),
{
    let f = in_group(gv, id);
    let s = rows_in(rows, gv, id);
    if s.len() > 0 {
        assert(s.contains(s[0]));
        seqs::lemma_filter_contains(rows, f, s[0]);
        let k = choose|k: int| 0 <= k < rows.len() && rows[k] == s[0];
        assert(group_ids(rows, gv)[k] == id);
    }
    if group_ids(rows, gv).contains(id) {
        let k = choose|k: int| 0 <= k < rows.len() && group_ids(rows, gv)[k] == id;
        assert(rows.contains(rows[k]));
        seqs::lemma_filter_contains(rows, f, rows[k]);
    }
}

/// Of the empty rows of distinct groups, one is that of a group.
proof fn lemma_one_empty(ids: Seq<u64>, width: nat, gv: int, id: u64)
    requires
        ids.no_duplicates(),
        0 <= gv < width,
    ensures
        rows_in(
            table::plain_rows(ids.map_values(|x: u64| member_posts::empty_group(width, gv, x))),
            gv,
            id,
        ) == if ids.contains(id) {
            table::plain_rows(seq![member_posts::empty_group(width, gv, id)])
        } else {
            Seq::empty()
        },
    decreases ids.len(),
{
    let e = |x: u64| member_posts::empty_group(width, gv, x);
    let f = in_group(gv, id);
    let rows = table::plain_rows(ids.map_values(e));
    if ids.len() == 0 {
        assert(rows =~= Seq::empty());
        seqs::lemma_filter_empty(f);
    } else {
        let p = ids.drop_last();
        let x = ids.last();
        assert(ids =~= p.push(x));
        assert forall|i: int, j: int| 0 <= i < p.len() && 0 <= j < p.len() && i != j implies p[i]
            != p[j] by {
            assert(ids[i] != ids[j]);
        }
        lemma_one_empty(p, width, gv, id);
        seqs::lemma_push_contains(p, x, id);
        if p.contains(x) {
            let k = choose|k: int| 0 <= k < p.len() && p[k] == x;
            assert(ids[k] != ids[ids.len() - 1]);
        }
        assert(rows.drop_last() =~= table::plain_rows(p.map_values(e)));
        seqs::lemma_filter_last(rows, f);
        assert(rows.last() == table::plain(e(x)));
        assert(rows.last().ids[gv] == x);
        assert(Seq::<RowV>::empty().push(rows.last()) =~= table::plain_rows(seq![e(x)]));
    }
}

/// Counting what members made is a left join: of each group there are its joined
/// rows, in their order, or one row that is empty but for the group where there
/// are none.
pub proof fn law_groups_are_left_joined(x: RowsV, pairs: RowsV, gv: int, id: u64)
    requires
        0 <= gv < x.vars.len(),
    ensures
        rows_in(with_empty_groups(x, pairs, gv).rows, gv, id) == if rows_in(x.rows, gv, id).len()
            > 0 {
            rows_in(x.rows, gv, id)
        } else if group_ids(pairs.rows, gv).contains(id) {
            table::plain_rows(seq![member_posts::empty_group(x.vars.len(), gv, id)])
        } else {
            Seq::empty()
        },
{
    let f = in_group(gv, id);
    let there = group_ids(x.rows, gv);
    let all = member_posts::groups_seen(pairs.rows, gv);
    let out = |y: u64| !there.contains(y);
    let missing = member_posts::groups_missing(pairs.rows, gv, there);
    let more = table::plain_rows(
        missing.map_values(|y: u64| member_posts::empty_group(x.vars.len(), gv, y)),
    );
    table::law_first_seen_same(group_ids(pairs.rows, gv));
    seqs::lemma_filter_distinct(all, out);
    seqs::lemma_filter_contains(all, out, id);
    lemma_one_empty(missing, x.vars.len(), gv, id);
    lemma_rows_in_none(x.rows, gv, id);
    Seq::filter_distributes_over_add(x.rows, more, f);
    let mine = rows_in(x.rows, gv, id);
    if mine.len() == 0 {
        assert(mine =~= Seq::empty());
        assert(mine + rows_in(more, gv, id) =~= rows_in(more, gv, id));
    } else {
        assert(mine + Seq::<RowV>::empty() =~= mine);
    }
}

/// What counting what members made in their groups comes to: the pairs of a
/// member that is handed on and a group of it, each once, joined with what
/// members made in groups, and an empty row for each group that has none.
pub open spec fn member_posts_as(
    g: Graph,
    l: Lead,
    ids: Seq<u64>,
    a: JoinSide,
    pair: (usize, usize),
    b: JoinSide,
    seed: Seq<u64>,
    r: Result<Option<DataChunk>, RunError>,
) -> bool {
    match led(g, l, ids) {
        Led::On(h) => match built(
            side_build(g, a),
            a.var@,
            first_ids(h.rows),
            a.hops@.len() as int,
        ) {
            Built::At(x) => {
                let pairs = carried_on(seq![pair.0, pair.1], true, built_rows(x));
                if g.over_budget(pairs.rows.len() as int) {
                    r matches Err(e) && e == RunError::RowBudget
                } else {
                    is_seed_of(seed, h.rows, 0) && match built(
                        side_build(g, b),
                        b.var@,
                        seed,
                        b.hops@.len() as int,
                    ) {
                        Built::At(y) => {
                            let out = joined(pairs, built_rows(y));
                            if g.over_budget(out.rows.len() as int) {
                                r matches Err(e) && e == RunError::RowBudget
                            } else {
                                r matches Ok(Some(c)) && c.wf() && rows_of(c) == with_empty_groups(
                                    out,
                                    pairs,
                                    1,
                                )
                            }
                        },
                        other => chain_rows::built_as(other, r),
                    }
                }
            },
            other => chain_rows::built_as(other, r),
        },
        other => led_as(other, r),
    }
}

/// Runs a count of what members made in their groups. `pair` names the columns
/// of the member and of the group on the first side.
pub fn run_ic5(
    g: &Graph,
    l: &Lead,
    ids: Vec<u64>,
    a: &JoinSide,
    pair: (usize, usize),
    b: &JoinSide,
) -> (r: Result<Option<DataChunk>, RunError>)
    requires
        g.wf(),
        lead_fits(*l),
        side_fits(*a),
        side_fits(*b),
        pair.0 < chain_rows::bound_after(a.hops@, a.hops@.len() as int),
        pair.1 < chain_rows::bound_after(a.hops@, a.hops@.len() as int),
    ensures
        exists|seed: Seq<u64>| #[trigger]
            member_posts_as(*g, *l, ids@, *a, pair, *b, seed, r),
{
    let ghost none = Seq::<u64>::empty();
    let ghost idv = ids@;
    let d = match run_lead(g, l, ids) {
        Ok(Some(d)) => d,
        Ok(None) => {
            assert(member_posts_as(*g, *l, idv, *a, pair, *b, none, Ok(None)));
            return Ok(None);
        },
        Err(e) => {
            assert(member_posts_as(*g, *l, idv, *a, pair, *b, none, Err(e)));
            return Err(e);
        },
    };
    let start = get_first_ids(&d);
    proof {
        runs::lemma_built_width(side_build(*g, *a), a.var@, start@, a.hops@.len() as int);
    }
    let ca = match build_side(g, a, start) {
        Ok(Some(c)) => c,
        Ok(None) => {
            assert(member_posts_as(*g, *l, idv, *a, pair, *b, none, Ok(None)));
            return Ok(None);
        },
        Err(e) => {
            assert(member_posts_as(*g, *l, idv, *a, pair, *b, none, Err(e)));
            return Err(e);
        },
    };
    assert(names::of(ca.vars@).len() == ca.vars@.len());
    let mut cols: Vec<usize> = Vec::new();
    cols.push(pair.0);
    cols.push(pair.1);
    assert(cols@ =~= seq![pair.0, pair.1]);
    let pairs = match ca.project_carried(g, &cols, true) {
        Ok(c) => c,
        Err(e) => {
            assert(member_posts_as(*g, *l, idv, *a, pair, *b, none, Err(e)));
            return Err(e);
        },
    };
    proof {
        let x = carried_on(seq![pair.0, pair.1], true, rows_of(ca));
        assert(names::of(pairs.vars@) =~= x.vars);
        assert(pairs.var_kinds@ =~= x.kinds);
        assert(rows_of(pairs) == x);
    }
    let seed = d.distinct_ids(0);
    let ghost sv = seed@;
    let cb = match build_side(g, b, seed) {
        Ok(Some(c)) => c,
        Ok(None) => {
            assert(member_posts_as(*g, *l, idv, *a, pair, *b, sv, Ok(None)));
            return Ok(None);
        },
        Err(e) => {
            assert(member_posts_as(*g, *l, idv, *a, pair, *b, sv, Err(e)));
            return Err(e);
        },
    };
    let both = match hash_join_chunks(g, &pairs, &cb) {
        Ok(c) => c,
        Err(e) => {
            assert(member_posts_as(*g, *l, idv, *a, pair, *b, sv, Err(e)));
            return Err(e);
        },
    };
    let ghost out = joined(rows_of(pairs), rows_of(cb));
    let ghost width = both.ids@.len();
    assert(rows_of(both) == out);
    assert(names::of(both.vars@).len() == both.vars@.len());
    let ghost plain = table::rows_of(both.ids@);
    let ghost there = both.ids@[1]@;
    proof {
        lemma_dense(both);
        assert(rows_of(pairs).vars.len() == 2);
        assert(there =~= group_ids(out.rows, 1)) by {
            assert(both.ids@[1].len() == both.rows());
            assert forall|i: int| 0 <= i < there.len() implies there[i] == group_ids(
                out.rows,
                1,
            )[i] by {
                assert(out.rows[i] == table::plain(plain[i]));
            }
        }
    }
    let ghost made = member_posts::groups_missing(pairs.live_view(), 1, there);
    let c = zero_fill(both, &pairs, 1);
    proof {
        let extra = made.map_values(|id: u64| member_posts::empty_group(width, 1, id));
        assert(table::plain_rows(plain + extra) =~= table::plain_rows(plain) + table::plain_rows(
            extra,
        ));
        assert(rows_of(c) == with_empty_groups(out, rows_of(pairs), 1));
        assert(member_posts_as(*g, *l, idv, *a, pair, *b, sv, Ok(Some(c))));
    }
    Ok(Some(c))
}

} // verus!
