//! Filters over live rows and the projection at a stage boundary.

use std::collections::BTreeMap;
use vstd::prelude::*;

use crate::chunk;
use crate::chunk::{DataChunk, HopV, RowV};
use crate::graph;
use crate::graph::{Dir, Graph, RunError, VarKind};
use crate::names;
use crate::names::empty_lists;
use crate::seqs;
use crate::table;
use crate::table::{chunk_of, push_row};

verus! {

broadcast use {vstd::std_specs::btree::group_btree_axioms, vstd::laws_cmp::group_laws_cmp};

/// What a property predicate says of one entity.
#[derive(Clone, Copy, Debug, PartialEq, Eq, Structural)]
pub enum Verdict {
    /// The predicate is true.
    Pass,
    /// The predicate is false or unknown.
    Drop,
    /// The predicate is not a truth value.
    NotBoolean,
}

/// A predicate that the filter answers.
pub enum Filter {
    /// A predicate over the properties of one variable, with its verdict for
    /// each entity it was evaluated on.
    Property { var: String, verdicts: BTreeMap<u64, Verdict> },
    /// `var = other`, or `var <> other` when `ne`.
    Identity { var: String, other: String, ne: bool },
    /// An edge from `src` to `dst` exists, or does not when `negate`.
    Edge { src: String, dst: String, dir: Dir, types: Vec<String>, negate: bool },
}

/// The column of a variable.
pub open spec fn column(vars: Seq<Seq<char>>, var: Seq<char>) -> int {
    match names::position(vars, var) {
        Some(i) => i,
        None => -1,
    }
}

impl Filter {
    /// The variables that the predicate reads are bound.
    pub open spec fn bound(self, vars: Seq<Seq<char>>) -> bool {
        match self {
            Filter::Property { var, .. } => vars.contains(var@),
            Filter::Identity { var, other, .. } => vars.contains(var@) && vars.contains(other@),
            Filter::Edge { src, dst, .. } => vars.contains(src@) && vars.contains(dst@),
        }
    }

    /// Whether a row passes.
    pub open spec fn holds(self, g: Graph, vars: Seq<Seq<char>>, ids: Seq<u64>) -> bool {
        match self {
            Filter::Property { var, verdicts } => {
                let id = ids[column(vars, var@)];
                verdicts@.contains_key(id) && verdicts@[id] == Verdict::Pass
            },
            Filter::Identity { var, other, ne } => (ids[column(vars, var@)] == ids[column(
                vars,
                other@,
            )]) != ne,
            Filter::Edge { src, dst, dir, types, negate } => (graph::closing(
                g.adj(ids[column(vars, src@)], dir, g.type_tokens(names::of(types@))),
                ids[column(vars, dst@)],
                Seq::empty(),
            ) > 0) != negate,
        }
    }

    /// Whether the predicate can be answered on the rows: an identity compares
    /// entities of one kind, an edge joins nodes, and a property predicate has
    /// a truth value for every entity.
    pub open spec fn answers(
        self,
        vars: Seq<Seq<char>>,
        kinds: Seq<VarKind>,
        rows: Seq<RowV>,
    ) -> bool {
        match self {
            Filter::Property { var, verdicts } => forall|k: int|
                0 <= k < rows.len() ==> verdict_known(
                    verdicts@,
                    (#[trigger] rows[k]).ids[column(vars, var@)],
                ),
            Filter::Identity { var, other, .. } => kinds[column(vars, var@)] == kinds[column(
                vars,
                other@,
            )],
            Filter::Edge { src, dst, .. } => kinds[column(vars, src@)] == VarKind::Node
                && kinds[column(vars, dst@)] == VarKind::Node,
        }
    }
}

/// Whether an entity has a truth value.
pub open spec fn verdict_known(verdicts: Map<u64, Verdict>, id: u64) -> bool {
    verdicts.contains_key(id) && verdicts[id] != Verdict::NotBoolean
}

/// Narrowing the selection is filtering the live rows.
proof fn lemma_live_filter(
    a: DataChunk,
    b: DataChunk,
    sel: Seq<usize>,
    keep: spec_fn(usize) -> bool,
    p: spec_fn(RowV) -> bool,
)
    requires
        a.ids@ == b.ids@,
        a.used_rels@ == b.used_rels@,
        a.prov@ == b.prov@,
        a.weights@ == b.weights@,
        forall|r: usize| keep(r) == #[trigger] p(a.row(r as int)),
    ensures
        Seq::new(sel.filter(keep).len(), |k: int| b.row(sel.filter(keep)[k] as int)) == Seq::new(
            sel.len(),
            |k: int| a.row(sel[k] as int),
        ).filter(p),
    decreases sel.len(),
{
    let left = Seq::new(sel.filter(keep).len(), |k: int| b.row(sel.filter(keep)[k] as int));
    let rows = Seq::new(sel.len(), |k: int| a.row(sel[k] as int));
    if sel.len() == 0 {
        seqs::lemma_filter_empty(keep);
        seqs::lemma_filter_empty(p);
        assert(sel =~= Seq::empty());
        assert(rows =~= Seq::empty());
        assert(left =~= rows.filter(p));
    } else {
        let d = sel.drop_last();
        lemma_live_filter(a, b, d, keep, p);
        seqs::lemma_filter_last(sel, keep);
        seqs::lemma_filter_last(rows, p);
        let ld = Seq::new(d.filter(keep).len(), |k: int| b.row(d.filter(keep)[k] as int));
        assert(rows.drop_last() =~= Seq::new(d.len(), |k: int| a.row(d[k] as int)));
        assert(rows.last() == a.row(sel.last() as int));
        if keep(sel.last()) {
            assert(p(a.row(sel.last() as int)));
            assert(left =~= ld.push(b.row(sel.last() as int)));
        } else {
            assert(!p(a.row(sel.last() as int)));
            assert(left =~= ld);
        }
    }
}

/// Rows that satisfy a predicate over the columns bound before a hop may be
/// chosen before the hop or after it: the rows, and their order, are the same.
pub proof fn law_filter_before_expand(
    g: Graph,
    h: HopV,
    rows: Seq<RowV>,
    n: nat,
    p: spec_fn(Seq<u64>) -> bool,
)
    requires
        forall|k: int| 0 <= k < rows.len() ==> (#[trigger] rows[k]).ids.len() == n,
    ensures
        chunk::expand_rows(g, h, rows.filter(|r: RowV| p(r.ids))) == chunk::expand_rows(
            g,
            h,
            rows,
        ).filter(|r: RowV| p(r.ids.take(n as int))),
    decreases rows.len(),
{
    let before = |r: RowV| p(r.ids);
    let after = |r: RowV| p(r.ids.take(n as int));
    if rows.len() == 0 {
        seqs::lemma_filter_empty(before);
        seqs::lemma_filter_empty(after);
        assert(rows =~= Seq::empty());
    } else {
        let d = rows.drop_last();
        let last = rows.last();
        assert(rows[rows.len() - 1].ids.len() == n);
        assert forall|k: int| 0 <= k < d.len() implies (#[trigger] d[k]).ids.len() == n by {
            assert(rows[k].ids.len() == n);
        }
        law_filter_before_expand(g, h, d, n, p);
        seqs::lemma_filter_last(rows, before);
        let x = chunk::expand_row(g, h, last);
        Seq::filter_distributes_over_add(chunk::expand_rows(g, h, d), x, after);
        assert forall|i: int| 0 <= i < x.len() implies (#[trigger] x[i]).ids.take(n as int)
            == last.ids by {
            assert(x[i].ids.take(n as int) =~= last.ids);
        }
        lemma_filter_same(x, after, p(last.ids));
        if p(last.ids) {
            let kept = d.filter(before);
            assert(kept.push(last).drop_last() =~= kept);
        } else {
            assert(chunk::expand_rows(g, h, d).filter(after) + Seq::<RowV>::empty()
                =~= chunk::expand_rows(g, h, d).filter(after));
        }
    }
}

/// A predicate that says the same of every element keeps all or none.
pub proof fn lemma_filter_same<A>(s: Seq<A>, p: spec_fn(A) -> bool, b: bool)
    requires
        forall|i: int| 0 <= i < s.len() ==> p(#[trigger] s[i]) == b,
    ensures
        s.filter(p) == if b {
            s
        } else {
            Seq::empty()
        },
    decreases s.len(),
{
    if s.len() == 0 {
        seqs::lemma_filter_empty(p);
        assert(s =~= Seq::empty());
    } else {
        let d = s.drop_last();
        assert forall|i: int| 0 <= i < d.len() implies p(#[trigger] d[i]) == b by {
            assert(p(s[i]) == b);
        }
        lemma_filter_same(d, p, b);
        seqs::lemma_filter_last(s, p);
        assert(p(s[s.len() - 1]) == b);
        assert(d.push(s.last()) =~= s);
    }
}

/// An ascending list without repeats.
pub open spec fn ascending(v: Seq<u64>) -> bool {
    forall|i: int, j: int| 0 <= i < j < v.len() ==> v[i] < v[j]
}

/// Insert an id into an ascending list.
pub fn insert_ascending(v: &mut Vec<u64>, x: u64)
    requires
        ascending(old(v)@),
    ensures
        ascending(final(v)@),
        forall|y: u64| #[trigger] final(v)@.contains(y) <==> old(v)@.contains(y) || y == x,
{
    let mut i: usize = 0;
    while i < v.len() && v[i] < x
        invariant
            i <= v@.len(),
            v@ == old(v)@,
            forall|j: int| 0 <= j < i ==> v@[j] < x,
        decreases v.len() - i,
    {
        i = i + 1;
    }
    if i < v.len() && v[i] == x {
        proof {
            assert(v@[i as int] == x);
        }
        return ;
    }
    v.insert(i, x);
    proof {
        assert forall|y: u64| #[trigger] v@.contains(y) <==> old(v)@.contains(y) || y == x by {
            if old(v)@.contains(y) {
                let j = choose|j: int| 0 <= j < old(v)@.len() && old(v)@[j] == y;
                if j < i {
                    assert(v@[j] == y);
                } else {
                    assert(v@[j + 1] == y);
                }
            }
            if y == x {
                assert(v@[i as int] == x);
            }
            if v@.contains(y) {
                let j = choose|j: int| 0 <= j < v@.len() && v@[j] == y;
                if j < i {
                    assert(old(v)@[j] == y);
                } else if j > i {
                    assert(old(v)@[j - 1] == y);
                }
            }
        }
    }
}

impl DataChunk {
    /// The ids that a variable takes in the live rows, ascending and once each.
    pub fn distinct_ids(&self, vi: usize) -> (v: Vec<u64>)
        requires
            self.wf(),
            vi < self.ids@.len(),
        ensures
            ascending(v@),
            forall|x: u64| #[trigger]
                v@.contains(x) <==> exists|k: int|
                    0 <= k < self.selection@.len() && (#[trigger] self.live_view()[k]).ids[vi as int]
                        == x,
    {
        let mut v: Vec<u64> = Vec::new();
        let mut k: usize = 0;
        while k < self.selection.len()
            invariant
                k <= self.selection.len(),
                self.wf(),
                vi < self.ids@.len(),
                ascending(v@),
                forall|x: u64| #[trigger]
                    v@.contains(x) <==> exists|j: int|
                        0 <= j < k && (#[trigger] self.live_view()[j]).ids[vi as int] == x,
            decreases self.selection.len() - k,
        {
            let r = self.selection[k];
            assert(self.selection@[k as int] < self.rows());
            assert(self.ids@[vi as int]@.len() == self.rows());
            let x = self.ids[vi][r];
            let ghost before = v@;
            insert_ascending(&mut v, x);
            proof {
                assert(self.live_view()[k as int].ids[vi as int] == x);
                assert forall|y: u64| #[trigger]
                    v@.contains(y) <==> exists|j: int|
                        0 <= j < k + 1 && (#[trigger] self.live_view()[j]).ids[vi as int] == y by {
                    if v@.contains(y) && y != x {
                        assert(before.contains(y));
                        let j = choose|j: int|
                            0 <= j < k && (#[trigger] self.live_view()[j]).ids[vi as int] == y;
                        assert(0 <= j < k + 1);
                    }
                    if exists|j: int|
                        0 <= j < k + 1 && (#[trigger] self.live_view()[j]).ids[vi as int] == y {
                        let j = choose|j: int|
                            0 <= j < k + 1 && (#[trigger] self.live_view()[j]).ids[vi as int] == y;
                        if j < k {
                            assert(before.contains(y));
                        }
                    }
                }
            }
            k = k + 1;
        }
        v
    }

    /// Keep the live rows that a predicate holds on; `None`, with the rows as
    /// they were, when it cannot be answered on them.
    pub fn filter(&mut self, g: &Graph, pred: &Filter) -> (res: Option<()>)
        requires
            old(self).wf(),
            pred.bound(names::of(old(self).vars@)),
            g.types@.len() <= u32::MAX,
        ensures
            final(self).wf(),
            final(self).vars == old(self).vars,
            final(self).var_kinds == old(self).var_kinds,
            final(self).ids == old(self).ids,
            final(self).used_rels == old(self).used_rels,
            final(self).prov == old(self).prov,
            final(self).weights == old(self).weights,
            res is Some <==> pred.answers(
                names::of(old(self).vars@),
                old(self).var_kinds@,
                old(self).live_view(),
            ),
            res is None ==> final(self).selection == old(self).selection,
            old(self).selection@.no_duplicates() ==> final(self).selection@.no_duplicates(),
            res is Some ==> final(self).selection@ == old(self).selection@.filter(
                |r: usize| pred.holds(*g, names::of(old(self).vars@), old(self).row(r as int).ids),
            ),
            res is Some ==> final(self).live_view() == old(self).live_view().filter(
                |row: RowV| pred.holds(*g, names::of(old(self).vars@), row.ids),
            ),
    {
        let ghost vars = names::of(self.vars@);
        let ghost p = |row: RowV| pred.holds(*g, vars, row.ids);
        let ghost keep = |r: usize| pred.holds(*g, vars, self.row(r as int).ids);
        let mut va: usize = 0;
        let mut vb: usize = 0;
        let mut tokens: Option<Vec<u32>> = None;
        match pred {
            Filter::Property { var, verdicts } => {
                va = self.var_index(var);
                vb = va;
                let mut k: usize = 0;
                while k < self.selection.len()
                    invariant
                        k <= self.selection.len(),
                        self.wf(),
                        va < self.ids@.len(),
                        *pred == (Filter::Property { var: *var, verdicts: *verdicts }),
                        va == column(names::of(self.vars@), var@),
                        *self == *old(self),
                        forall|j: int|
                            0 <= j < k ==> verdict_known(
                                verdicts@,
                                (#[trigger] self.live_view()[j]).ids[va as int],
                            ),
                    decreases self.selection.len() - k,
                {
                    let r = self.selection[k];
                    assert(self.selection@[k as int] < self.rows());
                    assert(self.ids@[va as int]@.len() == self.rows());
                    assert(self.live_view()[k as int].ids[va as int] == self.ids@[va as int]@[r as int]);
                    match verdicts.get(&self.ids[va][r]) {
                        None => {
                            return None;
                        },
                        Some(v) => {
                            if *v == Verdict::NotBoolean {
                                return None;
                            }
                        },
                    }
                    k = k + 1;
                }
            },
            Filter::Identity { var, other, ne } => {
                va = self.var_index(var);
                vb = self.var_index(other);
                if self.var_kinds[va] != self.var_kinds[vb] {
                    return None;
                }
            },
            Filter::Edge { src, dst, dir, types, negate } => {
                va = self.var_index(src);
                vb = self.var_index(dst);
                if self.var_kinds[va] != VarKind::Node || self.var_kinds[vb] != VarKind::Node {
                    return None;
                }
                tokens = g.type_tokens_peek(types);
            },
        }
        let mut sel: Vec<usize> = Vec::new();
        let mut k: usize = 0;
        proof {
            assert(self.selection@.take(0) =~= Seq::empty());
            seqs::lemma_filter_empty(keep);
        }
        while k < self.selection.len()
            invariant
                k <= self.selection.len(),
                *self == *old(self),
                self.wf(),
                va < self.ids@.len(),
                vb < self.ids@.len(),
                vars == names::of(self.vars@),
                keep == (|r: usize| pred.holds(*g, vars, self.row(r as int).ids)),
                match *pred {
                    Filter::Property { var, verdicts } => va == column(vars, var@),
                    Filter::Identity { var, other, ne } => va == column(vars, var@) && vb == column(
                        vars,
                        other@,
                    ),
                    Filter::Edge { src, dst, dir, types, negate } => va == column(vars, src@) && vb
                        == column(vars, dst@) && graph::tokens_view(tokens) == g.type_tokens(
                        names::of(types@),
                    ),
                },
                sel@ == self.selection@.take(k as int).filter(keep),
                forall|j: int| 0 <= j < sel@.len() ==> #[trigger] sel@[j] < self.rows(),
            decreases self.selection.len() - k,
        {
            let r = self.selection[k];
            assert(self.selection@[k as int] < self.rows());
            assert(self.ids@[va as int]@.len() == self.rows());
            assert(self.ids@[vb as int]@.len() == self.rows());
            let a = self.ids[va][r];
            let b = self.ids[vb][r];
            let hit = match pred {
                Filter::Property { verdicts, .. } => match verdicts.get(&a) {
                    None => false,
                    Some(v) => *v == Verdict::Pass,
                },
                Filter::Identity { ne, .. } => (a == b) != *ne,
                Filter::Edge { dir, negate, .. } => {
                    (g.edge_count_slim(a, *dir, &tokens, b) > 0) != *negate
                },
            };
            proof {
                assert(self.row(r as int).ids[va as int] == a);
                assert(self.row(r as int).ids[vb as int] == b);
                assert(hit == keep(r));
                seqs::lemma_take_last(self.selection@, k as int);
                seqs::lemma_filter_last(self.selection@.take(k + 1), keep);
            }
            if hit {
                sel.push(r);
            }
            k = k + 1;
        }
        proof {
            assert(self.selection@.take(k as int) =~= self.selection@);
        }
        self.selection = sel;
        proof {
            assert forall|r: usize| keep(r) == #[trigger] p(old(self).row(r as int)) by {}
            lemma_live_filter(*old(self), *self, old(self).selection@, keep, p);
            if old(self).selection@.no_duplicates() {
                seqs::lemma_filter_distinct(old(self).selection@, keep);
            }
        }
        Some(())
    }
}

/// The ids of some columns of a row.
pub open spec fn pick(ids: Seq<u64>, cols: Seq<usize>) -> Seq<u64> {
    cols.map_values(|c: usize| ids[c as int])
}

/// The carried ids of each live row.
pub open spec fn carried_rows(rows: Seq<RowV>, cols: Seq<usize>) -> Seq<Seq<u64>> {
    rows.map_values(|r: RowV| pick(r.ids, cols))
}

impl DataChunk {
    /// The ids of some columns in one row.
    pub fn pick_ids(&self, r: usize, cols: &Vec<usize>) -> (v: Vec<u64>)
        requires
            self.wf(),
            r < self.rows(),
            forall|k: int| 0 <= k < cols@.len() ==> #[trigger] cols@[k] < self.ids@.len(),
        ensures
            v@ == pick(self.row(r as int).ids, cols@),
    {
        let mut v: Vec<u64> = Vec::new();
        let mut k: usize = 0;
        while k < cols.len()
            invariant
                k <= cols.len(),
                self.wf(),
                r < self.rows(),
                forall|k: int| 0 <= k < cols@.len() ==> #[trigger] cols@[k] < self.ids@.len(),
                v@ == pick(self.row(r as int).ids, cols@).take(k as int),
            decreases cols.len() - k,
        {
            let c = cols[k];
            assert(cols@[k as int] < self.ids@.len());
            assert(self.ids@[c as int]@.len() == self.rows());
            v.push(self.ids[c][r]);
            proof {
                seqs::lemma_take_last(pick(self.row(r as int).ids, cols@), k as int);
            }
            k = k + 1;
        }
        proof {
            assert(pick(self.row(r as int).ids, cols@).take(k as int) =~= pick(
                self.row(r as int).ids,
                cols@,
            ));
        }
        v
    }

    /// The stage boundary: only the carried variables remain, each row has
    /// used no relationship yet, and repeats are dropped when `distinct`.
    pub fn project_carried(&self, g: &Graph, carried: &Vec<usize>, distinct: bool) -> (res: Result<
        DataChunk,
        RunError,
    >)
        requires
            self.wf(),
            carried@.len() > 0,
            forall|k: int| 0 <= k < carried@.len() ==> #[trigger] carried@[k] < self.ids@.len(),
        ensures
            ({
                let all = carried_rows(self.live_view(), carried@);
                let rows = if distinct {
                    table::first_seen(all)
                } else {
                    all
                };
                match res {
                    Ok(c) => {
                        &&& distinct ==> !g.over_budget(rows.len() as int)
                        &&& c.wf()
                        &&& c.dense()
                        &&& names::of(c.vars@) == carried@.map_values(
                            |i: usize| self.vars@[i as int]@,
                        )
                        &&& c.var_kinds@ == carried@.map_values(
                            |i: usize| self.var_kinds@[i as int],
                        )
                        &&& c.used_rels@.len() == c.rows()
                        &&& c.prov@.len() == 0
                        &&& c.weights@.len() == 0
                        &&& c.live_view() == table::plain_rows(rows)
                    },
                    Err(e) => distinct && e == RunError::RowBudget && g.over_budget(
                        rows.len() as int,
                    ),
                }
            }),
    {
        let ghost all = carried_rows(self.live_view(), carried@);
        let mut vars: Vec<String> = Vec::new();
        let mut kinds: Vec<VarKind> = Vec::new();
        let mut c: usize = 0;
        let ghost vf = |i: usize| self.vars@[i as int]@;
        let ghost kf = |i: usize| self.var_kinds@[i as int];
        while c < carried.len()
            invariant
                c <= carried.len(),
                self.wf(),
                forall|k: int| 0 <= k < carried@.len() ==> #[trigger] carried@[k] < self.ids@.len(),
                vf == (|i: usize| self.vars@[i as int]@),
                kf == (|i: usize| self.var_kinds@[i as int]),
                names::of(vars@) == carried@.map_values(vf).take(c as int),
                kinds@ == carried@.map_values(kf).take(c as int),
            decreases carried.len() - c,
        {
            let i = carried[c];
            assert(carried@[c as int] < self.ids@.len());
            let ghost vars0 = vars@;
            vars.push(self.vars[i].clone());
            kinds.push(self.var_kinds[i]);
            proof {
                seqs::lemma_take_last(carried@.map_values(vf), c as int);
                seqs::lemma_take_last(carried@.map_values(kf), c as int);
                assert(names::of(vars@) =~= names::of(vars0).push(self.vars@[i as int]@));
            }
            c = c + 1;
        }
        proof {
            assert(carried@.map_values(vf).take(c as int) =~= carried@.map_values(vf));
            assert(carried@.map_values(kf).take(c as int) =~= carried@.map_values(kf));
            assert(names::of(vars@).len() == vars@.len());
        }
        let mut cols = empty_lists(carried.len());
        let mut seen: Vec<Vec<u64>> = Vec::new();
        let mut k: usize = 0;
        proof {
            assert(cols@[0]@.len() == 0);
            assert(all.take(0) =~= Seq::empty());
            assert(table::rows_of(cols@) =~= Seq::empty());
        }
        while k < self.selection.len()
            invariant
                k <= self.selection.len(),
                self.wf(),
                carried@.len() > 0,
                forall|k: int| 0 <= k < carried@.len() ==> #[trigger] carried@[k] < self.ids@.len(),
                all == carried_rows(self.live_view(), carried@),
                cols@.len() == carried@.len(),
                table::aligned(cols@),
                distinct ==> table::rows_of(cols@) == table::first_seen(all.take(k as int)),
                !distinct ==> table::rows_of(cols@) == all.take(k as int),
                distinct ==> seen@.len() == table::rows_of(cols@).len(),
                distinct ==> forall|j: int|
                    0 <= j < seen@.len() ==> (#[trigger] seen@[j])@ == table::rows_of(cols@)[j],
                distinct ==> !g.over_budget(table::rows_of(cols@).len() as int),
            decreases self.selection.len() - k,
        {
            let r = self.selection[k];
            assert(self.selection@[k as int] < self.rows());
            let tup = self.pick_ids(r, carried);
            proof {
                seqs::lemma_take_last(all, k as int);
                assert(all[k as int] == tup@);
            }
            if distinct {
                if !has_row(&seen, &tup) {
                    proof {
                        let old_rows = table::rows_of(cols@);
                        if old_rows.contains(tup@) {
                            let j = choose|j: int| 0 <= j < old_rows.len() && old_rows[j] == tup@;
                            assert(seen@[j]@ == tup@);
                        }
                        table::lemma_first_seen_prefix(all, k + 1);
                    }
                    push_row(&mut cols, &tup);
                    proof {
                        assert(cols@[0]@.len() == table::rows_of(cols@).len());
                    }
                    match g.budget_check(cols[0].len()) {
                        Ok(()) => {},
                        Err(e) => {
                            return Err(e);
                        },
                    }
                    seen.push(tup);
                } else {
                    proof {
                        let j = choose|j: int| 0 <= j < seen@.len() && (#[trigger] seen@[j])@ == tup@;
                        assert(table::rows_of(cols@)[j] == tup@);
                    }
                }
            } else {
                push_row(&mut cols, &tup);
            }
            k = k + 1;
        }
        proof {
            assert(all.take(k as int) =~= all);
        }
        Ok(chunk_of(vars, kinds, cols))
    }
}

/// Whether a row is in a list of rows.
pub fn has_row(rows: &Vec<Vec<u64>>, row: &Vec<u64>) -> (b: bool)
    ensures
        b <==> exists|j: int| 0 <= j < rows@.len() && (#[trigger] rows@[j])@ == row@,
{
    let mut i: usize = 0;
    while i < rows.len()
        invariant
            i <= rows.len(),
            forall|j: int| 0 <= j < i ==> (#[trigger] rows@[j])@ != row@,
        decreases rows.len() - i,
    {
        if same_ids(&rows[i], row) {
            return true;
        }
        i = i + 1;
    }
    false
}

/// Whether two lists hold the same ids.
pub fn same_ids(a: &Vec<u64>, b: &Vec<u64>) -> (r: bool)
    ensures
        r == (a@ == b@),
{
    if a.len() != b.len() {
        return false;
    }
    let mut i: usize = 0;
    while i < a.len()
        invariant
            i <= a.len(),
            a@.len() == b@.len(),
            forall|j: int| 0 <= j < i ==> a@[j] == b@[j],
        decreases a.len() - i,
    {
        if a[i] != b[i] {
            return false;
        }
        i = i + 1;
    }
    assert(a@ =~= b@);
    true
}

} // verus!
