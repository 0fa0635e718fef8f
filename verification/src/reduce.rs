//! Grouping the rows of a chunk.

use std::collections::BTreeMap;
use vstd::prelude::*;

use crate::chunk::{DataChunk, RowV};
use crate::fold_run;
use crate::fold_run::count_fold_overflow;
use crate::graph::{Graph, RunError, VarKind, NULL_ID};
use crate::names;
use crate::plan;
use crate::plan::{AggSite, SiteV};
use crate::select::ascending;
use crate::seqs;

verus! {

broadcast use {vstd::std_specs::btree::group_btree_axioms, vstd::laws_cmp::group_laws_cmp};

/// A value, as far as grouping looks at it.
#[derive(Debug)]
pub enum Val {
    Null,
    Bool(bool),
    Int(i64),
    Str(String),
    /// A node, by its id.
    Node(u64),
    /// A relationship, by its id.
    Rel(u64),
    /// Any other value, by a number that two of them share exactly when they
    /// group together.
    Coded(u64),
    /// A value that groups with no other.
    Nan,
}

/// A [`Val`].
pub enum ValV {
    Null,
    Bool(bool),
    Int(i64),
    Str(Seq<char>),
    Node(u64),
    Rel(u64),
    Coded(u64),
    Nan,
}

impl Val {
    pub open spec fn v(self) -> ValV {
        match self {
            Val::Null => ValV::Null,
            Val::Bool(b) => ValV::Bool(b),
            Val::Int(i) => ValV::Int(i),
            Val::Str(s) => ValV::Str(s@),
            Val::Node(i) => ValV::Node(i),
            Val::Rel(i) => ValV::Rel(i),
            Val::Coded(i) => ValV::Coded(i),
            Val::Nan => ValV::Nan,
        }
    }

    pub fn copy(&self) -> (r: Val)
        ensures
            r.v() == self.v(),
    {
        match self {
            Val::Null => Val::Null,
            Val::Bool(b) => Val::Bool(*b),
            Val::Int(i) => Val::Int(*i),
            Val::Str(s) => Val::Str(s.clone()),
            Val::Node(i) => Val::Node(*i),
            Val::Rel(i) => Val::Rel(*i),
            Val::Coded(i) => Val::Coded(*i),
            Val::Nan => Val::Nan,
        }
    }

    /// Whether two values group together.
    pub fn groups_with(&self, other: &Val) -> (b: bool)
        ensures
            b == same_val(self.v(), other.v()),
    {
        match (self, other) {
            (Val::Null, Val::Null) => true,
            (Val::Bool(a), Val::Bool(b)) => *a == *b,
            (Val::Int(a), Val::Int(b)) => *a == *b,
            (Val::Str(a), Val::Str(b)) => *a == *b,
            (Val::Node(a), Val::Node(b)) => *a == *b,
            (Val::Rel(a), Val::Rel(b)) => *a == *b,
            (Val::Coded(a), Val::Coded(b)) => *a == *b,
            _ => false,
        }
    }
}

/// Values.
pub open spec fn vals_v(s: Seq<Val>) -> Seq<ValV> {
    s.map_values(|x: Val| x.v())
}

/// Whether two values group together.
pub open spec fn same_val(a: ValV, b: ValV) -> bool {
    a == b && !(a is Nan)
}

/// Whether two tuples of values group together.
pub open spec fn same_key(a: Seq<ValV>, b: Seq<ValV>) -> bool {
    a.len() == b.len() && forall|i: int| 0 <= i < a.len() ==> same_val(#[trigger] a[i], b[i])
}

/// A grouping key, ready to be read per row. A column holds one value per
/// entry of an ascending id list.
#[derive(Debug)]
pub enum KeyVal {
    /// The variable itself.
    Node(usize),
    Col(usize, Vec<u64>, Vec<Val>),
    Const(Val),
}

/// The argument of an aggregate, ready to be read per row.
#[derive(Debug)]
pub enum SiteArgVal {
    /// `count(*)`.
    Star,
    Gather(usize, Vec<u64>, Vec<Val>),
    Const(Val),
    /// Whether the variable is bound.
    Present(usize),
    /// The variable itself.
    Entity(usize),
}

/// A [`KeyVal`].
pub enum KeyColV {
    Node(int),
    Col(int, Seq<u64>, Seq<ValV>),
    Const(ValV),
}

/// A [`SiteArgVal`].
pub enum ArgColV {
    Star,
    Gather(int, Seq<u64>, Seq<ValV>),
    Const(ValV),
    Present(int),
    Entity(int),
}

impl KeyVal {
    pub open spec fn v(self) -> KeyColV {
        match self {
            KeyVal::Node(i) => KeyColV::Node(i as int),
            KeyVal::Col(i, ids, vals) => KeyColV::Col(i as int, ids@, vals_v(vals@)),
            KeyVal::Const(x) => KeyColV::Const(x.v()),
        }
    }
}

impl SiteArgVal {
    pub open spec fn v(self) -> ArgColV {
        match self {
            SiteArgVal::Star => ArgColV::Star,
            SiteArgVal::Gather(i, ids, vals) => ArgColV::Gather(i as int, ids@, vals_v(vals@)),
            SiteArgVal::Const(x) => ArgColV::Const(x.v()),
            SiteArgVal::Present(i) => ArgColV::Present(i as int),
            SiteArgVal::Entity(i) => ArgColV::Entity(i as int),
        }
    }
}

/// Grouping keys, ready to be read.
pub open spec fn key_vals_v(s: Seq<KeyVal>) -> Seq<KeyColV> {
    s.map_values(|k: KeyVal| k.v())
}

/// Arguments, ready to be read.
pub open spec fn arg_vals_v(s: Seq<SiteArgVal>) -> Seq<ArgColV> {
    s.map_values(|a: SiteArgVal| a.v())
}

/// The value that a column has for an id.
pub open spec fn lookup(ids: Seq<u64>, vals: Seq<ValV>, id: u64) -> ValV {
    match names::position(ids, id) {
        Some(i) => vals[i],
        None => ValV::Null,
    }
}

/// The value of a variable: null where it is unbound.
pub open spec fn entity(kind: VarKind, id: u64) -> ValV {
    if id == NULL_ID {
        ValV::Null
    } else {
        match kind {
            VarKind::Node => ValV::Node(id),
            VarKind::Rel => ValV::Rel(id),
        }
    }
}

/// The value of a column in a row: null where the variable is unbound.
pub open spec fn col_value(ids: Seq<u64>, vals: Seq<ValV>, id: u64) -> ValV {
    if id == NULL_ID {
        ValV::Null
    } else {
        lookup(ids, vals, id)
    }
}

/// The value of a grouping key in a row.
pub open spec fn key_value(k: KeyColV, kinds: Seq<VarKind>, row: RowV) -> ValV {
    match k {
        KeyColV::Node(i) => entity(kinds[i], row.ids[i]),
        KeyColV::Col(i, ids, vals) => col_value(ids, vals, row.ids[i]),
        KeyColV::Const(x) => x,
    }
}

/// The tuple of a row's grouping keys.
pub open spec fn row_key(ks: Seq<KeyColV>, kinds: Seq<VarKind>, row: RowV) -> Seq<ValV> {
    Seq::new(ks.len(), |i: int| key_value(ks[i], kinds, row))
}

/// What an aggregate takes from a row, if it takes an argument.
pub open spec fn arg_value(a: ArgColV, kinds: Seq<VarKind>, row: RowV) -> Option<ValV> {
    match a {
        ArgColV::Star => None,
        ArgColV::Gather(i, ids, vals) => Some(col_value(ids, vals, row.ids[i])),
        ArgColV::Const(x) => Some(x),
        ArgColV::Present(i) => Some(
            if row.ids[i] == NULL_ID {
                ValV::Null
            } else {
                ValV::Bool(true)
            },
        ),
        ArgColV::Entity(i) => Some(entity(kinds[i], row.ids[i])),
    }
}

/// What an aggregate has taken of a group.
#[derive(Debug)]
pub enum SiteAcc {
    /// How many matches.
    CountStar(i64),
    /// The values that are not null, in row order.
    Fed(Vec<Val>),
}

/// A [`SiteAcc`].
pub enum AccV {
    Count(int),
    Fed(Seq<ValV>),
}

impl SiteAcc {
    pub open spec fn v(self) -> AccV {
        match self {
            SiteAcc::CountStar(n) => AccV::Count(n as int),
            SiteAcc::Fed(s) => AccV::Fed(vals_v(s@)),
        }
    }

    /// An aggregate that has taken nothing.
    pub fn for_site(s: &AggSite) -> (r: SiteAcc)
        ensures
            r.v() == fresh(s.v()),
    {
        if s.star {
            SiteAcc::CountStar(0)
        } else {
            let none: Vec<Val> = Vec::new();
            assert(vals_v(none@) =~= Seq::empty());
            SiteAcc::Fed(none)
        }
    }
}

/// An aggregate that has taken nothing.
pub open spec fn fresh(s: SiteV) -> AccV {
    if s.star {
        AccV::Count(0)
    } else {
        AccV::Fed(Seq::empty())
    }
}

/// What aggregates have taken.
pub open spec fn accs_v(s: Seq<SiteAcc>) -> Seq<AccV> {
    s.map_values(|a: SiteAcc| a.v())
}

/// What taking a row comes to.
pub enum Taken<A> {
    Done(A),
    /// A row that stands for several matches met an aggregate that looks at
    /// values.
    Decline,
    /// A count went past the largest integer.
    Overflow,
}

/// What an aggregate has taken once it takes a row.
pub open spec fn take_one(
    acc: AccV,
    arg: ArgColV,
    kinds: Seq<VarKind>,
    row: RowV,
    weighted: bool,
) -> Taken<AccV> {
    match acc {
        AccV::Count(n) => {
            let w: int = if weighted {
                row.weight as int
            } else {
                1
            };
            if w > i64::MAX || n + w > i64::MAX {
                Taken::Overflow
            } else {
                Taken::Done(AccV::Count(n + w))
            }
        },
        AccV::Fed(s) => if weighted {
            Taken::Decline
        } else {
            Taken::Done(
                AccV::Fed(
                    match arg_value(arg, kinds, row) {
                        None => s,
                        Some(ValV::Null) => s,
                        Some(x) => s.push(x),
                    },
                ),
            )
        },
    }
}

/// What the first `n` aggregates have taken once they take a row.
pub open spec fn take_row(
    accs: Seq<AccV>,
    args: Seq<ArgColV>,
    kinds: Seq<VarKind>,
    row: RowV,
    weighted: bool,
    n: nat,
) -> Taken<Seq<AccV>>
    decreases n,
{
    if n == 0 {
        Taken::Done(accs)
    } else {
        match take_row(accs, args, kinds, row, weighted, (n - 1) as nat) {
            Taken::Done(a) => match take_one(a[n - 1], args[n - 1], kinds, row, weighted) {
                Taken::Done(x) => Taken::Done(a.update(n - 1, x)),
                Taken::Decline => Taken::Decline,
                Taken::Overflow => Taken::Overflow,
            },
            Taken::Decline => Taken::Decline,
            Taken::Overflow => Taken::Overflow,
        }
    }
}

/// A group: the ids of its first row and what its aggregates have taken.
#[derive(Debug)]
pub struct Group {
    pub ids: Vec<u64>,
    pub accs: Vec<SiteAcc>,
}

/// A [`Group`].
pub struct GroupV {
    pub ids: Seq<u64>,
    pub accs: Seq<AccV>,
}

impl Group {
    pub open spec fn v(self) -> GroupV {
        GroupV { ids: self.ids@, accs: accs_v(self.accs@) }
    }
}

/// Groups.
pub open spec fn groups_v(s: Seq<Group>) -> Seq<GroupV> {
    s.map_values(|g: Group| g.v())
}

/// How rows are grouped.
pub struct ReduceV {
    pub keys: Seq<KeyColV>,
    pub args: Seq<ArgColV>,
    pub fresh: Seq<AccV>,
    pub kinds: Seq<VarKind>,
    pub weighted: bool,
    pub budget: Option<usize>,
}

/// What grouping comes to.
pub enum Reduced {
    /// The groups in the order in which they are first seen, and their keys.
    Groups(Seq<Seq<ValV>>, Seq<GroupV>),
    Decline,
    Overflow,
    OverBudget,
}

/// The first group with a key.
pub open spec fn find_group(keys: Seq<Seq<ValV>>, key: Seq<ValV>) -> Option<int>
    decreases keys.len(),
{
    if keys.len() == 0 {
        None
    } else {
        match find_group(keys.drop_last(), key) {
            Some(i) => Some(i),
            None => if same_key(keys.last(), key) {
                Some(keys.len() - 1)
            } else {
                None
            },
        }
    }
}

/// Whether one group more is too many. A reduction without keys makes one
/// group, whatever the budget.
pub open spec fn too_many(p: ReduceV, n: int) -> bool {
    p.keys.len() > 0 && (p.budget matches Some(b) && n > b)
}

/// The groups once the group of a row has taken it.
pub open spec fn into_group(
    p: ReduceV,
    keys: Seq<Seq<ValV>>,
    groups: Seq<GroupV>,
    i: int,
    row: RowV,
) -> Reduced {
    match take_row(groups[i].accs, p.args, p.kinds, row, p.weighted, p.args.len()) {
        Taken::Done(accs) => Reduced::Groups(
            keys,
            groups.update(i, GroupV { ids: groups[i].ids, accs }),
        ),
        Taken::Decline => Reduced::Decline,
        Taken::Overflow => Reduced::Overflow,
    }
}

/// The groups after one more row.
pub open spec fn reduce_step(
    p: ReduceV,
    keys: Seq<Seq<ValV>>,
    groups: Seq<GroupV>,
    row: RowV,
) -> Reduced {
    let key = row_key(p.keys, p.kinds, row);
    match find_group(keys, key) {
        Some(i) => into_group(p, keys, groups, i, row),
        None => if too_many(p, groups.len() as int + 1) {
            Reduced::OverBudget
        } else {
            into_group(
                p,
                keys.push(key),
                groups.push(GroupV { ids: row.ids, accs: p.fresh }),
                groups.len() as int,
                row,
            )
        },
    }
}

/// The groups of rows, in order.
pub open spec fn reduce(p: ReduceV, rows: Seq<RowV>) -> Reduced
    decreases rows.len(),
{
    if rows.len() == 0 {
        Reduced::Groups(Seq::empty(), Seq::empty())
    } else {
        match reduce(p, rows.drop_last()) {
            Reduced::Groups(keys, groups) => reduce_step(p, keys, groups, rows.last()),
            x => x,
        }
    }
}

/// A column is in order.
pub open spec fn column_wf(ids: Seq<u64>, vals: Seq<ValV>) -> bool {
    ascending(ids) && ids.len() == vals.len()
}

/// A grouping key reads a bound variable.
pub open spec fn key_wf(k: KeyColV, width: nat) -> bool {
    match k {
        KeyColV::Node(i) => 0 <= i < width,
        KeyColV::Col(i, ids, vals) => 0 <= i < width && column_wf(ids, vals),
        KeyColV::Const(_) => true,
    }
}

/// An argument reads a bound variable.
pub open spec fn arg_wf(a: ArgColV, width: nat) -> bool {
    match a {
        ArgColV::Gather(i, ids, vals) => 0 <= i < width && column_wf(ids, vals),
        ArgColV::Present(i) => 0 <= i < width,
        ArgColV::Entity(i) => 0 <= i < width,
        _ => true,
    }
}

/// A column has a value for each bound id of its variable.
pub open spec fn covers(ids: Seq<u64>, vi: int, rows: Seq<RowV>) -> bool {
    forall|k: int|
        0 <= k < rows.len() ==> (#[trigger] rows[k]).ids[vi] == NULL_ID || ids.contains(
            rows[k].ids[vi],
        )
}

/// A grouping key has a value in each row.
pub open spec fn key_covers(k: KeyColV, rows: Seq<RowV>) -> bool {
    k matches KeyColV::Col(i, ids, _) ==> covers(ids, i, rows)
}

/// An argument has a value in each row.
pub open spec fn arg_covers(a: ArgColV, rows: Seq<RowV>) -> bool {
    a matches ArgColV::Gather(i, ids, _) ==> covers(ids, i, rows)
}

/// The position of an id in an ascending list.
pub fn find_id(ids: &Vec<u64>, id: u64) -> (r: Option<usize>)
    requires
        ascending(ids@),
    ensures
        match r {
            Some(i) => i < ids@.len() && ids@[i as int] == id && names::position(ids@, id) == Some(
                i as int,
            ),
            None => !ids@.contains(id) && names::position(ids@, id) is None,
        },
{
    let mut lo: usize = 0;
    let mut hi: usize = ids.len();
    while lo < hi
        invariant
            lo <= hi <= ids@.len(),
            ascending(ids@),
            forall|j: int| 0 <= j < lo ==> #[trigger] ids@[j] < id,
            forall|j: int| hi <= j < ids@.len() ==> #[trigger] ids@[j] > id,
        decreases hi - lo,
    {
        let mid: usize = lo + (hi - lo) / 2;
        let x: u64 = ids[mid];
        if x == id {
            proof {
                assert forall|j: int| 0 <= j < mid implies ids@[j] != id by {
                    assert(ids@[j] < ids@[mid as int]);
                }
                names::lemma_first_is_position(ids@, id, mid as int);
            }
            return Some(mid);
        }
        if x < id {
            proof {
                assert forall|j: int| 0 <= j < mid + 1 implies #[trigger] ids@[j] < id by {
                    if j < mid {
                        assert(ids@[j] < ids@[mid as int]);
                    }
                }
            }
            lo = mid + 1;
        } else {
            proof {
                assert forall|j: int| mid <= j < ids@.len() implies #[trigger] ids@[j] > id by {
                    if j > mid {
                        assert(ids@[mid as int] < ids@[j]);
                    }
                }
            }
            hi = mid;
        }
    }
    proof {
        assert(!ids@.contains(id));
        names::lemma_position(ids@, id);
    }
    None
}

/// The value of a column in a row.
pub(crate) fn column_at(ids: &Vec<u64>, vals: &Vec<Val>, id: u64) -> (r: Val)
    requires
        ascending(ids@),
        ids@.len() == vals@.len(),
    ensures
        r.v() == col_value(ids@, vals_v(vals@), id),
{
    if id == NULL_ID {
        return Val::Null;
    }
    match find_id(ids, id) {
        Some(i) => {
            assert(vals_v(vals@)[i as int] == vals@[i as int].v());
            vals[i].copy()
        },
        None => Val::Null,
    }
}

/// The value of a variable.
pub(crate) fn entity_val(kind: VarKind, id: u64) -> (r: Val)
    ensures
        r.v() == entity(kind, id),
{
    if id == NULL_ID {
        Val::Null
    } else {
        match kind {
            VarKind::Node => Val::Node(id),
            VarKind::Rel => Val::Rel(id),
        }
    }
}

fn read_key(k: &KeyVal, chunk: &DataChunk, r: usize) -> (v: Val)
    requires
        chunk.wf(),
        r < chunk.rows(),
        key_wf(k.v(), chunk.ids@.len()),
    ensures
        v.v() == key_value(k.v(), chunk.var_kinds@, chunk.row(r as int)),
{
    match k {
        KeyVal::Node(i) => entity_val(chunk.var_kinds[*i], chunk.ids[*i][r]),
        KeyVal::Col(i, ids, vals) => column_at(ids, vals, chunk.ids[*i][r]),
        KeyVal::Const(x) => x.copy(),
    }
}

/// What an aggregate takes from a row, if it takes an argument.
pub fn site_push_value(a: &SiteArgVal, chunk: &DataChunk, r: usize) -> (v: Option<Val>)
    requires
        chunk.wf(),
        r < chunk.rows(),
        arg_wf(a.v(), chunk.ids@.len()),
    ensures
        match v {
            Some(x) => arg_value(a.v(), chunk.var_kinds@, chunk.row(r as int)) == Some(x.v()),
            None => arg_value(a.v(), chunk.var_kinds@, chunk.row(r as int)) is None,
        },
{
    match a {
        SiteArgVal::Star => None,
        SiteArgVal::Gather(i, ids, vals) => Some(column_at(ids, vals, chunk.ids[*i][r])),
        SiteArgVal::Const(x) => Some(x.copy()),
        SiteArgVal::Present(i) => {
            if chunk.ids[*i][r] == NULL_ID {
                Some(Val::Null)
            } else {
                Some(Val::Bool(true))
            }
        },
        SiteArgVal::Entity(i) => Some(entity_val(chunk.var_kinds[*i], chunk.ids[*i][r])),
    }
}

fn take_into(acc: &mut SiteAcc, arg: &SiteArgVal, chunk: &DataChunk, r: usize, weighted: bool) -> (o:
    Result<bool, RunError>)
    requires
        chunk.wf(),
        r < chunk.rows(),
        arg_wf(arg.v(), chunk.ids@.len()),
        weighted ==> chunk.weights@.len() > 0,
    ensures
        match take_one(
            old(acc).v(),
            arg.v(),
            chunk.var_kinds@,
            chunk.row(r as int),
            weighted,
        ) {
            Taken::Done(a) => o == Ok::<bool, RunError>(true) && final(acc).v() == a,
            Taken::Decline => o == Ok::<bool, RunError>(false),
            Taken::Overflow => o matches Err(e) && fold_run::is_overflow(e),
        },
{
    match acc {
        SiteAcc::CountStar(n) => {
            let w: u64 = if weighted {
                chunk.weights[r]
            } else {
                1
            };
            if w > 0x7fff_ffff_ffff_ffff {
                return Err(count_fold_overflow());
            }
            match (*n).checked_add(w as i64) {
                Some(next) => {
                    *n = next;
                    Ok(true)
                },
                None => Err(count_fold_overflow()),
            }
        },
        SiteAcc::Fed(s) => {
            if weighted {
                return Ok(false);
            }
            match site_push_value(arg, chunk, r) {
                None => {},
                Some(Val::Null) => {},
                Some(x) => {
                    let ghost s0 = s@;
                    s.push(x);
                    assert(vals_v(s@) =~= vals_v(s0).push(x.v()));
                },
            }
            Ok(true)
        },
    }
}

fn fold_all(
    accs: &mut Vec<SiteAcc>,
    args: &Vec<SiteArgVal>,
    chunk: &DataChunk,
    r: usize,
    weighted: bool,
) -> (o: Result<Option<()>, RunError>)
    requires
        chunk.wf(),
        r < chunk.rows(),
        old(accs)@.len() == args@.len(),
        forall|i: int| 0 <= i < args@.len() ==> arg_wf((#[trigger] args@[i]).v(), chunk.ids@.len()),
        weighted ==> chunk.weights@.len() > 0,
    ensures
        final(accs)@.len() == old(accs)@.len(),
        match take_row(
            accs_v(old(accs)@),
            arg_vals_v(args@),
            chunk.var_kinds@,
            chunk.row(r as int),
            weighted,
            args@.len(),
        ) {
            Taken::Done(a) => o == Ok::<Option<()>, RunError>(Some(())) && accs_v(final(accs)@) == a,
            Taken::Decline => o == Ok::<Option<()>, RunError>(None),
            Taken::Overflow => o matches Err(e) && fold_run::is_overflow(e),
        },
{
    let ghost a0 = accs_v(accs@);
    let ghost av = arg_vals_v(args@);
    let ghost kinds = chunk.var_kinds@;
    let ghost row = chunk.row(r as int);
    let mut i: usize = 0;
    while i < args.len()
        invariant
            chunk.wf(),
            r < chunk.rows(),
            i <= args@.len(),
            accs@.len() == args@.len(),
            accs@.len() == old(accs)@.len(),
            forall|i: int|
                0 <= i < args@.len() ==> arg_wf((#[trigger] args@[i]).v(), chunk.ids@.len()),
            weighted ==> chunk.weights@.len() > 0,
            a0 == accs_v(old(accs)@),
            av == arg_vals_v(args@),
            kinds == chunk.var_kinds@,
            row == chunk.row(r as int),
            take_row(a0, av, kinds, row, weighted, i as nat) == Taken::Done(accs_v(accs@)),
        decreases args.len() - i,
    {
        let ghost b = accs@;
        assert(av[i as int] == args@[i as int].v());
        assert(accs_v(b)[i as int] == b[i as int].v());
        match take_into(&mut accs[i], &args[i], chunk, r, weighted) {
            Ok(true) => {
                assert(accs_v(accs@) =~= accs_v(b).update(i as int, accs@[i as int].v()));
            },
            Ok(false) => {
                proof {
                    lemma_take_stops(a0, av, kinds, row, weighted, (i + 1) as nat, args@.len());
                }
                return Ok(None);
            },
            Err(e) => {
                proof {
                    lemma_take_stops(a0, av, kinds, row, weighted, (i + 1) as nat, args@.len());
                }
                return Err(e);
            },
        }
        i = i + 1;
    }
    Ok(Some(()))
}

proof fn lemma_take_stops(
    accs: Seq<AccV>,
    args: Seq<ArgColV>,
    kinds: Seq<VarKind>,
    row: RowV,
    weighted: bool,
    n: nat,
    m: nat,
)
    requires
        n <= m,
        !(take_row(accs, args, kinds, row, weighted, n) is Done),
    ensures
        take_row(accs, args, kinds, row, weighted, m) == take_row(
            accs,
            args,
            kinds,
            row,
            weighted,
            n,
        ),
    decreases m - n,
{
    if n < m {
        lemma_take_stops(accs, args, kinds, row, weighted, n, (m - 1) as nat);
    }
}

/// Folds a row that stands for one match into a group.
pub fn fold_row(
    accs: &mut Vec<SiteAcc>,
    args: &Vec<SiteArgVal>,
    chunk: &DataChunk,
    r: usize,
) -> (o: Result<Option<()>, RunError>)
    requires
        chunk.wf(),
        r < chunk.rows(),
        old(accs)@.len() == args@.len(),
        forall|i: int| 0 <= i < args@.len() ==> arg_wf((#[trigger] args@[i]).v(), chunk.ids@.len()),
    ensures
        final(accs)@.len() == old(accs)@.len(),
        match take_row(
            accs_v(old(accs)@),
            arg_vals_v(args@),
            chunk.var_kinds@,
            chunk.row(r as int),
            false,
            args@.len(),
        ) {
            Taken::Done(a) => o == Ok::<Option<()>, RunError>(Some(())) && accs_v(final(accs)@) == a,
            Taken::Decline => o == Ok::<Option<()>, RunError>(None),
            Taken::Overflow => o matches Err(e) && fold_run::is_overflow(e),
        },
{
    fold_all(accs, args, chunk, r, false)
}

/// Folds a row into a group, as many times as it stands for matches. Only
/// `count(*)` can take a row that stands for several.
pub fn fold_row_weighted(
    accs: &mut Vec<SiteAcc>,
    args: &Vec<SiteArgVal>,
    chunk: &DataChunk,
    r: usize,
) -> (o: Result<Option<()>, RunError>)
    requires
        chunk.wf(),
        r < chunk.rows(),
        old(accs)@.len() == args@.len(),
        forall|i: int| 0 <= i < args@.len() ==> arg_wf((#[trigger] args@[i]).v(), chunk.ids@.len()),
    ensures
        final(accs)@.len() == old(accs)@.len(),
        match take_row(
            accs_v(old(accs)@),
            arg_vals_v(args@),
            chunk.var_kinds@,
            chunk.row(r as int),
            chunk.weights@.len() > 0,
            args@.len(),
        ) {
            Taken::Done(a) => o == Ok::<Option<()>, RunError>(Some(())) && accs_v(final(accs)@) == a,
            Taken::Decline => o == Ok::<Option<()>, RunError>(None),
            Taken::Overflow => o matches Err(e) && fold_run::is_overflow(e),
        },
{
    if chunk.weights.len() == 0 {
        fold_row(accs, args, chunk, r)
    } else {
        fold_all(accs, args, chunk, r, true)
    }
}

/// How a chunk's rows are grouped.
pub open spec fn reduce_view(
    g: Graph,
    chunk: DataChunk,
    keys: Seq<KeyVal>,
    args: Seq<SiteArgVal>,
    sites: Seq<AggSite>,
) -> ReduceV {
    ReduceV {
        keys: key_vals_v(keys),
        args: arg_vals_v(args),
        fresh: plan::sites_v(sites).map_values(|s: SiteV| fresh(s)),
        kinds: chunk.var_kinds@,
        weighted: chunk.weights@.len() > 0,
        budget: g.row_budget,
    }
}

/// Aggregates that have taken nothing.
pub fn fresh_accs(sites: &Vec<AggSite>) -> (r: Vec<SiteAcc>)
    ensures
        accs_v(r@) == plan::sites_v(sites@).map_values(|s: SiteV| fresh(s)),
        r@.len() == sites@.len(),
{
    let mut r: Vec<SiteAcc> = Vec::new();
    let mut i: usize = 0;
    while i < sites.len()
        invariant
            i <= sites@.len(),
            r@.len() == i,
            forall|j: int| 0 <= j < i ==> (#[trigger] r@[j]).v() == fresh(sites@[j].v()),
        decreases sites.len() - i,
    {
        r.push(SiteAcc::for_site(&sites[i]));
        i = i + 1;
    }
    assert(accs_v(r@) =~= plan::sites_v(sites@).map_values(|s: SiteV| fresh(s)));
    r
}

/// The groups so far: as many as there are keys, each with every aggregate.
spec fn groups_wf(keys: Seq<Seq<ValV>>, groups: Seq<Group>, n: nat) -> bool {
    &&& keys.len() == groups.len()
    &&& forall|i: int| 0 <= i < groups.len() ==> (#[trigger] groups[i]).accs@.len() == n
}

fn reduce_row(
    g: &Graph,
    chunk: &DataChunk,
    r: usize,
    args: &Vec<SiteArgVal>,
    sites: &Vec<AggSite>,
    budgeted: bool,
    at: Option<usize>,
    groups: &mut Vec<Group>,
    p: Ghost<ReduceV>,
    keys: Ghost<Seq<Seq<ValV>>>,
) -> (o: Result<Option<usize>, RunError>)
    requires
        chunk.wf(),
        r < chunk.rows(),
        args@.len() == sites@.len(),
        forall|i: int| 0 <= i < args@.len() ==> arg_wf((#[trigger] args@[i]).v(), chunk.ids@.len()),
        p@.args == arg_vals_v(args@),
        p@.fresh == plan::sites_v(sites@).map_values(|s: SiteV| fresh(s)),
        p@.kinds == chunk.var_kinds@,
        p@.weighted == (chunk.weights@.len() > 0),
        p@.budget == g.row_budget,
        budgeted == (p@.keys.len() > 0),
        groups_wf(keys@, old(groups)@, args@.len()),
        match at {
            Some(i) => i < old(groups)@.len() && find_group(
                keys@,
                row_key(p@.keys, p@.kinds, chunk.row(r as int)),
            ) == Some(i as int),
            None => find_group(
                keys@,
                row_key(p@.keys, p@.kinds, chunk.row(r as int)),
            ) is None,
        },
    ensures
        ({
            let row = chunk.row(r as int);
            let key = row_key(p@.keys, p@.kinds, row);
            let keys1 = if at is Some {
                keys@
            } else {
                keys@.push(key)
            };
            match reduce_step(p@, keys@, groups_v(old(groups)@), row) {
                Reduced::Groups(ks, gs) => ks == keys1 && gs == groups_v(final(groups)@) && groups_wf(
                    keys1,
                    final(groups)@,
                    args@.len(),
                ) && (o matches Ok(Some(i)) && i == match at {
                    Some(i) => i as int,
                    None => old(groups)@.len() as int,
                }),
                Reduced::Decline => o == Ok::<Option<usize>, RunError>(None),
                Reduced::Overflow => o matches Err(e) && fold_run::is_overflow(e),
                Reduced::OverBudget => o == Err::<Option<usize>, RunError>(RunError::RowBudget),
            }
        }),
{
    let ghost row = chunk.row(r as int);
    let ghost g0 = groups_v(groups@);
    let i: usize = match at {
        Some(i) => i,
        None => {
            let n: usize = groups.len();
            let fresh_group = Group { ids: chunk.row_ids(r), accs: fresh_accs(sites) };
            groups.push(fresh_group);
            assert(groups_v(groups@) =~= g0.push(fresh_group.v()));
            if budgeted {
                match g.budget_check(groups.len()) {
                    Ok(_) => {},
                    Err(e) => {
                        return Err(e);
                    },
                }
            }
            n
        },
    };
    let ghost g1 = groups@;
    assert(groups_v(g1)[i as int] == g1[i as int].v());
    match fold_row_weighted(&mut groups[i].accs, args, chunk, r) {
        Ok(Some(_)) => {
            assert(groups_v(groups@) =~= groups_v(g1).update(i as int, groups@[i as int].v()));
            Ok(Some(i))
        },
        Ok(None) => Ok(None),
        Err(e) => Err(e),
    }
}

proof fn lemma_reduce_stops(p: ReduceV, rows: Seq<RowV>, n: int)
    requires
        0 <= n <= rows.len(),
        !(reduce(p, rows.take(n)) is Groups),
    ensures
        reduce(p, rows) == reduce(p, rows.take(n)),
    decreases rows.len() - n,
{
    if n == rows.len() {
        assert(rows.take(n) =~= rows);
    } else {
        seqs::lemma_take_last(rows, n);
        lemma_reduce_stops(p, rows, n + 1);
    }
}

/// What an outcome says of a reduction.
pub open spec fn reduced_to(out: Reduced, o: Result<Option<Vec<Group>>, RunError>) -> bool {
    match out {
        Reduced::Groups(_, gs) => o matches Ok(Some(v)) && groups_v(v@) == gs,
        Reduced::Decline => o matches Ok(None),
        Reduced::Overflow => o matches Err(e) && fold_run::is_overflow(e),
        Reduced::OverBudget => o matches Err(e) && e == RunError::RowBudget,
    }
}

/// The first group with a key is found.
pub proof fn lemma_find_group(keys: Seq<Seq<ValV>>, key: Seq<ValV>, i: int)
    requires
        0 <= i < keys.len(),
        same_key(keys[i], key),
        forall|j: int| 0 <= j < i ==> !same_key(#[trigger] keys[j], key),
    ensures
        find_group(keys, key) == Some(i),
    decreases keys.len(),
{
    if i < keys.len() - 1 {
        lemma_find_group(keys.drop_last(), key, i);
    } else {
        lemma_find_none(keys.drop_last(), key);
    }
}

/// Where a key is not found, no group has it.
pub proof fn lemma_find_none(keys: Seq<Seq<ValV>>, key: Seq<ValV>)
    ensures
        find_group(keys, key) is None <==> forall|j: int|
            0 <= j < keys.len() ==> !same_key(#[trigger] keys[j], key),
        find_group(keys, key) matches Some(i) ==> 0 <= i < keys.len() && same_key(keys[i], key),
    decreases keys.len(),
{
    if keys.len() > 0 {
        lemma_find_none(keys.drop_last(), key);
        if find_group(keys, key) is None {
            assert forall|j: int| 0 <= j < keys.len() implies !same_key(#[trigger] keys[j], key) by {
                if j < keys.len() - 1 {
                    assert(keys.drop_last()[j] == keys[j]);
                }
            }
        } else {
            let i = find_group(keys, key)->0;
            assert(same_key(keys[i], key));
        }
    }
}

fn read_keys(ks: &Vec<KeyVal>, chunk: &DataChunk, r: usize) -> (v: Vec<Val>)
    requires
        chunk.wf(),
        r < chunk.rows(),
        forall|i: int| 0 <= i < ks@.len() ==> key_wf((#[trigger] ks@[i]).v(), chunk.ids@.len()),
    ensures
        vals_v(v@) == row_key(key_vals_v(ks@), chunk.var_kinds@, chunk.row(r as int)),
{
    let mut v: Vec<Val> = Vec::new();
    let mut i: usize = 0;
    while i < ks.len()
        invariant
            chunk.wf(),
            r < chunk.rows(),
            forall|i: int| 0 <= i < ks@.len() ==> key_wf((#[trigger] ks@[i]).v(), chunk.ids@.len()),
            i <= ks@.len(),
            v@.len() == i,
            forall|j: int|
                0 <= j < i ==> (#[trigger] v@[j]).v() == key_value(
                    ks@[j].v(),
                    chunk.var_kinds@,
                    chunk.row(r as int),
                ),
        decreases ks.len() - i,
    {
        let x = read_key(&ks[i], chunk, r);
        v.push(x);
        i = i + 1;
    }
    assert(vals_v(v@) =~= row_key(key_vals_v(ks@), chunk.var_kinds@, chunk.row(r as int)));
    v
}

fn keys_match(a: &Vec<Val>, b: &Vec<Val>) -> (r: bool)
    ensures
        r == same_key(vals_v(a@), vals_v(b@)),
{
    if a.len() != b.len() {
        return false;
    }
    let mut i: usize = 0;
    while i < a.len()
        invariant
            i <= a@.len(),
            a@.len() == b@.len(),
            forall|j: int| 0 <= j < i ==> same_val(#[trigger] vals_v(a@)[j], vals_v(b@)[j]),
        decreases a.len() - i,
    {
        assert(vals_v(a@)[i as int] == a@[i as int].v());
        assert(vals_v(b@)[i as int] == b@[i as int].v());
        if !a[i].groups_with(&b[i]) {
            return false;
        }
        i = i + 1;
    }
    true
}

/// Tuples of values.
pub open spec fn tuples_v(s: Seq<Vec<Val>>) -> Seq<Seq<ValV>> {
    s.map_values(|x: Vec<Val>| vals_v(x@))
}

fn seek_group(keys: &Vec<Vec<Val>>, key: &Vec<Val>) -> (r: Option<usize>)
    ensures
        match r {
            Some(i) => i < keys@.len() && find_group(tuples_v(keys@), vals_v(key@)) == Some(i as int),
            None => find_group(tuples_v(keys@), vals_v(key@)) is None,
        },
{
    let ghost ks = tuples_v(keys@);
    let mut i: usize = 0;
    while i < keys.len()
        invariant
            i <= keys@.len(),
            ks == tuples_v(keys@),
            forall|j: int| 0 <= j < i ==> !same_key(#[trigger] ks[j], vals_v(key@)),
        decreases keys.len() - i,
    {
        assert(ks[i as int] == vals_v(keys@[i as int]@));
        if keys_match(&keys[i], key) {
            proof {
                lemma_find_group(ks, vals_v(key@), i as int);
            }
            return Some(i);
        }
        i = i + 1;
    }
    proof {
        lemma_find_none(ks, vals_v(key@));
    }
    None
}

fn reduce_by_tuple(
    g: &Graph,
    chunk: &DataChunk,
    ks: &Vec<KeyVal>,
    args: &Vec<SiteArgVal>,
    sites: &Vec<AggSite>,
) -> (o: Result<Option<Vec<Group>>, RunError>)
    requires
        chunk.wf(),
        args@.len() == sites@.len(),
        forall|i: int| 0 <= i < ks@.len() ==> key_wf((#[trigger] ks@[i]).v(), chunk.ids@.len()),
        forall|i: int| 0 <= i < args@.len() ==> arg_wf((#[trigger] args@[i]).v(), chunk.ids@.len()),
    ensures
        reduced_to(reduce(reduce_view(*g, *chunk, ks@, args@, sites@), chunk.live_view()), o),
{
    let ghost p = reduce_view(*g, *chunk, ks@, args@, sites@);
    let ghost rows = chunk.live_view();
    let mut keys: Vec<Vec<Val>> = Vec::new();
    let mut groups: Vec<Group> = Vec::new();
    let mut k: usize = 0;
    proof {
        assert(rows.take(0) =~= Seq::empty());
        assert(tuples_v(keys@) =~= Seq::empty());
        assert(groups_v(groups@) =~= Seq::empty());
    }
    while k < chunk.selection.len()
        invariant
            chunk.wf(),
            args@.len() == sites@.len(),
            forall|i: int| 0 <= i < ks@.len() ==> key_wf((#[trigger] ks@[i]).v(), chunk.ids@.len()),
            forall|i: int|
                0 <= i < args@.len() ==> arg_wf((#[trigger] args@[i]).v(), chunk.ids@.len()),
            p == reduce_view(*g, *chunk, ks@, args@, sites@),
            rows == chunk.live_view(),
            k <= chunk.selection@.len(),
            groups_wf(tuples_v(keys@), groups@, args@.len()),
            reduce(p, rows.take(k as int)) == Reduced::Groups(tuples_v(keys@), groups_v(groups@)),
        decreases chunk.selection.len() - k,
    {
        let r: usize = chunk.selection[k];
        proof {
            seqs::lemma_take_last(rows, k as int);
            assert(rows[k as int] == chunk.row(r as int));
        }
        let key = read_keys(ks, chunk, r);
        let at = seek_group(&keys, &key);
        let ghost keys0 = keys@;
        let o = reduce_row(
            g,
            chunk,
            r,
            args,
            sites,
            ks.len() > 0,
            at,
            &mut groups,
            Ghost(p),
            Ghost(tuples_v(keys@)),
        );
        match o {
            Ok(Some(_)) => {
                if at.is_none() {
                    keys.push(key);
                    assert(tuples_v(keys@) =~= tuples_v(keys0).push(vals_v(key@)));
                }
            },
            Ok(None) => {
                proof {
                    lemma_reduce_stops(p, rows, k + 1);
                }
                return Ok(None);
            },
            Err(e) => {
                proof {
                    lemma_reduce_stops(p, rows, k + 1);
                }
                return Err(e);
            },
        }
        k = k + 1;
    }
    assert(rows.take(k as int) =~= rows);
    Ok(Some(groups))
}

proof fn lemma_entity_key(p: ReduceV, kind: VarKind, a: u64, b: u64)
    ensures
        same_key(seq![entity(kind, a)], seq![entity(kind, b)]) <==> a == b,
{
    let x = seq![entity(kind, a)];
    let y = seq![entity(kind, b)];
    if a == b {
        assert forall|i: int| 0 <= i < x.len() implies same_val(#[trigger] x[i], y[i]) by {}
    } else if same_key(x, y) {
        assert(same_val(x[0], y[0]));
    }
}

/// Some id leads to a group.
spec fn indexed(m: Map<u64, usize>, i: int) -> bool {
    exists|id: u64| #[trigger] m.contains_key(id) && m[id] == i
}

fn reduce_by_id(
    g: &Graph,
    chunk: &DataChunk,
    vi: usize,
    ks: &Vec<KeyVal>,
    args: &Vec<SiteArgVal>,
    sites: &Vec<AggSite>,
) -> (o: Result<Option<Vec<Group>>, RunError>)
    requires
        chunk.wf(),
        args@.len() == sites@.len(),
        ks@.len() == 1,
        ks@[0] == KeyVal::Node(vi),
        vi < chunk.ids@.len(),
        forall|i: int| 0 <= i < args@.len() ==> arg_wf((#[trigger] args@[i]).v(), chunk.ids@.len()),
    ensures
        reduced_to(reduce(reduce_view(*g, *chunk, ks@, args@, sites@), chunk.live_view()), o),
{
    let ghost p = reduce_view(*g, *chunk, ks@, args@, sites@);
    let ghost rows = chunk.live_view();
    let ghost kind = chunk.var_kinds@[vi as int];
    let mut index: BTreeMap<u64, usize> = BTreeMap::new();
    let ghost mut keys: Seq<Seq<ValV>> = Seq::empty();
    let mut groups: Vec<Group> = Vec::new();
    let mut k: usize = 0;
    proof {
        assert(rows.take(0) =~= Seq::empty());
        assert(groups_v(groups@) =~= Seq::empty());
    }
    while k < chunk.selection.len()
        invariant
            chunk.wf(),
            args@.len() == sites@.len(),
            ks@.len() == 1,
            ks@[0] == KeyVal::Node(vi),
            vi < chunk.ids@.len(),
            forall|i: int|
                0 <= i < args@.len() ==> arg_wf((#[trigger] args@[i]).v(), chunk.ids@.len()),
            p == reduce_view(*g, *chunk, ks@, args@, sites@),
            rows == chunk.live_view(),
            kind == chunk.var_kinds@[vi as int],
            k <= chunk.selection@.len(),
            groups_wf(keys, groups@, args@.len()),
            reduce(p, rows.take(k as int)) == Reduced::Groups(keys, groups_v(groups@)),
            forall|id: u64|
                #![trigger index@.contains_key(id)]
                index@.contains_key(id) ==> index@[id] < groups@.len() && keys[index@[id] as int]
                    == seq![entity(kind, id)],
            forall|i: int| 0 <= i < keys.len() ==> #[trigger] indexed(index@, i),
        decreases chunk.selection.len() - k,
    {
        let r: usize = chunk.selection[k];
        let ghost row = chunk.row(r as int);
        proof {
            seqs::lemma_take_last(rows, k as int);
            assert(rows[k as int] == row);
        }
        let id: u64 = chunk.ids[vi][r];
        assert(row.ids[vi as int] == id);
        let ghost key = row_key(p.keys, p.kinds, row);
        assert(key =~= seq![entity(kind, id)]);
        let at: Option<usize> = match index.get(&id) {
            Some(i) => Some(*i),
            None => None,
        };
        proof {
            assert forall|j: int| 0 <= j < keys.len() implies (same_key(#[trigger] keys[j], key)
                <==> at == Some(j as usize)) by {
                assert(indexed(index@, j));
                let other = choose|other: u64| #[trigger]
                    index@.contains_key(other) && index@[other] == j;
                lemma_entity_key(p, kind, other, id);
            }
            lemma_find_none(keys, key);
            if at is Some {
                lemma_find_group(keys, key, at->0 as int);
            }
        }
        let ghost n0 = groups@.len();
        let o = reduce_row(
            g,
            chunk,
            r,
            args,
            sites,
            true,
            at,
            &mut groups,
            Ghost(p),
            Ghost(keys),
        );
        match o {
            Ok(Some(i)) => {
                if at.is_none() {
                    let ghost old_index = index@;
                    index.insert(id, i);
                    proof {
                        let keys0 = keys;
                        keys = keys.push(key);
                        assert forall|j: int| 0 <= j < keys.len() implies #[trigger] indexed(
                            index@,
                            j,
                        ) by {
                            if j < keys0.len() {
                                assert(indexed(old_index, j));
                                let other = choose|other: u64| #[trigger]
                                    old_index.contains_key(other) && old_index[other] == j;
                                assert(index@.contains_key(other) && index@[other] == j);
                            } else {
                                assert(index@.contains_key(id) && index@[id] == j);
                            }
                        }
                    }
                }
            },
            Ok(None) => {
                proof {
                    lemma_reduce_stops(p, rows, k + 1);
                }
                return Ok(None);
            },
            Err(e) => {
                proof {
                    lemma_reduce_stops(p, rows, k + 1);
                }
                return Err(e);
            },
        }
        k = k + 1;
    }
    assert(rows.take(k as int) =~= rows);
    Ok(Some(groups))
}

/// Groups a chunk's live rows, in the order in which their keys are first
/// seen, and folds each row into its group in row order.
pub fn reduce_agg_groups(
    g: &Graph,
    chunk: &DataChunk,
    ks: &Vec<KeyVal>,
    args: &Vec<SiteArgVal>,
    sites: &Vec<AggSite>,
) -> (o: Result<Option<Vec<Group>>, RunError>)
    requires
        chunk.wf(),
        args@.len() == sites@.len(),
        forall|i: int|
            0 <= i < ks@.len() ==> key_wf((#[trigger] ks@[i]).v(), chunk.ids@.len()) && key_covers(
                ks@[i].v(),
                chunk.live_view(),
            ),
        forall|i: int|
            0 <= i < args@.len() ==> arg_wf((#[trigger] args@[i]).v(), chunk.ids@.len())
                && arg_covers(args@[i].v(), chunk.live_view()),
    ensures
        reduced_to(reduce(reduce_view(*g, *chunk, ks@, args@, sites@), chunk.live_view()), o),
{
    if ks.len() == 1 {
        match &ks[0] {
            KeyVal::Node(vi) => {
                assert(key_wf(ks@[0].v(), chunk.ids@.len()));
                return reduce_by_id(g, chunk, *vi, ks, args, sites);
            },
            _ => {},
        }
    }
    reduce_by_tuple(g, chunk, ks, args, sites)
}

/// How many matches a row stands for.
pub open spec fn row_weight(p: ReduceV, row: RowV) -> int {
    if p.weighted {
        row.weight as int
    } else {
        1
    }
}

/// How many matches rows stand for.
pub open spec fn total_weight(p: ReduceV, rows: Seq<RowV>) -> int
    decreases rows.len(),
{
    if rows.len() == 0 {
        0
    } else {
        total_weight(p, rows.drop_last()) + row_weight(p, rows.last())
    }
}

/// The count that an aggregate has reached.
pub open spec fn count_of(a: AccV) -> int {
    match a {
        AccV::Count(n) => n,
        AccV::Fed(_) => 0,
    }
}

/// The counts that one aggregate has reached, over all groups.
pub open spec fn total_count(groups: Seq<GroupV>, s: int) -> int
    decreases groups.len(),
{
    if groups.len() == 0 {
        0
    } else {
        total_count(groups.drop_last(), s) + count_of(groups.last().accs[s])
    }
}

/// Taking a row touches each aggregate once.
pub proof fn lemma_take_row_at(
    accs: Seq<AccV>,
    args: Seq<ArgColV>,
    kinds: Seq<VarKind>,
    row: RowV,
    weighted: bool,
    n: nat,
)
    requires
        n <= accs.len(),
        take_row(accs, args, kinds, row, weighted, n) is Done,
    ensures
        take_row(accs, args, kinds, row, weighted, n)->Done_0.len() == accs.len(),
        forall|s: int|
            0 <= s < n ==> take_one(accs[s], args[s], kinds, row, weighted) == Taken::Done(
                #[trigger] take_row(accs, args, kinds, row, weighted, n)->Done_0[s],
            ),
        forall|s: int|
            n <= s < accs.len() ==> #[trigger] take_row(
                accs,
                args,
                kinds,
                row,
                weighted,
                n,
            )->Done_0[s] == accs[s],
    decreases n,
{
    if n > 0 {
        lemma_take_row_at(accs, args, kinds, row, weighted, (n - 1) as nat);
    }
}

proof fn lemma_total_update(groups: Seq<GroupV>, i: int, g: GroupV, s: int)
    requires
        0 <= i < groups.len(),
    ensures
        total_count(groups.update(i, g), s) == total_count(groups, s) - count_of(groups[i].accs[s])
            + count_of(g.accs[s]),
    decreases groups.len(),
{
    let u = groups.update(i, g);
    if i == groups.len() - 1 {
        assert(u.drop_last() =~= groups.drop_last());
    } else {
        assert(u.drop_last() =~= groups.drop_last().update(i, g));
        lemma_total_update(groups.drop_last(), i, g, s);
    }
}

/// Every group has a key and all aggregates.
pub proof fn lemma_reduce_wf(p: ReduceV, rows: Seq<RowV>)
    requires
        p.args.len() == p.fresh.len(),
        reduce(p, rows) is Groups,
    ensures
        reduce(p, rows)->Groups_0.len() == reduce(p, rows)->Groups_1.len(),
        forall|i: int|
            0 <= i < reduce(p, rows)->Groups_1.len() ==> (
            #[trigger] reduce(p, rows)->Groups_1[i]).accs.len() == p.fresh.len(),
    decreases rows.len(),
{
    if rows.len() > 0 {
        lemma_reduce_wf(p, rows.drop_last());
        let keys = reduce(p, rows.drop_last())->Groups_0;
        let groups = reduce(p, rows.drop_last())->Groups_1;
        let row = rows.last();
        let key = row_key(p.keys, p.kinds, row);
        lemma_find_none(keys, key);
        let (gs, i) = match find_group(keys, key) {
            Some(i) => (groups, i),
            None => (
                groups.push(GroupV { ids: row.ids, accs: p.fresh }),
                groups.len() as int,
            ),
        };
        lemma_take_row_at(gs[i].accs, p.args, p.kinds, row, p.weighted, p.args.len());
    }
}

/// Grouping loses no match and counts none twice: over all groups, a
/// `count(*)` adds up to the matches that the rows stand for.
pub proof fn law_counts_add_up(p: ReduceV, rows: Seq<RowV>, s: int)
    requires
        p.args.len() == p.fresh.len(),
        0 <= s < p.fresh.len(),
        p.fresh[s] == AccV::Count(0),
        reduce(p, rows) is Groups,
    ensures
        total_count(reduce(p, rows)->Groups_1, s) == total_weight(p, rows),
        forall|i: int|
            0 <= i < reduce(p, rows)->Groups_1.len() ==> (
            #[trigger] reduce(p, rows)->Groups_1[i]).accs[s] is Count,
    decreases rows.len(),
{
    if rows.len() > 0 {
        law_counts_add_up(p, rows.drop_last(), s);
        lemma_reduce_wf(p, rows.drop_last());
        let keys = reduce(p, rows.drop_last())->Groups_0;
        let groups = reduce(p, rows.drop_last())->Groups_1;
        let row = rows.last();
        let key = row_key(p.keys, p.kinds, row);
        lemma_find_none(keys, key);
        let (gs, i) = match find_group(keys, key) {
            Some(i) => (groups, i),
            None => {
                let g = GroupV { ids: row.ids, accs: p.fresh };
                assert(groups.push(g).drop_last() =~= groups);
                (groups.push(g), groups.len() as int)
            },
        };
        assert(total_count(gs, s) == total_count(groups, s));
        lemma_take_row_at(gs[i].accs, p.args, p.kinds, row, p.weighted, p.args.len());
        let a = take_row(gs[i].accs, p.args, p.kinds, row, p.weighted, p.args.len())->Done_0;
        assert(take_one(gs[i].accs[s], p.args[s], p.kinds, row, p.weighted) == Taken::Done(a[s]));
        assert(gs[i].accs[s] is Count);
        lemma_total_update(gs, i, GroupV { ids: gs[i].ids, accs: a }, s);
    }
}

/// No two groups have the same key.
pub proof fn law_keys_differ(p: ReduceV, rows: Seq<RowV>, a: int, b: int)
    requires
        reduce(p, rows) is Groups,
        0 <= a < b < reduce(p, rows)->Groups_0.len(),
    ensures
        !same_key(reduce(p, rows)->Groups_0[a], reduce(p, rows)->Groups_0[b]),
    decreases rows.len(),
{
    if rows.len() > 0 {
        let keys = reduce(p, rows.drop_last())->Groups_0;
        let key = row_key(p.keys, p.kinds, rows.last());
        lemma_find_none(keys, key);
        if b < keys.len() {
            law_keys_differ(p, rows.drop_last(), a, b);
        } else {
            assert(!same_key(keys[a], key));
        }
    }
}

} // verus!
