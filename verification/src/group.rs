//! From a grouping plan to the groups of a chunk.

use vstd::prelude::*;

use crate::ast;
use crate::ast::{Expr, Head, HeadV};
use crate::chunk::{DataChunk, RowV};
use crate::graph::{Graph, RunError, NULL_ID};
use crate::names;
use crate::names::has_name;
use crate::plan;
use crate::plan::{AggKey, AggPlan, AggSite, AggV, ArgV, KeyV, SingleVar, SiteArgPlan, SiteV};
use crate::readset;
use crate::reduce;
use crate::reduce::{ArgColV, GroupV, Group, KeyColV, KeyVal, Reduced, SiteArgVal, Val, ValV};
use crate::select::ascending;
use crate::seqs;

verus! {

/// The ids that a variable has in rows where it is bound, ascending.
pub open spec fn bound_ids(ids: Seq<u64>, vi: int, rows: Seq<RowV>) -> bool {
    &&& ascending(ids)
    &&& forall|x: u64| #[trigger]
        ids.contains(x) <==> x != NULL_ID && exists|k: int|
            0 <= k < rows.len() && (#[trigger] rows[k]).ids[vi] == x
}

fn live_ids(chunk: &DataChunk, vi: usize) -> (r: Vec<u64>)
    requires
        chunk.wf(),
        vi < chunk.ids@.len(),
    ensures
        bound_ids(r@, vi as int, chunk.live_view()),
{
    let all = chunk.distinct_ids(vi);
    let mut r: Vec<u64> = Vec::new();
    let mut i: usize = 0;
    while i < all.len()
        invariant
            i <= all@.len(),
            ascending(all@),
            ascending(r@),
            forall|j: int| 0 <= j < r@.len() ==> r@[j] != NULL_ID && all@.take(i as int).contains(#[trigger] r@[j]),
            forall|j: int| 0 <= j < i && #[trigger] all@[j] != NULL_ID ==> r@.contains(all@[j]),
        decreases all.len() - i,
    {
        let x: u64 = all[i];
        let ghost r0 = r@;
        proof {
            seqs::lemma_take_last(all@, i as int);
        }
        if x != NULL_ID {
            r.push(x);
            assert(r@[r0.len() as int] == x);
            assert forall|a: int, b: int| 0 <= a < b < r@.len() implies r@[a] < r@[b] by {
                if b == r0.len() {
                    let k = choose|k: int| 0 <= k < i && all@.take(i as int)[k] == r0[a];
                    assert(all@[k] < all@[i as int]);
                }
            }
        }
        proof {
            assert forall|j: int| 0 <= j < r@.len() implies r@[j] != NULL_ID && all@.take(
                i + 1,
            ).contains(#[trigger] r@[j]) by {
                if j < r0.len() {
                    assert(all@.take(i as int).contains(r0[j]));
                    let k = choose|k: int| 0 <= k < i && all@.take(i as int)[k] == r0[j];
                    assert(all@.take(i + 1)[k] == r0[j]);
                } else {
                    assert(all@.take(i + 1)[i as int] == x);
                }
            }
            assert forall|j: int| 0 <= j < i + 1 && #[trigger] all@[j] != NULL_ID implies r@.contains(
                all@[j],
            ) by {
                if j < i {
                    let k = choose|k: int| 0 <= k < r0.len() && r0[k] == all@[j];
                    assert(r@[k] == all@[j]);
                }
            }
        }
        i = i + 1;
    }
    proof {
        assert(all@.take(i as int) =~= all@);
        assert forall|x: u64| #[trigger] r@.contains(x) <==> x != NULL_ID && exists|k: int|
            0 <= k < chunk.live_view().len() && (#[trigger] chunk.live_view()[k]).ids[vi as int]
                == x by {
            assert(all@.contains(x) <==> exists|k: int|
                0 <= k < chunk.selection@.len() && (#[trigger] chunk.live_view()[k]).ids[vi as int]
                    == x);
            if r@.contains(x) {
                let j = choose|j: int| 0 <= j < r@.len() && r@[j] == x;
                assert(all@.contains(r@[j]));
            }
            if all@.contains(x) && x != NULL_ID {
                let j = choose|j: int| 0 <= j < all@.len() && all@[j] == x;
                assert(r@.contains(all@[j]));
            }
        }
    }
    r
}

/// Whether a property of a variable is needed to group.
pub open spec fn needs_prop(p: AggV, vi: int, key: Seq<char>) -> bool {
    ||| exists|i: int|
        0 <= i < p.group_keys.len() && (#[trigger] p.group_keys[i]).kind == SingleVar::Col(
            vi as usize,
        ) && ast::reads_prop(p.group_keys[i].expr, key)
    ||| exists|i: int|
        0 <= i < p.site_args.len() && (#[trigger] p.site_args[i] matches ArgV::Col(v, e) && v == vi
            && ast::reads_prop(e, key))
}

/// Adds the properties that an expression reads to a list.
pub fn props_of(e: &Expr, out: &mut Vec<String>)
    ensures
        forall|k: Seq<char>|
            #![trigger names::of(final(out)@).contains(k)]
            names::of(final(out)@).contains(k) <==> names::of(old(out)@).contains(k)
                || ast::reads_prop(e.v(), k),
    decreases e,
{
    match &e.head {
        Head::Prop(k) => {
            add_name(out, k);
        },
        _ => {},
    }
    let ghost first = names::of(out@);
    let mut i: usize = 0;
    while i < e.args.len()
        invariant
            i <= e.args@.len(),
            forall|k: Seq<char>|
                #![trigger first.contains(k)]
                first.contains(k) <==> names::of(old(out)@).contains(k) || e.v().head
                    == HeadV::Prop(k),
            forall|k: Seq<char>|
                #![trigger names::of(out@).contains(k)]
                names::of(out@).contains(k) <==> first.contains(k) || exists|j: int|
                    0 <= j < i && ast::reads_prop(#[trigger] e.v().args[j], k),
        decreases e.args.len() - i,
    {
        let ghost b4 = names::of(out@);
        assert(e.v().args[i as int] == e.args@[i as int].v());
        props_of(&e.args[i], out);
        proof {
            assert forall|k: Seq<char>|
                #![trigger names::of(out@).contains(k)]
                names::of(out@).contains(k) <==> first.contains(k) || exists|j: int|
                    0 <= j < i + 1 && ast::reads_prop(#[trigger] e.v().args[j], k) by {
                assert(names::of(out@).contains(k) <==> b4.contains(k) || ast::reads_prop(
                    e.v().args[i as int],
                    k,
                ));
            }
        }
        i = i + 1;
    }
    proof {
        assert forall|k: Seq<char>|
            #![trigger names::of(out@).contains(k)]
            names::of(out@).contains(k) <==> names::of(old(out)@).contains(k) || ast::reads_prop(
                e.v(),
                k,
            ) by {
            assert(first.contains(k) <==> names::of(old(out)@).contains(k) || e.v().head
                == HeadV::Prop(k));
        }
    }
}

fn add_name(out: &mut Vec<String>, k: &String)
    ensures
        forall|x: Seq<char>|
            #![trigger names::of(final(out)@).contains(x)]
            names::of(final(out)@).contains(x) <==> names::of(old(out)@).contains(x) || x == k@,
{
    if has_name(out, k) {
        return;
    }
    let ghost b4 = names::of(out@);
    out.push(k.clone());
    proof {
        assert(names::of(out@) =~= b4.push(k@));
        assert forall|x: Seq<char>|
            #![trigger names::of(out@).contains(x)]
            names::of(out@).contains(x) <==> b4.contains(x) || x == k@ by {
            seqs::lemma_push_contains(b4, k@, x);
        }
    }
}

/// What must be loaded before rows can be grouped, per variable.
#[derive(Debug)]
pub struct Needs {
    /// The bound ids, ascending.
    pub ids: Vec<Vec<u64>>,
    /// The properties of those entities that are read.
    pub props: Vec<Vec<String>>,
}

impl Needs {
    /// The needs are those of a plan over rows.
    pub open spec fn of(self, p: AggV, rows: Seq<RowV>) -> bool {
        &&& self.ids@.len() == p.chain.vars.len()
        &&& self.props@.len() == p.chain.vars.len()
        &&& forall|v: int| 0 <= v < self.ids@.len() ==> bound_ids((#[trigger] self.ids@[v])@, v, rows)
        &&& forall|v: int, k: Seq<char>|
            #![trigger names::of(self.props@[v]@).contains(k)]
            0 <= v < self.props@.len() ==> (names::of(self.props@[v]@).contains(k) <==> needs_prop(
                p,
                v,
                k,
            ))
    }
}

fn var_props(p: &AggPlan, vi: usize) -> (r: Vec<String>)
    ensures
        forall|k: Seq<char>|
            #![trigger names::of(r@).contains(k)]
            names::of(r@).contains(k) <==> needs_prop(p.v(), vi as int, k),
{
    let ghost pv = p.v();
    let mut r: Vec<String> = Vec::new();
    let mut i: usize = 0;
    while i < p.group_keys.len()
        invariant
            i <= p.group_keys@.len(),
            pv == p.v(),
            forall|k: Seq<char>|
                #![trigger names::of(r@).contains(k)]
                names::of(r@).contains(k) <==> exists|j: int|
                    0 <= j < i && (#[trigger] pv.group_keys[j]).kind == SingleVar::Col(vi)
                        && ast::reads_prop(pv.group_keys[j].expr, k),
        decreases p.group_keys.len() - i,
    {
        let ghost b4 = names::of(r@);
        let ghost key = pv.group_keys[i as int];
        assert(key == p.group_keys@[i as int].v());
        match p.group_keys[i].kind {
            SingleVar::Col(v) => {
                if v == vi {
                    props_of(&p.group_keys[i].expr, &mut r);
                }
            },
            _ => {},
        }
        proof {
            assert forall|k: Seq<char>|
                #![trigger names::of(r@).contains(k)]
                names::of(r@).contains(k) <==> exists|j: int|
                    0 <= j < i + 1 && (#[trigger] pv.group_keys[j]).kind == SingleVar::Col(vi)
                        && ast::reads_prop(pv.group_keys[j].expr, k) by {
                assert(names::of(r@).contains(k) <==> b4.contains(k) || (key.kind
                    == SingleVar::Col(vi) && ast::reads_prop(key.expr, k)));
            }
        }
        i = i + 1;
    }
    let ghost first = names::of(r@);
    let mut n: usize = 0;
    while n < p.site_args.len()
        invariant
            n <= p.site_args@.len(),
            pv == p.v(),
            forall|k: Seq<char>|
                #![trigger names::of(r@).contains(k)]
                names::of(r@).contains(k) <==> first.contains(k) || exists|j: int|
                    0 <= j < n && (#[trigger] pv.site_args[j] matches ArgV::Col(v, e) && v == vi
                        && ast::reads_prop(e, k)),
        decreases p.site_args.len() - n,
    {
        let ghost b4 = names::of(r@);
        let ghost arg = pv.site_args[n as int];
        assert(arg == p.site_args@[n as int].v());
        match &p.site_args[n] {
            SiteArgPlan::Col(v, e) => {
                if *v == vi {
                    props_of(e, &mut r);
                }
            },
            _ => {},
        }
        proof {
            assert forall|k: Seq<char>|
                #![trigger names::of(r@).contains(k)]
                names::of(r@).contains(k) <==> first.contains(k) || exists|j: int|
                    0 <= j < n + 1 && (#[trigger] pv.site_args[j] matches ArgV::Col(v, e) && v
                        == vi && ast::reads_prop(e, k)) by {
                assert(names::of(r@).contains(k) <==> b4.contains(k) || (arg matches ArgV::Col(v, e)
                    && v == vi && ast::reads_prop(e, k)));
            }
        }
        n = n + 1;
    }
    r
}

/// What must be loaded before a chunk's rows can be grouped.
pub fn reduce_needs(p: &AggPlan, chunk: &DataChunk) -> (r: Needs)
    requires
        chunk.wf(),
        chunk.ids@.len() == p.chain.vars@.len(),
    ensures
        r.of(p.v(), chunk.live_view()),
{
    let n: usize = p.chain.vars.len();
    let mut ids: Vec<Vec<u64>> = Vec::new();
    let mut props: Vec<Vec<String>> = Vec::new();
    let mut v: usize = 0;
    while v < n
        invariant
            v <= n,
            n == p.chain.vars@.len(),
            chunk.wf(),
            chunk.ids@.len() == n,
            ids@.len() == v,
            props@.len() == v,
            forall|u: int|
                0 <= u < v ==> bound_ids((#[trigger] ids@[u])@, u, chunk.live_view()),
            forall|u: int, k: Seq<char>|
                #![trigger names::of(props@[u]@).contains(k)]
                0 <= u < v ==> (names::of(props@[u]@).contains(k) <==> needs_prop(p.v(), u, k)),
        decreases n - v,
    {
        let a = live_ids(chunk, v);
        let b = var_props(p, v);
        ids.push(a);
        props.push(b);
        v = v + 1;
    }
    Needs { ids, props }
}

/// The values that were loaded, per grouping key and per aggregate: a column
/// along the bound ids of its variable, or one value of a constant. A column
/// that could not be evaluated is missing.
#[derive(Debug)]
pub struct Supply {
    pub keys: Vec<Option<Vec<Val>>>,
    pub args: Vec<Option<Vec<Val>>>,
}

/// Values that may be missing.
pub open spec fn supplied(x: Option<Vec<Val>>) -> Option<Seq<ValV>> {
    match x {
        Some(s) => Some(reduce::vals_v(s@)),
        None => None,
    }
}

/// A grouping key with its values.
pub open spec fn bind_key(k: KeyV, ids: Seq<Vec<u64>>, x: Option<Seq<ValV>>) -> Option<KeyColV> {
    match k.kind {
        SingleVar::Node(i) => Some(KeyColV::Node(i as int)),
        SingleVar::Col(i) => if ids[i as int]@.len() == 0 {
            Some(KeyColV::Col(i as int, Seq::empty(), Seq::empty()))
        } else {
            match x {
                Some(s) => Some(KeyColV::Col(i as int, ids[i as int]@, s)),
                None => None,
            }
        },
        SingleVar::Const => match x {
            Some(s) => Some(KeyColV::Const(s[0])),
            None => None,
        },
    }
}

/// An aggregate's argument with its values. A plain count of a variable only
/// asks whether it is bound.
pub open spec fn bind_arg(s: SiteV, a: ArgV, ids: Seq<Vec<u64>>, x: Option<Seq<ValV>>) -> Option<
    ArgColV,
> {
    match a {
        ArgV::Star => Some(ArgColV::Star),
        ArgV::Node(i) => if s.name == "count"@ && !s.distinct {
            Some(ArgColV::Present(i as int))
        } else {
            Some(ArgColV::Entity(i as int))
        },
        ArgV::Col(i, _) => if ids[i as int]@.len() == 0 {
            Some(ArgColV::Gather(i as int, Seq::empty(), Seq::empty()))
        } else {
            match x {
                Some(s) => Some(ArgColV::Gather(i as int, ids[i as int]@, s)),
                None => None,
            }
        },
        ArgV::Const(_) => match x {
            Some(s) => Some(ArgColV::Const(s[0])),
            None => None,
        },
    }
}

/// How many values a key or an argument takes.
pub open spec fn fits(kind: Option<SingleVar>, ids: Seq<Vec<u64>>, x: Option<Seq<ValV>>) -> bool {
    match (kind, x) {
        (Some(SingleVar::Col(i)), Some(s)) => s.len() == ids[i as int]@.len(),
        (Some(SingleVar::Const), Some(s)) => s.len() == 1,
        _ => true,
    }
}

/// What an argument reads.
pub open spec fn arg_kind(a: ArgV) -> Option<SingleVar> {
    match a {
        ArgV::Star => None,
        ArgV::Node(i) => Some(SingleVar::Node(i)),
        ArgV::Col(i, _) => Some(SingleVar::Col(i)),
        ArgV::Const(_) => Some(SingleVar::Const),
    }
}

impl Supply {
    /// There are as many values as a plan takes.
    pub open spec fn fits(self, p: AggV, ids: Seq<Vec<u64>>) -> bool {
        &&& self.keys@.len() == p.group_keys.len()
        &&& self.args@.len() == p.site_args.len()
        &&& forall|i: int|
            0 <= i < self.keys@.len() ==> fits(
                Some(p.group_keys[i].kind),
                ids,
                supplied(#[trigger] self.keys@[i]),
            )
        &&& forall|i: int|
            0 <= i < self.args@.len() ==> fits(
                arg_kind(p.site_args[i]),
                ids,
                supplied(#[trigger] self.args@[i]),
            )
    }
}

fn copy_vals(s: &Vec<Val>) -> (r: Vec<Val>)
    ensures
        reduce::vals_v(r@) == reduce::vals_v(s@),
        r@.len() == s@.len(),
{
    let mut r: Vec<Val> = Vec::new();
    let mut i: usize = 0;
    while i < s.len()
        invariant
            i <= s@.len(),
            r@.len() == i,
            forall|j: int| 0 <= j < i ==> (#[trigger] r@[j]).v() == s@[j].v(),
        decreases s.len() - i,
    {
        r.push(s[i].copy());
        i = i + 1;
    }
    assert(reduce::vals_v(r@) =~= reduce::vals_v(s@));
    r
}

fn make_key(k: &AggKey, ids: &Vec<Vec<u64>>, x: &Option<Vec<Val>>) -> (r: Option<KeyVal>)
    requires
        plan::kind_var(k.kind) matches Some(i) ==> i < ids@.len(),
        fits(Some(k.kind), ids@, supplied(*x)),
    ensures
        match r {
            Some(v) => bind_key(k.v(), ids@, supplied(*x)) == Some(v.v()),
            None => bind_key(k.v(), ids@, supplied(*x)) is None,
        },
{
    match k.kind {
        SingleVar::Node(i) => Some(KeyVal::Node(i)),
        SingleVar::Col(i) => {
            if ids[i].len() == 0 {
                let a: Vec<u64> = Vec::new();
                let b: Vec<Val> = Vec::new();
                assert(reduce::vals_v(b@) =~= Seq::empty());
                assert(a@ =~= Seq::empty());
                return Some(KeyVal::Col(i, a, b));
            }
            match x {
                Some(s) => Some(KeyVal::Col(i, names::copy_ids(&ids[i]), copy_vals(s))),
                None => None,
            }
        },
        SingleVar::Const => match x {
            Some(s) => {
                assert(reduce::vals_v(s@)[0] == s@[0].v());
                Some(KeyVal::Const(s[0].copy()))
            },
            None => None,
        },
    }
}

fn make_arg(s: &AggSite, a: &SiteArgPlan, ids: &Vec<Vec<u64>>, x: &Option<Vec<Val>>) -> (r: Option<
    SiteArgVal,
>)
    requires
        readset::arg_var(a.v()) matches Some(i) ==> i < ids@.len(),
        fits(arg_kind(a.v()), ids@, supplied(*x)),
    ensures
        match r {
            Some(v) => bind_arg(s.v(), a.v(), ids@, supplied(*x)) == Some(v.v()),
            None => bind_arg(s.v(), a.v(), ids@, supplied(*x)) is None,
        },
{
    match a {
        SiteArgPlan::Star => Some(SiteArgVal::Star),
        SiteArgPlan::Node(i) => {
            if s.name == "count".to_owned() && !s.distinct {
                Some(SiteArgVal::Present(*i))
            } else {
                Some(SiteArgVal::Entity(*i))
            }
        },
        SiteArgPlan::Col(i, _) => {
            if ids[*i].len() == 0 {
                let a: Vec<u64> = Vec::new();
                let b: Vec<Val> = Vec::new();
                assert(reduce::vals_v(b@) =~= Seq::empty());
                assert(a@ =~= Seq::empty());
                return Some(SiteArgVal::Gather(*i, a, b));
            }
            match x {
                Some(s) => Some(SiteArgVal::Gather(*i, names::copy_ids(&ids[*i]), copy_vals(s))),
                None => None,
            }
        },
        SiteArgPlan::Const(_) => match x {
            Some(s) => {
                assert(reduce::vals_v(s@)[0] == s@[0].v());
                Some(SiteArgVal::Const(s[0].copy()))
            },
            None => None,
        },
    }
}

/// The grouping keys of a plan with their values, if none is missing.
pub open spec fn bound_keys(p: AggV, ids: Seq<Vec<u64>>, x: Seq<Option<Vec<Val>>>) -> Option<
    Seq<KeyColV>,
> {
    if forall|i: int|
        0 <= i < p.group_keys.len() ==> bind_key(
            #[trigger] p.group_keys[i],
            ids,
            supplied(x[i]),
        ) is Some {
        Some(
            Seq::new(
                p.group_keys.len(),
                |i: int| bind_key(p.group_keys[i], ids, supplied(x[i]))->0,
            ),
        )
    } else {
        None
    }
}

/// The arguments of a plan with their values, if none is missing.
pub open spec fn bound_args(p: AggV, ids: Seq<Vec<u64>>, x: Seq<Option<Vec<Val>>>) -> Option<
    Seq<ArgColV>,
> {
    if forall|i: int|
        0 <= i < p.site_args.len() ==> bind_arg(
            p.sites[i],
            #[trigger] p.site_args[i],
            ids,
            supplied(x[i]),
        ) is Some {
        Some(
            Seq::new(
                p.site_args.len(),
                |i: int| bind_arg(p.sites[i], p.site_args[i], ids, supplied(x[i]))->0,
            ),
        )
    } else {
        None
    }
}

fn make_keys(p: &AggPlan, ids: &Vec<Vec<u64>>, x: &Vec<Option<Vec<Val>>>) -> (r: Option<
    Vec<KeyVal>,
>)
    requires
        readset::tail_wf(p.v()),
        ids@.len() == p.chain.vars@.len(),
        x@.len() == p.group_keys@.len(),
        forall|i: int|
            0 <= i < x@.len() ==> fits(
                Some(p.v().group_keys[i].kind),
                ids@,
                supplied(#[trigger] x@[i]),
            ),
    ensures
        match r {
            Some(v) => bound_keys(p.v(), ids@, x@) == Some(reduce::key_vals_v(v@)),
            None => bound_keys(p.v(), ids@, x@) is None,
        },
{
    let ghost pv = p.v();
    let mut r: Vec<KeyVal> = Vec::new();
    let mut i: usize = 0;
    while i < p.group_keys.len()
        invariant
            i <= p.group_keys@.len(),
            pv == p.v(),
            readset::tail_wf(pv),
            ids@.len() == pv.chain.vars.len(),
            x@.len() == p.group_keys@.len(),
            forall|i: int|
                0 <= i < x@.len() ==> fits(
                    Some(pv.group_keys[i].kind),
                    ids@,
                    supplied(#[trigger] x@[i]),
                ),
            r@.len() == i,
            forall|j: int|
                0 <= j < i ==> bind_key(
                    #[trigger] pv.group_keys[j],
                    ids@,
                    supplied(x@[j]),
                ) == Some(r@[j].v()),
        decreases p.group_keys.len() - i,
    {
        assert(pv.group_keys[i as int] == p.group_keys@[i as int].v());
        assert(fits(Some(pv.group_keys[i as int].kind), ids@, supplied(x@[i as int])));
        match make_key(&p.group_keys[i], ids, &x[i]) {
            None => {
                return None;
            },
            Some(k) => {
                r.push(k);
            },
        }
        i = i + 1;
    }
    assert(reduce::key_vals_v(r@) =~= bound_keys(pv, ids@, x@)->0);
    Some(r)
}

fn make_args(p: &AggPlan, ids: &Vec<Vec<u64>>, x: &Vec<Option<Vec<Val>>>) -> (r: Option<
    Vec<SiteArgVal>,
>)
    requires
        readset::tail_wf(p.v()),
        ids@.len() == p.chain.vars@.len(),
        x@.len() == p.site_args@.len(),
        p.sites@.len() == p.site_args@.len(),
        forall|i: int|
            0 <= i < x@.len() ==> fits(
                arg_kind(p.v().site_args[i]),
                ids@,
                supplied(#[trigger] x@[i]),
            ),
    ensures
        match r {
            Some(v) => bound_args(p.v(), ids@, x@) == Some(reduce::arg_vals_v(v@)),
            None => bound_args(p.v(), ids@, x@) is None,
        },
{
    let ghost pv = p.v();
    let mut r: Vec<SiteArgVal> = Vec::new();
    let mut i: usize = 0;
    while i < p.site_args.len()
        invariant
            i <= p.site_args@.len(),
            pv == p.v(),
            readset::tail_wf(pv),
            ids@.len() == pv.chain.vars.len(),
            x@.len() == p.site_args@.len(),
            p.sites@.len() == p.site_args@.len(),
            forall|i: int|
                0 <= i < x@.len() ==> fits(
                    arg_kind(pv.site_args[i]),
                    ids@,
                    supplied(#[trigger] x@[i]),
                ),
            r@.len() == i,
            forall|j: int|
                0 <= j < i ==> bind_arg(
                    pv.sites[j],
                    #[trigger] pv.site_args[j],
                    ids@,
                    supplied(x@[j]),
                ) == Some(r@[j].v()),
        decreases p.site_args.len() - i,
    {
        assert(pv.site_args[i as int] == p.site_args@[i as int].v());
        assert(pv.sites[i as int] == p.sites@[i as int].v());
        assert(fits(arg_kind(pv.site_args[i as int]), ids@, supplied(x@[i as int])));
        match make_arg(&p.sites[i], &p.site_args[i], ids, &x[i]) {
            None => {
                return None;
            },
            Some(a) => {
                r.push(a);
            },
        }
        i = i + 1;
    }
    assert(reduce::arg_vals_v(r@) =~= bound_args(pv, ids@, x@)->0);
    Some(r)
}

/// How a plan groups a chunk's rows, with the values of its keys and arguments.
pub open spec fn plan_view(
    g: Graph,
    p: AggV,
    chunk: DataChunk,
    keys: Seq<KeyColV>,
    args: Seq<ArgColV>,
) -> reduce::ReduceV {
    reduce::ReduceV {
        keys,
        args,
        fresh: p.sites.map_values(|s: SiteV| reduce::fresh(s)),
        kinds: chunk.var_kinds@,
        weighted: chunk.weights@.len() > 0,
        budget: g.row_budget,
    }
}

/// The groups that a plan makes of a chunk's rows. Without rows there are
/// none, but a plan without keys always makes one.
pub open spec fn plan_groups(
    g: Graph,
    p: AggV,
    chunk: DataChunk,
    ids: Seq<Vec<u64>>,
    x: Supply,
) -> Reduced {
    if chunk.live_view().len() == 0 {
        if p.group_keys.len() == 0 {
            Reduced::Groups(
                seq![Seq::empty()],
                seq![
                    GroupV {
                        ids: Seq::empty(),
                        accs: p.sites.map_values(|s: SiteV| reduce::fresh(s)),
                    },
                ],
            )
        } else {
            Reduced::Groups(Seq::empty(), Seq::empty())
        }
    } else {
        match (bound_keys(p, ids, x.keys@), bound_args(p, ids, x.args@)) {
            (Some(keys), Some(args)) => reduce::reduce(
                plan_view(g, p, chunk, keys, args),
                chunk.live_view(),
            ),
            _ => Reduced::Decline,
        }
    }
}

proof fn lemma_bound_keys_ready(p: AggV, ids: Seq<Vec<u64>>, x: Seq<Option<Vec<Val>>>, rows: Seq<RowV>)
    requires
        readset::tail_wf(p),
        ids.len() == p.chain.vars.len(),
        x.len() == p.group_keys.len(),
        forall|v: int| 0 <= v < ids.len() ==> bound_ids((#[trigger] ids[v])@, v, rows),
        forall|i: int|
            0 <= i < x.len() ==> fits(
                Some(p.group_keys[i].kind),
                ids,
                supplied(#[trigger] x[i]),
            ),
    ensures
        bound_keys(p, ids, x) matches Some(ks) ==> forall|i: int|
            0 <= i < ks.len() ==> reduce::key_wf(#[trigger] ks[i], ids.len()) && reduce::key_covers(
                ks[i],
                rows,
            ),
{
    if bound_keys(p, ids, x) is Some {
        let ks = bound_keys(p, ids, x)->0;
        assert forall|i: int| 0 <= i < ks.len() implies reduce::key_wf(#[trigger] ks[i], ids.len())
            && reduce::key_covers(ks[i], rows) by {
            let k = p.group_keys[i];
            assert(bind_key(k, ids, supplied(x[i])) is Some);
            assert(fits(Some(k.kind), ids, supplied(x[i])));
            match k.kind {
                SingleVar::Col(v) => {
                    assert(bound_ids(ids[v as int]@, v as int, rows));
                    lemma_covers(ids[v as int]@, v as int, rows);
                    if ids[v as int]@.len() == 0 {
                        assert(ids[v as int]@ =~= Seq::empty());
                    }
                },
                _ => {},
            }
        }
    }
}

proof fn lemma_covers(ids: Seq<u64>, vi: int, rows: Seq<RowV>)
    requires
        bound_ids(ids, vi, rows),
    ensures
        reduce::covers(ids, vi, rows),
{
    assert forall|k: int| 0 <= k < rows.len() implies (#[trigger] rows[k]).ids[vi] == NULL_ID
        || ids.contains(rows[k].ids[vi]) by {
        let x = rows[k].ids[vi];
        assert(ids.contains(x) <==> x != NULL_ID && exists|k: int|
            0 <= k < rows.len() && (#[trigger] rows[k]).ids[vi] == x);
    }
}

proof fn lemma_bound_args_ready(p: AggV, ids: Seq<Vec<u64>>, x: Seq<Option<Vec<Val>>>, rows: Seq<RowV>)
    requires
        readset::tail_wf(p),
        ids.len() == p.chain.vars.len(),
        x.len() == p.site_args.len(),
        forall|v: int| 0 <= v < ids.len() ==> bound_ids((#[trigger] ids[v])@, v, rows),
        forall|i: int|
            0 <= i < x.len() ==> fits(
                arg_kind(p.site_args[i]),
                ids,
                supplied(#[trigger] x[i]),
            ),
    ensures
        bound_args(p, ids, x) matches Some(a) ==> forall|i: int|
            0 <= i < a.len() ==> reduce::arg_wf(#[trigger] a[i], ids.len()) && reduce::arg_covers(
                a[i],
                rows,
            ),
{
    if bound_args(p, ids, x) is Some {
        let a = bound_args(p, ids, x)->0;
        assert forall|i: int| 0 <= i < a.len() implies reduce::arg_wf(#[trigger] a[i], ids.len())
            && reduce::arg_covers(a[i], rows) by {
            assert(bind_arg(p.sites[i], p.site_args[i], ids, supplied(x[i])) is Some);
            assert(fits(arg_kind(p.site_args[i]), ids, supplied(x[i])));
            match p.site_args[i] {
                ArgV::Col(v, e) => {
                    assert(bound_ids(ids[v as int]@, v as int, rows));
                    lemma_covers(ids[v as int]@, v as int, rows);
                    if ids[v as int]@.len() == 0 {
                        assert(ids[v as int]@ =~= Seq::empty());
                    }
                },
                _ => {},
            }
        }
    }
}

/// Groups a chunk's live rows by a plan.
pub fn run_aggregate_over_chunk(
    g: &Graph,
    p: &AggPlan,
    chunk: &DataChunk,
    needs: &Needs,
    x: &Supply,
) -> (o: Result<Option<Vec<Group>>, RunError>)
    requires
        chunk.wf(),
        chunk.ids@.len() == p.chain.vars@.len(),
        readset::tail_wf(p.v()),
        p.sites@.len() == p.site_args@.len(),
        needs.of(p.v(), chunk.live_view()),
        x.fits(p.v(), needs.ids@),
    ensures
        reduce::reduced_to(plan_groups(*g, p.v(), *chunk, needs.ids@, *x), o),
{
    let ghost pv = p.v();
    let ghost rows = chunk.live_view();
    if chunk.live() == 0 {
        let mut groups: Vec<Group> = Vec::new();
        if p.group_keys.len() == 0 {
            let ids: Vec<u64> = Vec::new();
            let z = Group { ids, accs: reduce::fresh_accs(&p.sites) };
            assert(z.v().ids =~= Seq::empty());
            groups.push(z);
            assert(reduce::groups_v(groups@) =~= seq![z.v()]);
        } else {
            assert(reduce::groups_v(groups@) =~= Seq::empty());
        }
        return Ok(Some(groups));
    }
    let keys = match make_keys(p, &needs.ids, &x.keys) {
        Some(k) => k,
        None => {
            return Ok(None);
        },
    };
    let args = match make_args(p, &needs.ids, &x.args) {
        Some(a) => a,
        None => {
            return Ok(None);
        },
    };
    proof {
        lemma_bound_keys_ready(pv, needs.ids@, x.keys@, rows);
        lemma_bound_args_ready(pv, needs.ids@, x.args@, rows);
        assert forall|i: int| 0 <= i < keys@.len() implies reduce::key_wf(
            (#[trigger] keys@[i]).v(),
            chunk.ids@.len(),
        ) && reduce::key_covers(keys@[i].v(), rows) by {
            assert(reduce::key_vals_v(keys@)[i] == keys@[i].v());
        }
        assert forall|i: int| 0 <= i < args@.len() implies reduce::arg_wf(
            (#[trigger] args@[i]).v(),
            chunk.ids@.len(),
        ) && reduce::arg_covers(args@[i].v(), rows) by {
            assert(reduce::arg_vals_v(args@)[i] == args@[i].v());
        }
        assert(reduce::arg_vals_v(args@).len() == args@.len());
        assert(reduce::reduce_view(*g, *chunk, keys@, args@, p.sites@) == plan_view(
            *g,
            pv,
            *chunk,
            reduce::key_vals_v(keys@),
            reduce::arg_vals_v(args@),
        ));
    }
    reduce::reduce_agg_groups(g, chunk, &keys, &args, &p.sites)
}

} // verus!
