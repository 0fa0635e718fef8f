//! The steps of a chain and their dispatch.

use std::collections::BTreeSet;
use vstd::prelude::*;

use crate::chunk;
use crate::chunk::{DataChunk, HopV, RowV};
use crate::graph;
use crate::graph::{Dir, Graph, RunError, VarKind};
use crate::names;
use crate::names::copy_names;
use crate::operators;

verus! {

/// A predicate that a folded hop tests on each node it reaches, against a
/// variable bound by then.
#[derive(Debug)]
pub enum InlinePred {
    /// The node differs from the bound one.
    NeBound(usize),
    /// The node is the bound one.
    EqBound(usize),
    /// An edge leads from the node to the bound one, or does not when `negate`.
    EdgeToBound { vi: usize, dir: Dir, types: Vec<String>, negate: bool },
}

/// One step of a chain.
#[derive(Debug)]
pub struct Hop {
    /// The source variable.
    pub src: usize,
    pub dir: Dir,
    /// The relationship types, any of them; none admits every type.
    pub types: Vec<String>,
    /// The labels of the end node, all of them.
    pub labels: Vec<String>,
    /// The end variable.
    pub var: String,
    /// The relationship variable, if the hop binds one.
    pub rel_var: Option<String>,
    /// Whether the path keeps its relationships apart.
    pub track: bool,
    /// Whether a new path starts here.
    pub reset: bool,
    /// The bound variable that the hop closes onto, if it does.
    pub tgt: Option<usize>,
    /// The most hops of a variable-length step.
    pub varlen: Option<u64>,
    /// The variable that the hop binds, if it does.
    pub end_vi: Option<usize>,
    /// Whether the hop is counted and not expanded.
    pub fold: bool,
    /// The predicates that a counted hop tests.
    pub inline: Vec<InlinePred>,
}

/// A copy of a predicate.
pub fn copy_pred(p: &InlinePred) -> (r: InlinePred)
    ensures
        same_pred(r, *p),
{
    match p {
        InlinePred::NeBound(o) => InlinePred::NeBound(*o),
        InlinePred::EqBound(o) => InlinePred::EqBound(*o),
        InlinePred::EdgeToBound { vi, dir, types, negate } => InlinePred::EdgeToBound {
            vi: *vi,
            dir: *dir,
            types: copy_names(types),
            negate: *negate,
        },
    }
}

/// Two predicates say the same.
pub open spec fn same_pred(a: InlinePred, b: InlinePred) -> bool {
    match (a, b) {
        (InlinePred::NeBound(x), InlinePred::NeBound(y)) => x == y,
        (InlinePred::EqBound(x), InlinePred::EqBound(y)) => x == y,
        (
            InlinePred::EdgeToBound { vi: v1, dir: d1, types: t1, negate: n1 },
            InlinePred::EdgeToBound { vi: v2, dir: d2, types: t2, negate: n2 },
        ) => v1 == v2 && d1 == d2 && names::of(t1@) == names::of(t2@) && n1 == n2,
        _ => false,
    }
}

/// An [`InlinePred`].
pub enum InlineV {
    Ne(int),
    Eq(int),
    Edge { vi: int, dir: Dir, types: Seq<Seq<char>>, negate: bool },
}

impl InlinePred {
    pub open spec fn v(self) -> InlineV {
        match self {
            InlinePred::NeBound(o) => InlineV::Ne(o as int),
            InlinePred::EqBound(o) => InlineV::Eq(o as int),
            InlinePred::EdgeToBound { vi, dir, types, negate } => InlineV::Edge {
                vi: vi as int,
                dir,
                types: names::of(types@),
                negate,
            },
        }
    }
}

/// A [`Hop`].
pub struct StepHop {
    pub src: int,
    pub dir: Dir,
    pub types: Seq<Seq<char>>,
    pub labels: Seq<Seq<char>>,
    pub var: Seq<char>,
    pub rel_var: Option<Seq<char>>,
    pub track: bool,
    pub reset: bool,
    pub tgt: Option<int>,
    pub varlen: Option<u64>,
    pub end_vi: Option<int>,
    pub fold: bool,
    pub inline: Seq<InlineV>,
}

/// An optional index as an integer.
pub open spec fn opt_index(i: Option<usize>) -> Option<int> {
    match i {
        Some(i) => Some(i as int),
        None => None,
    }
}

/// The predicates of a hop.
pub open spec fn inlines_v(s: Seq<InlinePred>) -> Seq<InlineV> {
    s.map_values(|p: InlinePred| p.v())
}

impl Hop {
    pub open spec fn v(self) -> StepHop {
        StepHop {
            src: self.src as int,
            dir: self.dir,
            types: names::of(self.types@),
            labels: names::of(self.labels@),
            var: self.var@,
            rel_var: own_name(self.rel_var),
            track: self.track,
            reset: self.reset,
            tgt: opt_index(self.tgt),
            varlen: self.varlen,
            end_vi: opt_index(self.end_vi),
            fold: self.fold,
            inline: inlines_v(self.inline@),
        }
    }
}

/// The steps of a chain.
pub open spec fn steps_v(s: Seq<Hop>) -> Seq<StepHop> {
    s.map_values(|h: Hop| h.v())
}

/// A copy of predicates.
pub fn copy_preds(s: &Vec<InlinePred>) -> (r: Vec<InlinePred>)
    ensures
        inlines_v(r@) == inlines_v(s@),
{
    let mut r: Vec<InlinePred> = Vec::new();
    let mut i: usize = 0;
    while i < s.len()
        invariant
            i <= s@.len(),
            r@.len() == i,
            forall|j: int| 0 <= j < i ==> (#[trigger] r@[j]).v() == s@[j].v(),
        decreases s.len() - i,
    {
        r.push(copy_pred(&s[i]));
        i = i + 1;
    }
    assert(inlines_v(r@) =~= inlines_v(s@));
    r
}

impl Hop {
    /// A copy.
    pub fn copy(&self) -> (r: Hop)
        ensures
            r.v() == self.v(),
    {
        Hop {
            src: self.src,
            dir: self.dir,
            types: copy_names(&self.types),
            labels: copy_names(&self.labels),
            var: self.var.clone(),
            rel_var: match &self.rel_var {
                Some(s) => Some(s.clone()),
                None => None,
            },
            track: self.track,
            reset: self.reset,
            tgt: self.tgt,
            varlen: self.varlen,
            end_vi: self.end_vi,
            fold: self.fold,
            inline: copy_preds(&self.inline),
        }
    }
}

/// A copy of steps.
pub fn copy_all(s: &Vec<Hop>) -> (r: Vec<Hop>)
    ensures
        steps_v(r@) == steps_v(s@),
{
    let mut r: Vec<Hop> = Vec::new();
    let mut i: usize = 0;
    while i < s.len()
        invariant
            i <= s@.len(),
            r@.len() == i,
            forall|j: int| 0 <= j < i ==> (#[trigger] r@[j]).v() == s@[j].v(),
        decreases s.len() - i,
    {
        r.push(s[i].copy());
        i = i + 1;
    }
    assert(steps_v(r@) =~= steps_v(s@));
    r
}

/// An optional name of a hop.
pub open spec fn own_name(s: Option<String>) -> Option<Seq<char>> {
    match s {
        Some(s) => Some(s@),
        None => None,
    }
}

/// What a hop does with a token list and a member set.
pub open spec fn hop_view(h: Hop, tokens: Option<Seq<u32>>, members: Option<Set<u64>>) -> HopV {
    HopV {
        src: h.src as int,
        dir: h.dir,
        tokens,
        members: if h.tgt is Some {
            None
        } else {
            members
        },
        track: h.varlen is None && h.track,
        reset: h.varlen is None && h.reset,
        rel_col: h.varlen is None && h.rel_var is Some,
    }
}

/// The rows that a hop makes of a batch; `None` when the budget refuses it.
pub open spec fn hop_rows(
    g: Graph,
    h: Hop,
    tokens: Option<Seq<u32>>,
    members: Option<Set<u64>>,
    rows: Seq<RowV>,
) -> Option<Seq<RowV>> {
    let v = hop_view(h, tokens, members);
    match h.varlen {
        Some(max) => operators::reach_rows(
            g,
            HopV { members, ..v },
            max as nat,
            rows,
        ),
        None => {
            let out = match h.tgt {
                None => chunk::expand_rows(g, v, rows),
                Some(t) => chunk::close_rows(g, v, t as int, rows),
            };
            if g.over_budget(out.len() as int) {
                None
            } else {
                Some(out)
            }
        },
    }
}

/// The names that a hop adds.
pub open spec fn hop_vars(h: Hop, vars: Seq<Seq<char>>) -> Seq<Seq<char>> {
    if h.varlen is Some {
        vars.push(h.var@)
    } else {
        chunk::vars_after(
            vars,
            if h.tgt is None {
                Some(h.var@)
            } else {
                None
            },
            own_name(h.rel_var),
        )
    }
}

/// The kinds that a hop adds.
pub open spec fn hop_kinds(h: Hop, kinds: Seq<VarKind>) -> Seq<VarKind> {
    if h.varlen is Some {
        kinds.push(VarKind::Node)
    } else {
        chunk::kinds_after(kinds, h.tgt is None, h.rel_var is Some)
    }
}

/// The columns that a hop reads are bound.
pub open spec fn hop_fits(h: Hop, width: nat) -> bool {
    h.src < width && (h.varlen is None ==> (h.tgt matches Some(t) ==> t < width))
}

/// Run one step over a chunk: a variable-length step, an expand or a close.
pub fn run_hop(
    g: &Graph,
    c: DataChunk,
    hop: &Hop,
    members: Option<&BTreeSet<u64>>,
    tokens: &Option<Vec<u32>>,
) -> (res: Result<DataChunk, RunError>)
    requires
        c.wf(),
        hop_fits(*hop, c.ids@.len()),
    ensures
        match (
            res,
            hop_rows(
                *g,
                *hop,
                graph::tokens_view(*tokens),
                graph::members_view(members),
                c.live_view(),
            ),
        ) {
            (Ok(d), Some(rows)) => {
                &&& d.wf()
                &&& d.dense()
                &&& d.live_view() == rows
                &&& names::of(d.vars@) == hop_vars(*hop, names::of(c.vars@))
                &&& d.var_kinds@ == hop_kinds(*hop, c.var_kinds@)
                &&& c.prov@.len() == 0 ==> d.prov@.len() == 0
                &&& c.weights@.len() == 0 ==> d.weights@.len() == 0
                &&& c.weights@.len() > 0 && d.live_view().len() > 0 ==> d.weights@.len() > 0
            },
            (Err(e), None) => e == RunError::RowBudget,
            _ => false,
        },
{
    match hop.varlen {
        Some(max) => {
            return c.expand_var_length_bfs(g, hop.src, &hop.var, hop.dir, tokens, members, max);
        },
        None => {},
    }
    match hop.tgt {
        None => c.expand(
            g,
            hop.src,
            &hop.var,
            hop.rel_var.as_ref(),
            hop.dir,
            tokens,
            members,
            hop.track,
            hop.reset,
        ),
        Some(t) => c.semijoin(
            g,
            hop.src,
            t,
            hop.rel_var.as_ref(),
            hop.dir,
            tokens,
            hop.track,
            hop.reset,
        ),
    }
}

/// Whether any hop is a variable-length step.
pub fn hops_have_varlen(hops: &Vec<Hop>) -> (b: bool)
    ensures
        b <==> exists|i: int| 0 <= i < hops@.len() && (#[trigger] hops@[i]).varlen is Some,
{
    let mut i: usize = 0;
    while i < hops.len()
        invariant
            i <= hops.len(),
            forall|j: int| 0 <= j < i ==> (#[trigger] hops@[j]).varlen is None,
        decreases hops.len() - i,
    {
        if hops[i].varlen.is_some() {
            return true;
        }
        i = i + 1;
    }
    false
}

} // verus!
