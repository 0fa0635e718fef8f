//! Queries with optional matches.

use vstd::prelude::*;

use crate::aggregate;
use crate::ast;
use crate::ast::{classify_key, reads_var, Expr, ExprV, Head, HeadV, KeyRef};
use crate::chain;
use crate::chain::{bound_hops, collect_hops, scan_hops, Allow, Prebound};
use crate::distinct::has_varlen;
use crate::fold_plan;
use crate::fold_plan::{binder, parent, step_wf};
use crate::graph::VarKind;
use crate::hop;
use crate::hop::{copy_all, hops_have_varlen, Hop, StepHop};
use crate::levers;
use crate::levers::{count_fold_enabled, Levers};
use crate::names;
use crate::names::{copy_names, name_index};
use crate::plan;
use crate::plan::{aggregate_over_chain, aggregate_plan, core_over_chain, core_plan, extract_aggregates, resolve_order_key_alias, resolved, AggForm, AggPlan, AggSite, AggV, ArgV, CorePlan, CoreV, FormV, KeyV, SingleVar, SiteArgPlan, SiteV};
use crate::preds;
use crate::preds::{recognise_single_var_where, where_pred, Chain, ChainV, WherePred, WhereV};
use crate::query;
use crate::query::{items_aggregate, Clause, ClauseV, OrderItem, OrderV, Pattern, PatternV, SingleQuery};
use crate::readset;
use crate::readset::{agg_tail_read_set, all_sites_count_star};
use crate::seqs;

verus! {

/// One optional match over the variables bound before it.
#[derive(Debug)]
pub struct OptionalStage {
    pub hops: Vec<Hop>,
    /// The match's own condition.
    pub where_: Option<WherePred>,
    /// How many variables are bound before it.
    pub outer_len: usize,
    /// How many are bound after it.
    pub vars_after: usize,
}

/// An [`OptionalStage`].
pub struct StageV {
    pub hops: Seq<StepHop>,
    pub where_: Option<WhereV>,
    pub outer_len: int,
    pub vars_after: int,
}

/// A conjunct that may be missing.
pub open spec fn where_v(w: Option<WherePred>) -> Option<WhereV> {
    match w {
        Some(w) => Some(w.v()),
        None => None,
    }
}

impl OptionalStage {
    pub open spec fn v(self) -> StageV {
        StageV {
            hops: hop::steps_v(self.hops@),
            where_: where_v(self.where_),
            outer_len: self.outer_len as int,
            vars_after: self.vars_after as int,
        }
    }
}

/// Optional matches.
pub open spec fn stages_v(s: Seq<OptionalStage>) -> Seq<StageV> {
    s.map_values(|x: OptionalStage| x.v())
}

/// What the rows of optional matches are turned into.
#[derive(Debug)]
pub enum OptionalTail {
    Agg(AggPlan),
    Core(CorePlan),
}

/// An [`OptionalTail`].
pub enum TailV {
    Agg(AggV),
    Core(CoreV),
}

impl OptionalTail {
    pub open spec fn v(self) -> TailV {
        match self {
            OptionalTail::Agg(a) => TailV::Agg(a.v()),
            OptionalTail::Core(c) => TailV::Core(c.v()),
        }
    }
}

/// A match, the optional matches after it, and a projection.
#[derive(Debug)]
pub struct OptionalPlan {
    pub outer_a_labels: Vec<String>,
    pub outer_a_var: String,
    pub outer_hops: Vec<Hop>,
    /// The variables that are never null.
    pub outer_vars: Vec<String>,
    pub outer_where: Option<WherePred>,
    pub stages: Vec<OptionalStage>,
    pub combined_vars: Vec<String>,
    pub combined_kinds: Vec<VarKind>,
    pub tail: OptionalTail,
}

/// An [`OptionalPlan`].
pub struct OptionalV {
    pub outer_a_labels: Seq<Seq<char>>,
    pub outer_a_var: Seq<char>,
    pub outer_hops: Seq<StepHop>,
    pub outer_vars: Seq<Seq<char>>,
    pub outer_where: Option<WhereV>,
    pub stages: Seq<StageV>,
    pub combined_vars: Seq<Seq<char>>,
    pub combined_kinds: Seq<VarKind>,
    pub tail: TailV,
}

impl OptionalPlan {
    pub open spec fn v(self) -> OptionalV {
        OptionalV {
            outer_a_labels: names::of(self.outer_a_labels@),
            outer_a_var: self.outer_a_var@,
            outer_hops: hop::steps_v(self.outer_hops@),
            outer_vars: names::of(self.outer_vars@),
            outer_where: where_v(self.outer_where),
            stages: stages_v(self.stages@),
            combined_vars: names::of(self.combined_vars@),
            combined_kinds: self.combined_kinds@,
            tail: self.tail.v(),
        }
    }
}

/// Whether an expression is a property of a variable.
pub open spec fn direct_prop(e: ExprV, x: Seq<char>) -> bool {
    e.head is Prop && e.args.len() == 1 && e.args[0].head == HeadV::Var(x)
}

/// Whether an expression is a property of a variable.
pub fn is_direct_prop_of(e: &Expr, x: &String) -> (b: bool)
    ensures
        b == direct_prop(e.v(), x@),
{
    if !matches!(e.head, Head::Prop(_)) || e.args.len() != 1 {
        return false;
    }
    assert(e.v().args[0] == e.args@[0].v());
    match &e.args[0].head {
        Head::Var(y) => *y == *x,
        _ => false,
    }
}

/// Whether a grouping key takes a null variable to null.
pub open spec fn key_nulls(k: KeyV, vars: Seq<Seq<char>>, outer: int) -> bool {
    match k.kind {
        SingleVar::Col(v) => v >= outer ==> direct_prop(k.expr, vars[v as int]),
        _ => true,
    }
}

/// Whether an aggregate leaves null arguments out, and takes a null variable
/// to null.
pub open spec fn arg_nulls(s: SiteV, a: ArgV, vars: Seq<Seq<char>>, outer: int) -> bool {
    let skips = s.name == "count"@ || s.name == "collect"@;
    match a {
        ArgV::Node(v) => v >= outer ==> skips,
        ArgV::Col(v, e) => v >= outer ==> skips && direct_prop(e, vars[v as int]),
        _ => true,
    }
}

/// Whether a sort key reads no nullable variable outside its aggregates.
pub open spec fn order_nulls(o: OrderV, vars: Seq<Seq<char>>, outer: int) -> bool {
    forall|v: int|
        outer <= v < vars.len() ==> !ast::reads(plan::lift(o.expr, 0).0, #[trigger] vars[v])
}

/// The sort keys of a grouping tail.
pub open spec fn tail_order(f: FormV) -> Seq<OrderV> {
    match f {
        FormV::Return(p) => p.order,
        FormV::With { return_proj, .. } => return_proj.order,
    }
}

/// Whether a grouping tail uses the variables from `outer` on only where a
/// null is right.
pub open spec fn agg_nulls(p: AggV, outer: int) -> bool {
    &&& forall|i: int|
        0 <= i < p.group_keys.len() ==> key_nulls(#[trigger] p.group_keys[i], p.chain.vars, outer)
    &&& forall|i: int|
        0 <= i < p.site_args.len() && i < p.sites.len() ==> arg_nulls(
            p.sites[i],
            #[trigger] p.site_args[i],
            p.chain.vars,
            outer,
        )
    &&& forall|i: int|
        0 <= i < tail_order(p.form).len() ==> order_nulls(
            #[trigger] tail_order(p.form)[i],
            p.chain.vars,
            outer,
        )
}

/// The sort keys of a grouping tail.
pub fn agg_order_keys(p: &AggPlan) -> (r: &Vec<OrderItem>)
    ensures
        query::order_v(r@) == tail_order(p.v().form),
{
    match &p.form {
        AggForm::Return(p) => &p.order,
        AggForm::With { return_proj, .. } => &return_proj.order,
    }
}

fn reads_none_from(e: &Expr, vars: &Vec<String>, outer: usize) -> (b: bool)
    requires
        outer <= vars@.len(),
    ensures
        b == (forall|v: int|
            outer <= v < vars@.len() ==> !ast::reads(e.v(), #[trigger] names::of(vars@)[v])),
{
    let mut v: usize = outer;
    while v < vars.len()
        invariant
            outer <= v <= vars@.len(),
            forall|u: int|
                outer <= u < v ==> !ast::reads(e.v(), #[trigger] names::of(vars@)[u]),
        decreases vars.len() - v,
    {
        assert(names::of(vars@)[v as int] == vars@[v as int]@);
        if reads_var(e, &vars[v]) {
            return false;
        }
        v = v + 1;
    }
    true
}

/// Whether a grouping tail uses the variables from `outer` on only where a
/// null is right.
pub fn nullable_agg_ok(p: &AggPlan, outer: usize) -> (b: bool)
    requires
        readset::tail_wf(p.v()),
        outer <= p.chain.vars@.len(),
    ensures
        b == agg_nulls(p.v(), outer as int),
{
    let ghost pv = p.v();
    let ghost vs = pv.chain.vars;
    let mut i: usize = 0;
    while i < p.group_keys.len()
        invariant
            i <= p.group_keys@.len(),
            pv == p.v(),
            vs == pv.chain.vars,
            readset::tail_wf(pv),
            forall|j: int|
                0 <= j < i ==> key_nulls(#[trigger] pv.group_keys[j], vs, outer as int),
        decreases p.group_keys.len() - i,
    {
        assert(pv.group_keys[i as int] == p.group_keys@[i as int].v());
        match p.group_keys[i].kind {
            SingleVar::Col(v) => {
                if v >= outer && !is_direct_prop_of(&p.group_keys[i].expr, &p.chain.vars[v]) {
                    return false;
                }
            },
            _ => {},
        }
        i = i + 1;
    }
    let mut k: usize = 0;
    while k < p.site_args.len() && k < p.sites.len()
        invariant
            k <= p.site_args@.len(),
            k <= p.sites@.len(),
            pv == p.v(),
            vs == pv.chain.vars,
            readset::tail_wf(pv),
            forall|j: int|
                0 <= j < k ==> arg_nulls(
                    pv.sites[j],
                    #[trigger] pv.site_args[j],
                    vs,
                    outer as int,
                ),
        decreases p.site_args.len() - k,
    {
        assert(pv.site_args[k as int] == p.site_args@[k as int].v());
        assert(pv.sites[k as int] == p.sites@[k as int].v());
        let s = &p.sites[k];
        let skips = s.name == "count".to_owned() || s.name == "collect".to_owned();
        match &p.site_args[k] {
            SiteArgPlan::Node(v) => {
                if *v >= outer && !skips {
                    return false;
                }
            },
            SiteArgPlan::Col(v, e) => {
                if *v >= outer && !(skips && is_direct_prop_of(e, &p.chain.vars[*v])) {
                    return false;
                }
            },
            _ => {},
        }
        k = k + 1;
    }
    let order = agg_order_keys(p);
    let mut n: usize = 0;
    while n < order.len()
        invariant
            n <= order@.len(),
            outer <= p.chain.vars@.len(),
            pv == p.v(),
            vs == pv.chain.vars,
            query::order_v(order@) == tail_order(pv.form),
            forall|j: int|
                0 <= j < n ==> order_nulls(#[trigger] tail_order(pv.form)[j], vs, outer as int),
        decreases order.len() - n,
    {
        assert(tail_order(pv.form)[n as int] == order@[n as int].v());
        let mut sites: Vec<AggSite> = Vec::new();
        let e = extract_aggregates(&order[n].expr, &mut sites);
        if !reads_none_from(&e, &p.chain.vars, outer) {
            return false;
        }
        n = n + 1;
    }
    true
}

/// Whether a plain projection sorts by no variable from `outer` on.
pub open spec fn core_nulls(c: CoreV, outer: int) -> bool {
    forall|i: int|
        0 <= i < c.proj.order.len() ==> (ast::key_class(
            resolved((#[trigger] c.proj.order[i]).expr, c.chain.vars, c.proj.items),
            c.chain.vars,
        ) matches Some(KeyRef::Var(v)) ==> v < outer)
}

/// Whether a plain projection sorts by no variable from `outer` on.
pub fn nullable_core_ok(c: &CorePlan, outer: usize) -> (b: bool)
    ensures
        b == core_nulls(c.v(), outer as int),
{
    let mut i: usize = 0;
    while i < c.proj.order.len()
        invariant
            i <= c.proj.order@.len(),
            forall|j: int|
                0 <= j < i ==> (ast::key_class(
                    resolved(
                        (#[trigger] c.v().proj.order[j]).expr,
                        c.v().chain.vars,
                        c.v().proj.items,
                    ),
                    c.v().chain.vars,
                ) matches Some(KeyRef::Var(v)) ==> v < outer),
        decreases c.proj.order.len() - i,
    {
        assert(c.v().proj.order[i as int] == c.proj.order@[i as int].v());
        let key = resolve_order_key_alias(&c.proj.order[i].expr, &c.chain.vars, &c.proj);
        match classify_key(&key, &c.chain.vars) {
            Some(KeyRef::Var(v)) => {
                if v >= outer {
                    return false;
                }
            },
            _ => {},
        }
        i = i + 1;
    }
    true
}

/// Whether `t` is `cur` or stands above it among the leg's variables.
pub open spec fn reaches(hops: Seq<StepHop>, cur: int, t: int, outer: int) -> bool
    decreases cur,
{
    cur == t || (cur >= outer && binder(hops, cur) is Some && 0 <= parent(hops, cur) < cur
        && reaches(hops, parent(hops, cur), t, outer))
}

/// Whether a fold can count a step of a leg: it has a fixed length, binds no
/// relationship and no variable from before the leg, and closes only onto a
/// variable that is bound by then.
pub open spec fn leg_step_ok(hops: Seq<StepHop>, i: int, outer: int) -> bool {
    let h = hops[i];
    &&& h.varlen is None && h.rel_var is None
    &&& match h.tgt {
        None => h.end_vi matches Some(e) && e >= outer,
        Some(t) => t >= outer ==> reaches(hops.take(i), h.src, t, outer),
    }
}

/// Whether a fold can count a leg.
pub open spec fn leg_ok(hops: Seq<StepHop>, outer: int) -> bool {
    forall|i: int| 0 <= i < hops.len() ==> #[trigger] leg_step_ok(hops, i, outer)
}

/// Each step binds a later variable than its source.
pub open spec fn ends_later(hops: Seq<StepHop>) -> bool {
    forall|i: int|
        0 <= i < hops.len() ==> ((#[trigger] hops[i]).end_vi matches Some(e) ==> hops[i].src < e)
}

fn find_binder(hops: &Vec<Hop>, n: usize, v: usize) -> (r: Option<usize>)
    requires
        n <= hops@.len(),
    ensures
        hop::opt_index(r) == binder(hop::steps_v(hops@).take(n as int), v as int),
        r matches Some(i) ==> i < n,
{
    let ghost hs = hop::steps_v(hops@);
    let mut i: usize = n;
    while i > 0
        invariant
            i <= n <= hops@.len(),
            hs == hop::steps_v(hops@),
            binder(hs.take(n as int), v as int) == binder(hs.take(i as int), v as int),
        decreases i,
    {
        proof {
            seqs::lemma_take_last(hs, i - 1);
            assert(hs[i - 1] == hops@[i - 1].v());
        }
        match hops[i - 1].end_vi {
            Some(e) => {
                if e == v {
                    return Some(i - 1);
                }
            },
            None => {},
        }
        i = i - 1;
    }
    None
}

fn is_reached(hops: &Vec<Hop>, n: usize, src: usize, t: usize, outer: usize) -> (b: bool)
    requires
        n <= hops@.len(),
        ends_later(hop::steps_v(hops@)),
    ensures
        b == reaches(hop::steps_v(hops@).take(n as int), src as int, t as int, outer as int),
{
    let ghost hs = hop::steps_v(hops@);
    let ghost pre = hs.take(n as int);
    let mut cur: usize = src;
    loop
        invariant
            n <= hops@.len(),
            hs == hop::steps_v(hops@),
            pre == hs.take(n as int),
            ends_later(hs),
            reaches(pre, src as int, t as int, outer as int) == reaches(
                pre,
                cur as int,
                t as int,
                outer as int,
            ),
        decreases cur,
    {
        if cur == t {
            return true;
        }
        if cur < outer {
            return false;
        }
        match find_binder(hops, n, cur) {
            None => {
                return false;
            },
            Some(b) => {
                proof {
                    fold_plan::lemma_binder(pre, cur as int);
                    assert(pre[b as int] == hs[b as int]);
                    assert(hs[b as int] == hops@[b as int].v());
                }
                cur = hops[b].src;
            },
        }
    }
}

/// Whether a fold can count a leg.
pub fn leg_hops_foldable(hops: &Vec<Hop>, outer_len: usize) -> (b: bool)
    requires
        ends_later(hop::steps_v(hops@)),
    ensures
        b == leg_ok(hop::steps_v(hops@), outer_len as int),
{
    let ghost hs = hop::steps_v(hops@);
    let mut i: usize = 0;
    while i < hops.len()
        invariant
            i <= hops@.len(),
            hs == hop::steps_v(hops@),
            ends_later(hs),
            forall|j: int| 0 <= j < i ==> #[trigger] leg_step_ok(hs, j, outer_len as int),
        decreases hops.len() - i,
    {
        assert(hs[i as int] == hops@[i as int].v());
        let h = &hops[i];
        let ok = if h.varlen.is_some() || h.rel_var.is_some() {
            false
        } else {
            match h.tgt {
                None => match h.end_vi {
                    Some(e) => e >= outer_len,
                    None => false,
                },
                Some(t) => {
                    if t >= outer_len {
                        is_reached(hops, i, h.src, t, outer_len)
                    } else {
                        true
                    }
                },
            }
        };
        if !ok {
            assert(!leg_step_ok(hs, i as int, outer_len as int));
            return false;
        }
        i = i + 1;
    }
    true
}

/// Whether a leg can be counted under a grouping tail: it has no condition,
/// and nothing reads what it binds, nodes all.
pub open spec fn stage_folds(s: StageV, a: AggV, kinds: Seq<VarKind>) -> bool {
    &&& s.where_ is None
    &&& forall|v: int|
        s.outer_len <= v < s.vars_after ==> #[trigger] kinds[v] == VarKind::Node
            && !readset::tail_reads(a, v)
    &&& leg_ok(s.hops, s.outer_len)
}

/// The steps of a counted leg.
pub open spec fn leg_folded(hops: Seq<StepHop>) -> Seq<StepHop> {
    Seq::new(
        hops.len(),
        |i: int| StepHop { fold: true, reset: hops[i].reset || i == 0, ..hops[i] },
    )
}

/// A leg under a grouping tail.
pub open spec fn fold_stage(s: StageV, a: AggV, kinds: Seq<VarKind>) -> StageV {
    if stage_folds(s, a, kinds) {
        StageV { hops: leg_folded(s.hops), ..s }
    } else {
        s
    }
}

/// The legs under a tail.
pub open spec fn fold_stages(s: Seq<StageV>, tail: TailV, kinds: Seq<VarKind>, on: bool) -> Seq<
    StageV,
> {
    match tail {
        TailV::Agg(a) => if on && readset::only_count_star(a.sites) {
            s.map_values(|x: StageV| fold_stage(x, a, kinds))
        } else {
            s
        },
        TailV::Core(_) => s,
    }
}

/// A leg's variables have kinds, and its steps bind later variables than
/// their sources.
pub open spec fn stage_wf(s: StageV, n: nat) -> bool {
    0 <= s.outer_len <= s.vars_after <= n && ends_later(s.hops)
}

fn fold_leg(s: &mut OptionalStage)
    ensures
        final(s).v() == (StageV { hops: leg_folded(old(s).v().hops), ..old(s).v() }),
{
    let ghost h0 = s.hops@;
    let mut i: usize = 0;
    let n: usize = s.hops.len();
    while i < n
        invariant
            i <= n,
            n == h0.len(),
            s.hops@.len() == h0.len(),
            s.where_ == old(s).where_,
            s.outer_len == old(s).outer_len,
            s.vars_after == old(s).vars_after,
            forall|j: int|
                0 <= j < i ==> (#[trigger] s.hops@[j]).v() == (StepHop {
                    fold: true,
                    reset: h0[j].reset || j == 0,
                    ..h0[j].v()
                }),
            forall|j: int| i <= j < n ==> #[trigger] s.hops@[j] == h0[j],
        decreases n - i,
    {
        s.hops[i].fold = true;
        if i == 0 {
            s.hops[i].reset = true;
        }
        i = i + 1;
    }
    assert(hop::steps_v(s.hops@) =~= leg_folded(hop::steps_v(h0)));
}

fn leg_counts(s: &OptionalStage, read: &Vec<bool>, kinds: &Vec<VarKind>, a: Ghost<AggV>) -> (b: bool)
    requires
        stage_wf(s.v(), kinds@.len()),
        read@.len() == kinds@.len(),
        forall|v: int| 0 <= v < read@.len() ==> #[trigger] read@[v] == readset::tail_reads(a@, v),
    ensures
        b == stage_folds(s.v(), a@, kinds@),
{
    if s.where_.is_some() {
        return false;
    }
    let mut v: usize = s.outer_len;
    while v < s.vars_after
        invariant
            s.outer_len <= v <= s.vars_after <= kinds@.len(),
            read@.len() == kinds@.len(),
            forall|v: int|
                0 <= v < read@.len() ==> #[trigger] read@[v] == readset::tail_reads(a@, v),
            forall|u: int|
                s.outer_len <= u < v ==> #[trigger] kinds@[u] == VarKind::Node
                    && !readset::tail_reads(a@, u),
        decreases s.vars_after - v,
    {
        assert(read@[v as int] == readset::tail_reads(a@, v as int));
        if read[v] || !fold_plan::is_node(kinds[v]) {
            return false;
        }
        v = v + 1;
    }
    leg_hops_foldable(&s.hops, s.outer_len)
}

/// Marks the legs that a count folds.
pub fn plan_optional_fold(
    stages: &mut Vec<OptionalStage>,
    tail: &OptionalTail,
    kinds: &Vec<VarKind>,
    levers: &Levers,
)
    requires
        forall|i: int|
            0 <= i < old(stages)@.len() ==> stage_wf(
                (#[trigger] old(stages)@[i]).v(),
                kinds@.len(),
            ),
        tail matches OptionalTail::Agg(a) ==> readset::tail_wf(a.v()) && a.v().chain.vars.len()
            == kinds@.len(),
    ensures
        stages_v(final(stages)@) == fold_stages(
            stages_v(old(stages)@),
            tail.v(),
            kinds@,
            levers::count_fold_on(*levers),
        ),
{
    if !count_fold_enabled(levers) {
        return;
    }
    match tail {
        OptionalTail::Core(_) => {},
        OptionalTail::Agg(a) => {
            if !all_sites_count_star(&a.sites) {
                return;
            }
            let read = agg_tail_read_set(a);
            let ghost s0 = stages@;
            let mut i: usize = 0;
            while i < stages.len()
                invariant
                    i <= stages@.len(),
                    stages@.len() == s0.len(),
                    read@.len() == kinds@.len(),
                    forall|v: int|
                        0 <= v < read@.len() ==> #[trigger] read@[v] == readset::tail_reads(
                            a.v(),
                            v,
                        ),
                    forall|j: int|
                        0 <= j < s0.len() ==> stage_wf((#[trigger] s0[j]).v(), kinds@.len()),
                    forall|j: int|
                        0 <= j < i ==> (#[trigger] stages@[j]).v() == fold_stage(
                            s0[j].v(),
                            a.v(),
                            kinds@,
                        ),
                    forall|j: int| i <= j < s0.len() ==> #[trigger] stages@[j] == s0[j],
                decreases stages.len() - i,
            {
                assert(stage_wf(s0[i as int].v(), kinds@.len()));
                if leg_counts(&stages[i], &read, kinds, Ghost(a.v())) {
                    fold_leg(&mut stages[i]);
                }
                i = i + 1;
            }
            assert(stages_v(stages@) =~= stages_v(s0).map_values(
                |x: StageV| fold_stage(x, a.v(), kinds@),
            ));
        },
    }
}

/// What is bound before an optional match.
pub struct BoundV {
    pub vars: Seq<Seq<char>>,
    pub kinds: Seq<VarKind>,
    pub labels: Map<Seq<char>, Seq<Seq<char>>>,
}

/// A condition as one filter.
pub open spec fn one_where(w: Option<ExprV>, vars: Seq<Seq<char>>) -> Option<Option<WhereV>> {
    match w {
        None => Some(None),
        Some(w) => match where_pred(w, vars) {
            Some(p) => Some(Some(p)),
            None => None,
        },
    }
}

/// A condition as one filter.
pub fn single_where(w: &Option<Expr>, vars: &Vec<String>) -> (r: Option<Option<WherePred>>)
    ensures
        match r {
            Some(p) => one_where(ast::opt_v(*w), names::of(vars@)) == Some(where_v(p)),
            None => one_where(ast::opt_v(*w), names::of(vars@)) is None,
        },
{
    match w {
        None => Some(None),
        Some(e) => match recognise_single_var_where(e, vars) {
            Some(p) => Some(Some(p)),
            None => None,
        },
    }
}

/// Whether a variable was bound by an earlier optional match.
pub open spec fn earlier(v: int, outer: int, before: int) -> bool {
    outer <= v < before
}

/// Whether a name is that of a variable bound by an earlier optional match.
pub open spec fn names_earlier(x: Seq<char>, vars: Seq<Seq<char>>, outer: int, before: int) -> bool {
    match names::position(vars, x) {
        Some(v) => earlier(v, outer, before),
        None => false,
    }
}

/// Whether a step reads a variable bound by an earlier optional match.
pub open spec fn step_earlier(h: StepHop, outer: int, before: int) -> bool {
    earlier(h.src, outer, before) || (h.tgt matches Some(t) && earlier(t, outer, before))
}

/// Whether a condition reads a variable bound by an earlier optional match.
pub open spec fn where_earlier(w: WhereV, vars: Seq<Seq<char>>, outer: int, before: int) -> bool {
    ||| names_earlier(w.var, vars, outer, before)
    ||| w.id_other is Some && names_earlier((w.id_other->0).0, vars, outer, before)
    ||| w.edge is Some && (names_earlier((w.edge->0).src, vars, outer, before) || names_earlier(
        (w.edge->0).dst,
        vars,
        outer,
        before,
    ))
}

/// What a pattern of an optional match may use.
pub open spec fn plain_allow() -> Allow {
    Allow { hopless: false, start: false, node: false }
}

/// An optional match after `outer` variables that are never null, and what is
/// bound after it.
pub open spec fn stage_of(pattern: PatternV, w: Option<ExprV>, b: BoundV, outer: int) -> Option<
    (StageV, BoundV),
> {
    let before = b.vars.len() as int;
    match bound_hops(pattern, b.vars, b.kinds, b.labels, plain_allow()) {
        None => None,
        Some(h) => if has_varlen(h.hops) || exists|i: int|
            0 <= i < h.hops.len() && step_earlier(#[trigger] h.hops[i], outer, before) {
            None
        } else {
            match one_where(w, h.vars) {
                None => None,
                Some(p) => if p is Some && where_earlier(p->0, h.vars, outer, before) {
                    None
                } else {
                    Some(
                        (
                            StageV {
                                hops: h.hops,
                                where_: p,
                                outer_len: before,
                                vars_after: h.vars.len() as int,
                            },
                            BoundV { vars: h.vars, kinds: h.kinds, labels: h.labels },
                        ),
                    )
                },
            }
        },
    }
}

/// The first `n` optional matches of a query, the steps of all of them, and
/// what is bound after them.
pub open spec fn stages_of(q: Seq<ClauseV>, n: nat, b: BoundV, hops: Seq<StepHop>) -> Option<
    (Seq<StageV>, Seq<StepHop>, BoundV),
>
    decreases n,
{
    if n == 0 {
        Some((Seq::empty(), hops, b))
    } else {
        match (stages_of(q, (n - 1) as nat, b, hops), q[n as int]) {
            (
                Some((stages, all, mid)),
                ClauseV::Match { optional, pattern, where_ },
            ) => match stage_of(pattern, where_, mid, b.vars.len() as int) {
                Some((s, after)) => Some((stages.push(s), all + s.hops, after)),
                None => None,
            },
            _ => None,
        }
    }
}

/// How many optional matches follow one another.
pub open spec fn opt_run(q: Seq<ClauseV>, from: int) -> nat
    decreases q.len() - from,
{
    if 0 <= from < q.len() && (q[from] matches ClauseV::Match { optional: true, .. }) {
        1 + opt_run(q, from + 1)
    } else {
        0
    }
}

/// The tail over the rows of optional matches.
pub open spec fn tail_of(rest: Seq<ClauseV>, chain: ChainV, outer: int) -> Option<TailV> {
    if rest.len() == 1 {
        match rest[0] {
            ClauseV::Return { proj } => if query::any_aggregate(proj.items) {
                match aggregate_plan(chain, proj, None) {
                    Some(a) => if agg_nulls(a, outer) {
                        Some(TailV::Agg(a))
                    } else {
                        None
                    },
                    None => None,
                }
            } else {
                match core_plan(chain, proj) {
                    Some(c) => if core_nulls(c, outer) {
                        Some(TailV::Core(c))
                    } else {
                        None
                    },
                    None => None,
                }
            },
            _ => None,
        }
    } else if rest.len() == 2 {
        match (rest[0], rest[1]) {
            (
                ClauseV::With { proj, where_ },
                ClauseV::Return { proj: rp },
            ) => match aggregate_plan(chain, proj, Some((where_, rp))) {
                Some(a) => if agg_nulls(a, outer) {
                    Some(TailV::Agg(a))
                } else {
                    None
                },
                None => None,
            },
            _ => None,
        }
    } else {
        None
    }
}

/// What the outer pattern may use.
pub open spec fn outer_allow() -> Allow {
    Allow { hopless: true, start: false, node: false }
}

/// The match and optional matches that a query is.
pub open spec fn optional_of(q: Seq<ClauseV>, on: bool) -> Option<OptionalV> {
    if q.len() == 0 {
        None
    } else {
        match q[0] {
            ClauseV::Match { optional: false, pattern, where_ } => {
                let n = opt_run(q, 1);
                match scan_hops(pattern, outer_allow()) {
                    None => None,
                    Some(h) => {
                        let b = BoundV { vars: h.vars, kinds: h.kinds, labels: h.labels };
                        match (one_where(where_, h.vars), stages_of(q, n, b, h.hops)) {
                            (Some(outer_where), Some((stages, all, after))) => {
                                let chain = ChainV {
                                    a_labels: h.a_labels,
                                    a_var: h.a_var,
                                    hops: all,
                                    vars: after.vars,
                                    kinds: after.kinds,
                                    wheres: Seq::empty(),
                                    start_anchor: None,
                                };
                                match tail_of(q.skip(n as int + 1), chain, h.vars.len() as int) {
                                    Some(tail) => if n == 0 || has_varlen(h.hops) {
                                        None
                                    } else {
                                        Some(
                                            OptionalV {
                                                outer_a_labels: h.a_labels,
                                                outer_a_var: h.a_var,
                                                outer_hops: h.hops,
                                                outer_vars: h.vars,
                                                outer_where,
                                                stages: fold_stages(
                                                    stages,
                                                    tail,
                                                    after.kinds,
                                                    on,
                                                ),
                                                combined_vars: after.vars,
                                                combined_kinds: after.kinds,
                                                tail,
                                            },
                                        )
                                    },
                                    None => None,
                                }
                            },
                            _ => None,
                        }
                    },
                }
            },
            _ => None,
        }
    }
}

fn count_optional(q: &SingleQuery) -> (n: usize)
    ensures
        n == opt_run(q.v(), 1),
        q.clauses@.len() > 0 ==> n + 1 <= q.clauses@.len(),
        forall|i: int| 1 <= i <= n ==> (#[trigger] q.v()[i]) is Match,
{
    let ghost qv = q.v();
    let mut n: usize = 0;
    if q.clauses.len() == 0 {
        return 0;
    }
    while n < q.clauses.len() - 1
        invariant
            qv == q.v(),
            q.clauses@.len() > 0,
            n + 1 <= q.clauses@.len(),
            opt_run(qv, 1) == n + opt_run(qv, 1 + n),
            forall|i: int| 1 <= i <= n ==> (#[trigger] qv[i]) is Match,
        decreases q.clauses.len() - n,
    {
        assert(qv[1 + n] == q.clauses@[1 + n].v());
        match &q.clauses[1 + n] {
            Clause::Match { optional: true, .. } => {},
            _ => {
                return n;
            },
        }
        n = n + 1;
    }
    n
}

fn is_earlier(x: &String, vars: &Vec<String>, outer: usize, before: usize) -> (b: bool)
    ensures
        b == names_earlier(x@, names::of(vars@), outer as int, before as int),
{
    match name_index(vars, x) {
        Some(v) => outer <= v && v < before,
        None => false,
    }
}

fn steps_earlier(hops: &Vec<Hop>, outer: usize, before: usize) -> (b: bool)
    ensures
        b == (exists|i: int|
            0 <= i < hops@.len() && step_earlier(
                #[trigger] hop::steps_v(hops@)[i],
                outer as int,
                before as int,
            )),
{
    let mut i: usize = 0;
    while i < hops.len()
        invariant
            i <= hops@.len(),
            forall|j: int|
                0 <= j < i ==> !step_earlier(
                    #[trigger] hop::steps_v(hops@)[j],
                    outer as int,
                    before as int,
                ),
        decreases hops.len() - i,
    {
        assert(hop::steps_v(hops@)[i as int] == hops@[i as int].v());
        let s: usize = hops[i].src;
        let close = match hops[i].tgt {
            Some(t) => outer <= t && t < before,
            None => false,
        };
        if (outer <= s && s < before) || close {
            return true;
        }
        i = i + 1;
    }
    false
}

fn cond_earlier(w: &WherePred, vars: &Vec<String>, outer: usize, before: usize) -> (b: bool)
    ensures
        b == where_earlier(w.v(), names::of(vars@), outer as int, before as int),
{
    if is_earlier(&w.var, vars, outer, before) {
        return true;
    }
    match &w.id_other {
        Some((o, _)) => {
            if is_earlier(o, vars, outer, before) {
                return true;
            }
        },
        None => {},
    }
    match &w.edge {
        Some(e) => is_earlier(&e.src, vars, outer, before) || is_earlier(
            &e.dst,
            vars,
            outer,
            before,
        ),
        None => false,
    }
}

/// Whether any step is of variable length.
pub fn steps_have_varlen(hops: &Vec<Hop>) -> (b: bool)
    ensures
        b == has_varlen(hop::steps_v(hops@)),
{
    let b = hops_have_varlen(hops);
    proof {
        if b {
            let k = choose|k: int| 0 <= k < hops@.len() && (#[trigger] hops@[k]).varlen is Some;
            assert(hop::steps_v(hops@)[k].varlen is Some);
        } else {
            assert forall|k: int| 0 <= k < hops@.len() implies (#[trigger] hop::steps_v(
                hops@,
            )[k]).varlen is None by {
                assert(hops@[k].varlen is None);
            }
        }
    }
    b
}

fn recognise_stage(
    pattern: &Pattern,
    w: &Option<Expr>,
    pre: &Prebound,
    outer: usize,
) -> (r: Option<(OptionalStage, Prebound)>)
    requires
        pre.kinds@.len() == pre.vars@.len(),
    ensures
        ({
            let b = BoundV {
                vars: names::of(pre.vars@),
                kinds: pre.kinds@,
                labels: pre.labels.v(),
            };
            match r {
                Some((s, after)) => {
                    &&& stage_of(pattern.v(), ast::opt_v(*w), b, outer as int) == Some(
                        (
                            s.v(),
                            BoundV {
                                vars: names::of(after.vars@),
                                kinds: after.kinds@,
                                labels: after.labels.v(),
                            },
                        ),
                    )
                    &&& after.kinds@.len() == after.vars@.len()
                    &&& after.vars@.len() >= pre.vars@.len()
                    &&& stage_wf(s.v(), after.vars@.len())
                },
                None => stage_of(pattern.v(), ast::opt_v(*w), b, outer as int) is None,
            }
        }),
{
    let before: usize = pre.vars.len();
    let h = match collect_hops(
        pattern,
        Some(pre),
        Allow { hopless: false, start: false, node: false },
    ) {
        Some(h) => h,
        None => {
            return None;
        },
    };
    proof {
        aggregate::lemma_pattern_fits(*pattern);
        aggregate::law_bound_steps_are_bound(
            pattern.v(),
            names::of(pre.vars@),
            pre.kinds@,
            pre.labels.v(),
            plain_allow(),
        );
        assert forall|i: int| 0 <= i < h.v().hops.len() implies ((
        #[trigger] h.v().hops[i]).end_vi matches Some(e) ==> h.v().hops[i].src < e) by {
            assert(step_wf(h.v().hops[i], h.v().vars.len()));
        }
    }
    if steps_have_varlen(&h.hops) || steps_earlier(&h.hops, outer, before) {
        return None;
    }
    let p = match single_where(w, &h.vars) {
        Some(p) => p,
        None => {
            return None;
        },
    };
    match &p {
        Some(c) => {
            if cond_earlier(c, &h.vars, outer, before) {
                return None;
            }
        },
        None => {},
    }
    let after: usize = h.vars.len();
    Some(
        (
            OptionalStage { hops: h.hops, where_: p, outer_len: before, vars_after: after },
            Prebound { vars: h.vars, kinds: h.kinds, labels: h.labels },
        ),
    )
}

proof fn lemma_stages_none(q: Seq<ClauseV>, n: nat, m: nat, b: BoundV, hops: Seq<StepHop>)
    requires
        n <= m,
        stages_of(q, n, b, hops) is None,
    ensures
        stages_of(q, m, b, hops) is None,
    decreases m - n,
{
    if n < m {
        lemma_stages_none(q, n, (m - 1) as nat, b, hops);
    }
}

/// Optional matches, the steps of all of them, and what is bound after them.
struct Stages {
    stages: Vec<OptionalStage>,
    all: Vec<Hop>,
    bound: Prebound,
}

fn append_hops(all: &mut Vec<Hop>, hops: &Vec<Hop>)
    ensures
        hop::steps_v(final(all)@) == hop::steps_v(old(all)@) + hop::steps_v(hops@),
{
    let ghost a0 = hop::steps_v(all@);
    let ghost hs = hop::steps_v(hops@);
    let mut i: usize = 0;
    assert(hs.take(0) =~= Seq::empty());
    assert(a0 + Seq::empty() =~= a0);
    while i < hops.len()
        invariant
            i <= hops@.len(),
            hs == hop::steps_v(hops@),
            hop::steps_v(all@) == a0 + hs.take(i as int),
        decreases hops.len() - i,
    {
        let ghost b4 = all@;
        let h = hops[i].copy();
        all.push(h);
        proof {
            seqs::lemma_take_last(hs, i as int);
            assert(hs[i as int] == hops@[i as int].v());
            assert(hop::steps_v(all@) =~= hop::steps_v(b4).push(h.v()));
            assert(a0 + hs.take(i as int).push(h.v()) =~= (a0 + hs.take(i as int)).push(h.v()));
        }
        i = i + 1;
    }
    assert(hs.take(i as int) =~= hs);
}

fn recognise_stages(q: &SingleQuery, n: usize, outer: &chain::Hops) -> (r: Option<Stages>)
    requires
        n + 1 <= q.clauses@.len(),
        outer.kinds@.len() == outer.vars@.len(),
    ensures
        ({
            let b = BoundV {
                vars: names::of(outer.vars@),
                kinds: outer.kinds@,
                labels: outer.labels.v(),
            };
            let spec_r = stages_of(q.v(), n as nat, b, hop::steps_v(outer.hops@));
            match r {
                Some(s) => {
                    &&& spec_r == Some(
                        (
                            stages_v(s.stages@),
                            hop::steps_v(s.all@),
                            BoundV {
                                vars: names::of(s.bound.vars@),
                                kinds: s.bound.kinds@,
                                labels: s.bound.labels.v(),
                            },
                        ),
                    )
                    &&& s.bound.kinds@.len() == s.bound.vars@.len()
                    &&& s.bound.vars@.len() >= outer.vars@.len()
                    &&& forall|i: int|
                        0 <= i < s.stages@.len() ==> stage_wf(
                            (#[trigger] s.stages@[i]).v(),
                            s.bound.vars@.len(),
                        )
                },
                None => spec_r is None,
            }
        }),
{
    let ghost b0 = BoundV {
        vars: names::of(outer.vars@),
        kinds: outer.kinds@,
        labels: outer.labels.v(),
    };
    let ghost h0 = hop::steps_v(outer.hops@);
    let mut stages: Vec<OptionalStage> = Vec::new();
    let mut all: Vec<Hop> = copy_all(&outer.hops);
    let mut bound = Prebound {
        vars: copy_names(&outer.vars),
        kinds: crate::chunk::copy_kinds(&outer.kinds),
        labels: outer.labels.copy(),
    };
    let m: usize = outer.vars.len();
    let mut i: usize = 0;
    assert(stages_v(stages@) =~= Seq::empty());
    while i < n
        invariant
            i <= n,
            n + 1 <= q.clauses@.len(),
            m == outer.vars@.len(),
            b0 == (BoundV {
                vars: names::of(outer.vars@),
                kinds: outer.kinds@,
                labels: outer.labels.v(),
            }),
            h0 == hop::steps_v(outer.hops@),
            stages_of(q.v(), i as nat, b0, h0) == Some(
                (
                    stages_v(stages@),
                    hop::steps_v(all@),
                    BoundV {
                        vars: names::of(bound.vars@),
                        kinds: bound.kinds@,
                        labels: bound.labels.v(),
                    },
                ),
            ),
            bound.kinds@.len() == bound.vars@.len(),
            bound.vars@.len() >= m,
            forall|j: int|
                0 <= j < stages@.len() ==> stage_wf(
                    (#[trigger] stages@[j]).v(),
                    bound.vars@.len(),
                ),
        decreases n - i,
    {
        assert(q.v()[i + 1] == q.clauses@[i + 1].v());
        let ghost s0 = stages@;
        let next = match &q.clauses[i + 1] {
            Clause::Match { optional, pattern, where_ } => recognise_stage(
                pattern,
                where_,
                &bound,
                m,
            ),
            _ => None,
        };
        match next {
            None => {
                proof {
                    lemma_stages_none(q.v(), (i + 1) as nat, n as nat, b0, h0);
                }
                return None;
            },
            Some((s, after)) => {
                append_hops(&mut all, &s.hops);
                stages.push(s);
                bound = after;
                assert(stages_v(stages@) =~= stages_v(s0).push(s.v()));
            },
        }
        i = i + 1;
    }
    Some(Stages { stages, all, bound })
}

fn checked_agg(a: Option<AggPlan>, outer: usize) -> (r: Option<OptionalTail>)
    requires
        a matches Some(p) ==> readset::tail_wf(p.v()) && outer <= p.chain.vars@.len(),
    ensures
        match a {
            Some(p) => if agg_nulls(p.v(), outer as int) {
                r == Some(OptionalTail::Agg(p))
            } else {
                r is None
            },
            None => r is None,
        },
{
    match a {
        Some(p) => {
            if nullable_agg_ok(&p, outer) {
                Some(OptionalTail::Agg(p))
            } else {
                None
            }
        },
        None => None,
    }
}

fn recognise_tail(q: &SingleQuery, from: usize, chain: Chain, outer: usize) -> (r: Option<
    OptionalTail,
>)
    requires
        from <= q.clauses@.len(),
        outer <= chain.vars@.len(),
    ensures
        match r {
            Some(t) => {
                &&& tail_of(q.v().skip(from as int), chain.v(), outer as int) == Some(t.v())
                &&& (t matches OptionalTail::Agg(a) ==> readset::tail_wf(a.v())
                    && a.v().chain == chain.v())
            },
            None => tail_of(q.v().skip(from as int), chain.v(), outer as int) is None,
        },
{
    let ghost rest = q.v().skip(from as int);
    let n: usize = q.clauses.len() - from;
    assert(rest.len() == n);
    assert(chain.vars@.len() == chain.vars.len());
    let ghost cv = chain.v();
    if n == 1 {
        assert(rest[0] == q.clauses@[from as int].v());
        match &q.clauses[from] {
            Clause::Return { proj } => {
                if items_aggregate(proj) {
                    proof {
                        aggregate::lemma_agg_wf(cv, proj.v(), None);
                    }
                    checked_agg(aggregate_over_chain(chain, proj, None), outer)
                } else {
                    match core_over_chain(chain, proj) {
                        Some(c) => {
                            if nullable_core_ok(&c, outer) {
                                Some(OptionalTail::Core(c))
                            } else {
                                None
                            }
                        },
                        None => None,
                    }
                }
            },
            _ => None,
        }
    } else if n == 2 {
        assert(rest[0] == q.clauses@[from as int].v());
        assert(rest[1] == q.clauses@[from + 1].v());
        match (&q.clauses[from], &q.clauses[from + 1]) {
            (Clause::With { proj, where_ }, Clause::Return { proj: rp }) => {
                proof {
                    aggregate::lemma_agg_wf(cv, proj.v(), Some((ast::opt_v(*where_), rp.v())));
                }
                checked_agg(
                    aggregate_over_chain(chain, proj, Some((ast::as_opt(where_), rp))),
                    outer,
                )
            },
            _ => None,
        }
    } else {
        None
    }
}

/// A plan of optional matches that may be missing.
pub open spec fn optional_opt(p: Option<OptionalPlan>) -> Option<OptionalV> {
    match p {
        Some(p) => Some(p.v()),
        None => None,
    }
}

/// The match and optional matches that a query is. A later optional match may
/// not read what an earlier one binds, and the tail reads what any of them
/// binds only where a null is right.
pub fn recognise_optional(q: &SingleQuery, levers: &Levers) -> (r: Option<OptionalPlan>)
    ensures
        optional_opt(r) == optional_of(q.v(), levers::count_fold_on(*levers)),
{
    if q.clauses.len() == 0 {
        return None;
    }
    assert(q.v()[0] == q.clauses@[0].v());
    let (pattern, where_) = match &q.clauses[0] {
        Clause::Match { optional: false, pattern, where_ } => (pattern, where_),
        _ => {
            return None;
        },
    };
    let n = count_optional(q);
    if n == 0 {
        return None;
    }
    let h = match collect_hops(pattern, None, Allow { hopless: true, start: false, node: false }) {
        Some(h) => h,
        None => {
            return None;
        },
    };
    proof {
        aggregate::lemma_pattern_fits(*pattern);
        aggregate::law_steps_are_bound(pattern.v(), outer_allow());
    }
    let outer_where = match single_where(where_, &h.vars) {
        Some(w) => w,
        None => {
            return None;
        },
    };
    if steps_have_varlen(&h.hops) {
        return None;
    }
    let s = match recognise_stages(q, n, &h) {
        Some(s) => s,
        None => {
            return None;
        },
    };
    let m: usize = h.vars.len();
    let wheres: Vec<WherePred> = Vec::new();
    assert(preds::wheres_v(wheres@) =~= Seq::empty());
    let chain = Chain {
        a_labels: copy_names(&h.a_labels),
        a_var: h.a_var.clone(),
        hops: s.all,
        vars: copy_names(&s.bound.vars),
        kinds: crate::chunk::copy_kinds(&s.bound.kinds),
        wheres,
        start_anchor: None,
    };
    let tail = match recognise_tail(q, n + 1, chain, m) {
        Some(t) => t,
        None => {
            return None;
        },
    };
    let mut stages = s.stages;
    plan_optional_fold(&mut stages, &tail, &s.bound.kinds, levers);
    Some(
        OptionalPlan {
            outer_a_labels: h.a_labels,
            outer_a_var: h.a_var,
            outer_hops: h.hops,
            outer_vars: h.vars,
            outer_where,
            stages,
            combined_vars: s.bound.vars,
            combined_kinds: s.bound.kinds,
            tail,
        },
    )
}

} // verus!
