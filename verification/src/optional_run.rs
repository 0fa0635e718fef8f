//! Running the optional matches of a query one after the other.

use vstd::prelude::*;

use crate::chain_rows;
use crate::chain_rows::look_up;
use crate::chunk::{DataChunk, HopV};
use crate::fold;
use crate::fold::FoldPlan;
use crate::fold_build;
use crate::fold_run;
use crate::graph::{Graph, RunError, VarKind};
use crate::hop;
use crate::hop::Hop;
use crate::layout;
use crate::leg_fold;
use crate::leg_fold::fold_optional_leg;
use crate::legs::OptionalStage;
use crate::names;
use crate::optional;
use crate::optional::{left_join_null_extend, StepV};
use crate::ready;
use crate::runs::{rows_of, RowsV};
use crate::seeds;
use crate::select::Filter;

verus! {

/// The steps of an optional match on a graph.
pub open spec fn leg_on(g: Graph, hops: Seq<Hop>) -> Seq<StepV> {
    Seq::new(
        hops.len(),
        |i: int|
            StepV {
                h: HopV {
                    src: hops[i].src as int,
                    dir: hops[i].dir,
                    tokens: g.type_tokens(names::of(hops[i].types@)),
                    members: if hops[i].tgt is None {
                        seeds::end_members(g, names::of(hops[i].labels@))
                    } else {
                        None
                    },
                    track: hops[i].track,
                    reset: i == 0 || hops[i].reset,
                    rel_col: hops[i].rel_var is Some,
                },
                tgt: fold::opt_int(hops[i].tgt),
            },
    )
}

/// Whether an optional match is counted.
pub open spec fn is_counted(s: OptionalStage) -> bool {
    s.hops@.len() > 0 && s.hops@[0].fold
}

/// An optional match can run after variables, of which there are `total` at the
/// end; one that is counted has no condition.
pub open spec fn leg_fits(
    s: OptionalStage,
    f: Option<Filter>,
    vars: Seq<Seq<char>>,
    total: nat,
) -> bool {
    let ss = hop::steps_v(s.hops@);
    &&& vars.len() > 0
    &&& s.vars_after == layout::width_at(ss, vars.len(), ss.len() as int)
    &&& s.vars_after <= total
    &&& if is_counted(s) {
        layout::leg_counted(ss, vars.len()) && f is None
    } else {
        layout::leg_plain(ss, vars.len()) && (f matches Some(x) ==> x.bound(
            optional::leg_vars(s.hops@, s.hops@.len(), vars),
        ))
    }
}

/// What an optional match makes of rows.
pub enum Extended {
    At(RowsV),
    /// The condition cannot be answered on the rows.
    Decline,
    OverBudget,
    Overflow,
}

/// Whether a condition that may be missing holds.
pub open spec fn holds_on(
    g: Graph,
    f: Option<Filter>,
    vars: Seq<Seq<char>>,
) -> spec_fn(Seq<u64>) -> bool {
    |ids: Seq<u64>| f matches Some(p) ==> p.holds(g, vars, ids)
}

/// What an optional match makes of rows: each keeps its matches, or itself
/// without any; when it is counted, each stands for as many.
#[verifier::opaque]
pub open spec fn extended(
    g: Graph,
    s: OptionalStage,
    f: Option<Filter>,
    vars: Seq<Seq<char>>,
    kinds: Seq<VarKind>,
    r: RowsV,
) -> Extended {
    let hops = s.hops@;
    let width = s.vars_after as nat;
    let after = |rows| RowsV { rows, vars: vars.take(width as int), kinds: kinds.take(width as int) };
    if is_counted(s) {
        let p = chain_rows::count_view(g, hops, fold_build::fold_width(hops, width as int));
        match leg_fold::leg_rows(p, width, r.rows) {
            Some(rows) => Extended::At(after(rows)),
            None => Extended::Overflow,
        }
    } else {
        let ss = leg_on(g, hops);
        let bound = optional::leg_vars(hops, hops.len(), r.vars);
        let made = optional::leg_kinds(hops, hops.len(), r.kinds);
        if !optional::steps_fit(g, ss, ss.len(), r.rows) {
            Extended::OverBudget
        } else if f matches Some(x) && !x.answers(
            bound,
            made,
            optional::steps_rows(g, ss, ss.len(), r.rows),
        ) {
            Extended::Decline
        } else {
            Extended::At(
                after(
                    optional::left_join_rows(g, ss, holds_on(g, f, bound), width, r.rows),
                ),
            )
        }
    }
}

/// What an optional match makes of rows, as a result.
pub open spec fn extended_as(x: Extended, r: Result<Option<DataChunk>, RunError>) -> bool {
    match x {
        Extended::At(rows) => r matches Ok(Some(c)) && c.wf() && c.selection@.no_duplicates()
            && rows_of(c) == rows,
        Extended::Decline => r matches Ok(None),
        Extended::OverBudget => r matches Err(e) && e == RunError::RowBudget,
        Extended::Overflow => r matches Err(e) && fold_run::is_overflow(e),
    }
}

fn first_names(v: &Vec<String>, n: usize) -> (r: Vec<String>)
    requires
        n <= v@.len(),
    ensures
        names::of(r@) == names::of(v@).take(n as int),
{
    let mut r: Vec<String> = Vec::new();
    let mut i: usize = 0;
    while i < n
        invariant
            i <= n <= v@.len(),
            names::of(r@) == names::of(v@).take(i as int),
        decreases n - i,
    {
        let ghost r0 = r@;
        r.push(v[i].clone());
        proof {
            assert(names::of(r@) =~= names::of(r0).push(v@[i as int]@));
            assert(names::of(v@).take(i + 1) =~= names::of(v@).take(i as int).push(v@[i as int]@));
        }
        i = i + 1;
    }
    r
}

fn first_kinds(v: &Vec<VarKind>, n: usize) -> (r: Vec<VarKind>)
    requires
        n <= v@.len(),
    ensures
        r@ == v@.take(n as int),
{
    let mut r: Vec<VarKind> = Vec::new();
    let mut i: usize = 0;
    while i < n
        invariant
            i <= n <= v@.len(),
            r@ == v@.take(i as int),
        decreases n - i,
    {
        r.push(v[i]);
        proof {
            assert(v@.take(i + 1) =~= v@.take(i as int).push(v@[i as int]));
        }
        i = i + 1;
    }
    r
}

proof fn lemma_leg_width(ss: Seq<StepV>, hops: Seq<Hop>, n: nat, k: nat)
    requires
        ss.len() == hops.len(),
        k <= hops.len(),
        forall|i: int|
            0 <= i < hops.len() ==> (#[trigger] ss[i]).tgt == fold::opt_int(hops[i].tgt)
                && ss[i].h.rel_col == (hops[i].rel_var is Some),
        forall|i: int| 0 <= i < hops.len() ==> (#[trigger] hops[i]).varlen is None,
    ensures
        optional::width_after(ss, k, n) == layout::width_at(hop::steps_v(hops), n, k as int),
    decreases k,
{
    if k > 0 {
        lemma_leg_width(ss, hops, n, (k - 1) as nat);
        assert(hop::steps_v(hops)[k - 1] == hops[k - 1].v());
        assert(ss[k - 1].tgt == fold::opt_int(hops[k - 1].tgt));
        assert(hops[k - 1].varlen is None);
    }
}

fn extend_counted(
    g: &Graph,
    outer: &DataChunk,
    s: &OptionalStage,
    vars: &Vec<String>,
    kinds: &Vec<VarKind>,
    memo_on: bool,
) -> (r: Result<Option<DataChunk>, RunError>)
    requires
        g.wf(),
        outer.wf(),
        is_counted(*s),
        leg_fits(*s, None, names::of(outer.vars@), vars@.len()),
        kinds@.len() == vars@.len(),
    ensures
        extended_as(
            extended(*g, *s, None, names::of(vars@), kinds@, rows_of(*outer)),
            r,
        ),
{
    reveal(extended);
    let look = look_up(g, &s.hops);
    let ghost n = outer.ids@.len();
    let ghost hops = s.hops@;
    let ghost width = fold_build::fold_width(hops, s.vars_after as int);
    proof {
        assert(names::of(outer.vars@).len() == n);
        assert(names::of(vars@).len() == vars@.len());
        assert(hop::steps_v(hops).len() == hops.len());
        fold_build::lemma_width_min(hops, s.vars_after as int);
        layout::lemma_width(hop::steps_v(hops), n, 0, hops.len() as int);
        ready::law_counted_leg_runs(
            *g,
            hops,
            look.members@,
            look.tokens@,
            n,
            width,
        );
    }
    let plan = FoldPlan::new(g, &s.hops, &look.members, &look.tokens, s.vars_after, None, memo_on);
    let ghost p = chain_rows::count_view(*g, hops, width);
    proof {
        assert forall|i: int| 0 <= i < hops.len() implies plan.view().hops[i] == p.hops[i] by {
            assert(fold::own_members(look.members@[i]) == seeds::end_members(
                *g,
                names::of(hops[i].labels@),
            ));
        }
        assert(plan.view().hops =~= p.hops);
        assert(plan.view() == p);
    }
    let vs = first_names(vars, s.vars_after);
    let ks = first_kinds(kinds, s.vars_after);
    assert(names::of(vs@).len() == vs@.len());
    match fold_optional_leg(outer, &plan, vs, ks) {
        Ok(c) => {
            proof {
                chain_rows::lemma_dense_distinct(c);
            }
            Ok(Some(c))
        },
        Err(e) => Err(e),
    }
}

fn extend_plain(
    g: &Graph,
    outer: DataChunk,
    s: &OptionalStage,
    f: &Option<Filter>,
    vars: &Vec<String>,
    kinds: &Vec<VarKind>,
) -> (r: Result<Option<DataChunk>, RunError>)
    requires
        g.wf(),
        outer.wf(),
        outer.selection@.no_duplicates(),
        !is_counted(*s),
        leg_fits(*s, *f, names::of(outer.vars@), vars@.len()),
        kinds@.len() == vars@.len(),
    ensures
        extended_as(extended(*g, *s, *f, names::of(vars@), kinds@, rows_of(outer)), r),
{
    reveal(extended);
    let look = look_up(g, &s.hops);
    let ghost n = outer.ids@.len();
    let ghost hops = s.hops@;
    let ghost ss = optional::leg_steps(hops, look.tokens@, look.members@);
    let ghost names0 = names::of(outer.vars@);
    let ghost x = rows_of(outer);
    let ghost bound = optional::leg_vars(hops, hops.len(), names0);
    proof {
        assert(names0.len() == n);
        assert(names::of(vars@).len() == vars@.len());
        assert(hop::steps_v(hops).len() == hops.len());
        assert forall|i: int| 0 <= i < hops.len() implies (#[trigger] hops[i]).varlen is None by {
            assert(hop::steps_v(hops)[i] == hops[i].v());
        }
        assert forall|i: int| 0 <= i < hops.len() implies ss[i] == leg_on(*g, hops)[i] by {
            assert(fold::own_members(look.members@[i]) == seeds::end_members(
                *g,
                names::of(hops[i].labels@),
            ));
        }
        assert(ss =~= leg_on(*g, hops));
        lemma_leg_width(ss, hops, n, hops.len());
        assert forall|i: int| 0 <= i < ss.len() implies {
            let s = #[trigger] ss[i];
            &&& 0 <= s.h.src < optional::width_after(ss, i as nat, n)
            &&& s.tgt matches Some(t) ==> 0 <= t < optional::width_after(ss, i as nat, n)
        } by {
            lemma_leg_width(ss, hops, n, i as nat);
            assert(hop::steps_v(hops)[i] == hops[i].v());
            assert(layout::step_laid(hop::steps_v(hops), n, i));
        }
    }
    let vs = first_names(vars, s.vars_after);
    let ks = first_kinds(kinds, s.vars_after);
    let filter: Option<&Filter> = match f {
        Some(x) => Some(x),
        None => None,
    };
    proof {
        assert(names::of(vs@).len() == vs@.len());
        assert(optional::passes(*g, filter, bound) =~= holds_on(*g, *f, bound));
    }
    let r = left_join_null_extend(
        g,
        outer,
        &s.hops,
        &look.tokens,
        &look.members,
        filter,
        &vs,
        &ks,
    );
    proof {
        if r is Ok && r->Ok_0 is Some {
            chain_rows::lemma_dense_distinct(r->Ok_0->0);
        }
    }
    r
}

proof fn lemma_extended_vars(
    g: Graph,
    s: OptionalStage,
    f: Option<Filter>,
    vars: Seq<Seq<char>>,
    kinds: Seq<VarKind>,
    r: RowsV,
)
    ensures
        extended(g, s, f, vars, kinds, r) matches Extended::At(x) ==> x.vars == vars.take(
            s.vars_after as int,
        ),
{
    reveal(extended);
}

/// What the first `n` optional matches make of rows.
pub open spec fn all_extended(
    g: Graph,
    ss: Seq<OptionalStage>,
    fs: Seq<Option<Filter>>,
    vars: Seq<Seq<char>>,
    kinds: Seq<VarKind>,
    r: RowsV,
    n: nat,
) -> Extended
    decreases n,
{
    if n == 0 {
        Extended::At(r)
    } else {
        match all_extended(g, ss, fs, vars, kinds, r, (n - 1) as nat) {
            Extended::At(x) => extended(g, ss[n - 1], fs[n - 1], vars, kinds, x),
            x => x,
        }
    }
}

proof fn lemma_extended_stops(
    g: Graph,
    ss: Seq<OptionalStage>,
    fs: Seq<Option<Filter>>,
    vars: Seq<Seq<char>>,
    kinds: Seq<VarKind>,
    r: RowsV,
    k: nat,
    n: nat,
)
    requires
        k <= n,
        !(all_extended(g, ss, fs, vars, kinds, r, k) is At),
    ensures
        all_extended(g, ss, fs, vars, kinds, r, n) == all_extended(g, ss, fs, vars, kinds, r, k),
    decreases n - k,
{
    if k < n {
        lemma_extended_stops(g, ss, fs, vars, kinds, r, k, (n - 1) as nat);
    }
}

/// The variables before an optional match: those of the match that all of them
/// follow, or those after the one before it.
pub open spec fn vars_before(
    ss: Seq<OptionalStage>,
    first: Seq<Seq<char>>,
    vars: Seq<Seq<char>>,
    k: int,
) -> Seq<Seq<char>> {
    if k <= 0 {
        first
    } else {
        vars.take(ss[k - 1].vars_after as int)
    }
}

/// Runs the optional matches of a query over the rows of the match before them.
pub fn run_optional(
    g: &Graph,
    outer: DataChunk,
    ss: &Vec<OptionalStage>,
    fs: &Vec<Option<Filter>>,
    vars: &Vec<String>,
    kinds: &Vec<VarKind>,
    memo_on: bool,
) -> (r: Result<Option<DataChunk>, RunError>)
    requires
        g.wf(),
        outer.wf(),
        outer.selection@.no_duplicates(),
        fs@.len() == ss@.len(),
        kinds@.len() == vars@.len(),
        forall|k: int|
            0 <= k < ss@.len() ==> leg_fits(
                #[trigger] ss@[k],
                fs@[k],
                vars_before(ss@, names::of(outer.vars@), names::of(vars@), k),
                vars@.len(),
            ),
    ensures
        extended_as(
            all_extended(
                *g,
                ss@,
                fs@,
                names::of(vars@),
                kinds@,
                rows_of(outer),
                ss@.len(),
            ),
            r,
        ),
{
    let ghost r0 = rows_of(outer);
    let ghost names0 = names::of(outer.vars@);
    let ghost vs = names::of(vars@);
    let ghost n = ss@.len();
    let mut d = outer;
    let mut k: usize = 0;
    while k < ss.len()
        invariant
            k <= ss@.len() == n,
            g.wf(),
            r0 == rows_of(outer),
            names0 == names::of(outer.vars@),
            vs == names::of(vars@),
            fs@.len() == ss@.len(),
            kinds@.len() == vars@.len(),
            forall|k: int|
                0 <= k < ss@.len() ==> leg_fits(
                    #[trigger] ss@[k],
                    fs@[k],
                    vars_before(ss@, names0, vs, k),
                    vars@.len(),
                ),
            d.wf(),
            d.selection@.no_duplicates(),
            names::of(d.vars@) == vars_before(ss@, names0, vs, k as int),
            all_extended(*g, ss@, fs@, vs, kinds@, r0, k as nat) == Extended::At(rows_of(d)),
        decreases ss.len() - k,
    {
        let s = &ss[k];
        assert(leg_fits(ss@[k as int], fs@[k as int], names::of(d.vars@), vars@.len()));
        proof {
            lemma_extended_vars(*g, *s, fs@[k as int], vs, kinds@, rows_of(d));
        }
        let counted = s.hops.len() > 0 && s.hops[0].fold;
        let e = if counted {
            extend_counted(g, &d, s, vars, kinds, memo_on)
        } else {
            extend_plain(g, d, s, &fs[k], vars, kinds)
        };
        match e {
            Ok(Some(c)) => {
                d = c;
            },
            Ok(None) => {
                proof {
                    lemma_extended_stops(*g, ss@, fs@, vs, kinds@, r0, (k + 1) as nat, n);
                }
                return Ok(None);
            },
            Err(e) => {
                proof {
                    lemma_extended_stops(*g, ss@, fs@, vs, kinds@, r0, (k + 1) as nat, n);
                }
                return Err(e);
            },
        }
        k = k + 1;
    }
    Ok(Some(d))
}

} // verus!
