//! From a pattern to the steps of a chain.

use vstd::prelude::*;

use crate::ast;
use crate::ast::{Expr, ExprV, Head, HeadV, Op};
use crate::graph::VarKind;
use crate::hop;
use crate::hop::{Hop, StepHop};
use crate::labels;
use crate::labels::LabelMap;
use crate::names;
use crate::names::{copy_names, has_name, name_index};
use crate::query;
use crate::query::{hop_dir, NodePattern, NodeV, PathPattern, PathV, Pattern, PatternV, RelPattern, RelV};
use vstd::string::StringExecFns;

verus! {

/// A decimal digit.
pub open spec fn digit(d: nat) -> Seq<char> {
    if d == 0 {
        seq!['0']
    } else if d == 1 {
        seq!['1']
    } else if d == 2 {
        seq!['2']
    } else if d == 3 {
        seq!['3']
    } else if d == 4 {
        seq!['4']
    } else if d == 5 {
        seq!['5']
    } else if d == 6 {
        seq!['6']
    } else if d == 7 {
        seq!['7']
    } else if d == 8 {
        seq!['8']
    } else {
        seq!['9']
    }
}

/// A number in decimal.
pub open spec fn decimal(n: nat) -> Seq<char>
    decreases n,
{
    if n < 10 {
        digit(n)
    } else {
        decimal(n / 10) + digit(n % 10)
    }
}

/// The name of the `n`th unnamed node.
pub open spec fn anon_name(n: nat) -> Seq<char> {
    "__pipe_anon_"@ + decimal(n)
}

fn digit_text(d: u64) -> (r: &'static str)
    requires
        d < 10,
    ensures
        r@ == digit(d as nat),
{
    proof {
        reveal_strlit("0");
        reveal_strlit("1");
        reveal_strlit("2");
        reveal_strlit("3");
        reveal_strlit("4");
        reveal_strlit("5");
        reveal_strlit("6");
        reveal_strlit("7");
        reveal_strlit("8");
        reveal_strlit("9");
    }
    let r: &'static str = match d {
        0 => "0",
        1 => "1",
        2 => "2",
        3 => "3",
        4 => "4",
        5 => "5",
        6 => "6",
        7 => "7",
        8 => "8",
        _ => "9",
    };
    assert(r@ =~= digit(d as nat));
    r
}

fn append_decimal(s: &mut String, n: u64)
    ensures
        final(s)@ == old(s)@ + decimal(n as nat),
    decreases n,
{
    if n >= 10 {
        append_decimal(s, n / 10);
    }
    s.append(digit_text(n % 10));
    assert(s@ =~= old(s)@ + decimal(n as nat));
}

/// The name of the `n`th unnamed node.
pub fn anon_text(n: u64) -> (r: String)
    ensures
        r@ == anon_name(n as nat),
{
    let mut s: String = "__pipe_anon_".to_owned();
    append_decimal(&mut s, n);
    s
}

/// The first number from `n` on whose name is not taken.
pub open spec fn free_anon(vars: Seq<Seq<char>>, n: nat) -> Option<nat>
    decreases u64::MAX - n,
{
    if n >= u64::MAX {
        None
    } else if vars.contains(anon_name(n)) {
        free_anon(vars, n + 1)
    } else {
        Some(n)
    }
}

fn pick_anon(vars: &Vec<String>, n: u64) -> (r: Option<(u64, String)>)
    ensures
        match r {
            Some((k, name)) => free_anon(names::of(vars@), n as nat) == Some(k as nat) && name@
                == anon_name(k as nat) && k < u64::MAX,
            None => free_anon(names::of(vars@), n as nat) is None,
        },
{
    let mut k: u64 = n;
    while k < u64::MAX
        invariant
            free_anon(names::of(vars@), n as nat) == free_anon(names::of(vars@), k as nat),
        decreases u64::MAX - k,
    {
        let name = anon_text(k);
        if !has_name(vars, &name) {
            return Some((k, name));
        }
        k = k + 1;
    }
    None
}

/// What a pattern binds and the steps that bind it.
#[derive(Debug)]
pub struct Hops {
    /// The labels of the scanned start.
    pub a_labels: Vec<String>,
    /// The variable of the scanned start.
    pub a_var: String,
    pub hops: Vec<Hop>,
    /// The variables, in the order in which they are bound.
    pub vars: Vec<String>,
    pub kinds: Vec<VarKind>,
    pub labels: LabelMap,
    /// A property equality on the scanned start.
    pub start_anchor: Option<(String, Expr)>,
    /// The property equalities on other nodes.
    pub node_anchors: Vec<Expr>,
    /// Where the search for the next unnamed node's name begins.
    pub anon: u64,
}

/// A [`Hops`].
pub struct HopsV {
    pub a_labels: Seq<Seq<char>>,
    pub a_var: Seq<char>,
    pub hops: Seq<StepHop>,
    pub vars: Seq<Seq<char>>,
    pub kinds: Seq<VarKind>,
    pub labels: Map<Seq<char>, Seq<Seq<char>>>,
    pub start_anchor: Option<(Seq<char>, ExprV)>,
    pub node_anchors: Seq<ExprV>,
    pub anon: nat,
}

/// A property and the value it must have.
pub open spec fn anchor_v(a: Option<(String, Expr)>) -> Option<(Seq<char>, ExprV)> {
    match a {
        Some((k, e)) => Some((k@, e.v())),
        None => None,
    }
}

impl Hops {
    pub open spec fn v(self) -> HopsV {
        HopsV {
            a_labels: names::of(self.a_labels@),
            a_var: self.a_var@,
            hops: hop::steps_v(self.hops@),
            vars: names::of(self.vars@),
            kinds: self.kinds@,
            labels: self.labels.v(),
            start_anchor: anchor_v(self.start_anchor),
            node_anchors: ast::exprs_v(self.node_anchors@),
            anon: self.anon as nat,
        }
    }
}

/// What a caller of [`collect_hops`] can use.
#[derive(Clone, Copy, Debug)]
pub struct Allow {
    /// A first path without a hop.
    pub hopless: bool,
    /// A property on the scanned start.
    pub start: bool,
    /// A property on another node.
    pub node: bool,
}

/// What is bound before a pattern.
#[derive(Debug)]
pub struct Prebound {
    pub vars: Vec<String>,
    pub kinds: Vec<VarKind>,
    pub labels: LabelMap,
}

/// Whether an expression is a scalar literal or a parameter.
pub open spec fn scalar(e: ExprV) -> bool {
    e.head is Int || e.head is Float || e.head is Str || e.head is Bool || e.head is Param
}

/// Whether an expression is a scalar literal or a parameter.
pub fn is_scalar_or_param(e: &Expr) -> (b: bool)
    ensures
        b == scalar(e.v()),
{
    match &e.head {
        Head::Int(_) => true,
        Head::Float(_) => true,
        Head::Str(_) => true,
        Head::Bool(_) => true,
        Head::Param(_) => true,
        _ => false,
    }
}

/// The one property that a property map fixes to a scalar.
pub open spec fn prop_anchor(props: Option<ExprV>) -> Option<(Seq<char>, ExprV)> {
    match props {
        Some(e) => match e.head {
            HeadV::MapOf(keys) => if keys.len() == 1 && e.args.len() == 1 && scalar(e.args[0]) {
                Some((keys[0], e.args[0]))
            } else {
                None
            },
            _ => None,
        },
        None => None,
    }
}

/// The one property that a property map fixes to a scalar.
pub fn start_prop_anchor(props: &Option<Expr>) -> (r: Option<(String, Expr)>)
    ensures
        anchor_v(r) == prop_anchor(ast::opt_v(*props)),
{
    match props {
        Some(e) => match &e.head {
            Head::MapOf(keys) => {
                if keys.len() == 1 && e.args.len() == 1 {
                    assert(e.v().args[0] == e.args@[0].v());
                    if is_scalar_or_param(&e.args[0]) {
                        return Some((keys[0].clone(), e.args[0].copy()));
                    }
                }
                None
            },
            _ => None,
        },
        None => None,
    }
}

/// The condition that a property has a value.
pub open spec fn anchor_eq(x: Seq<char>, a: (Seq<char>, ExprV)) -> ExprV {
    ast::bin_v(Op::Eq, ast::prop_v(ast::var_v(x), a.0), a.1)
}

/// The condition that a property has a value.
pub fn anchor_expr(x: &String, key: &String, val: &Expr) -> (e: Expr)
    ensures
        e.v() == anchor_eq(x@, (key@, val.v())),
{
    Expr::bin(Op::Eq, Expr::prop(Expr::var(x), key), val.copy())
}

/// The state before a pattern.
pub open spec fn before(
    vars: Seq<Seq<char>>,
    kinds: Seq<VarKind>,
    labels: Map<Seq<char>, Seq<Seq<char>>>,
) -> HopsV {
    HopsV {
        a_labels: Seq::empty(),
        a_var: Seq::empty(),
        hops: Seq::empty(),
        vars,
        kinds,
        labels,
        start_anchor: None,
        node_anchors: Seq::empty(),
        anon: 0,
    }
}

/// The name of a node, and the state once it is taken.
pub open spec fn node_name(st: HopsV, var: Option<Seq<char>>) -> Option<(HopsV, Seq<char>)> {
    match var {
        Some(x) => Some((st, x)),
        None => match free_anon(st.vars, st.anon) {
            Some(n) => Some((HopsV { anon: n + 1, ..st }, anon_name(n))),
            None => None,
        },
    }
}

/// The state with one more node variable.
pub open spec fn with_node(st: HopsV, x: Seq<char>, labels: Seq<Seq<char>>) -> HopsV {
    HopsV {
        vars: st.vars.push(x),
        kinds: st.kinds.push(VarKind::Node),
        labels: st.labels.insert(x, labels),
        ..st
    }
}

/// The state with a relationship variable, if there is one.
pub open spec fn with_rel(st: HopsV, rel: Option<Seq<char>>) -> HopsV {
    match rel {
        Some(x) => HopsV { vars: st.vars.push(x), kinds: st.kinds.push(VarKind::Rel), ..st },
        None => st,
    }
}

/// The state once a path's start is read, and the variable from which its
/// first hop leads. A path without a hop leads nowhere.
pub open spec fn enter_path(st: HopsV, path: PathV, fresh: bool, allow: Allow) -> Option<
    (HopsV, Option<int>),
> {
    let anchor = prop_anchor(path.start.props);
    if path.var is Some || path.shortest {
        None
    } else if path.start.var is None && !fresh {
        None
    } else if path.start.props is Some && !(allow.start && fresh && anchor is Some) {
        None
    } else if path.hops.len() == 0 && !(fresh && allow.hopless) {
        None
    } else {
        match node_name(st, path.start.var) {
            None => None,
            Some((named, x)) => {
                let st = HopsV {
                    start_anchor: if path.start.props is Some {
                        anchor
                    } else {
                        named.start_anchor
                    },
                    ..named
                };
                if fresh {
                    if path.start.labels.len() == 0 {
                        None
                    } else {
                        Some(
                            (
                                HopsV {
                                    a_labels: path.start.labels,
                                    a_var: x,
                                    ..with_node(st, x, path.start.labels)
                                },
                                if path.hops.len() == 0 {
                                    None
                                } else {
                                    Some(0int)
                                },
                            ),
                        )
                    }
                } else {
                    match names::position(st.vars, x) {
                        None => None,
                        Some(i) => if labels::all_known(st.labels, x, path.start.labels) {
                            Some((st, Some(i)))
                        } else {
                            None
                        },
                    }
                }
            },
        }
    }
}

/// Where a hop stands in its pattern.
#[derive(Clone, Copy, Debug)]
pub struct Place {
    pub paths: usize,
    pub path: usize,
    pub hops: usize,
    pub hop: usize,
}

/// The state after a hop of variable length, which leads to a new variable and
/// is the whole pattern.
pub open spec fn add_varlen(st: HopsV, at: Place, src: int, rel: RelV, node: NodeV) -> Option<
    (HopsV, int),
> {
    match (rel.length, node.var) {
        (Some(len), Some(x)) => if at.paths == 1 && at.hops == 1 && rel.var is None
            && node.props is None && (len.min is None || len.min == Some(1u64)) && len.max is Some
            && !st.vars.contains(x) {
            Some(
                (
                    HopsV {
                        hops: st.hops.push(
                            StepHop {
                                src,
                                dir: query::dir_of(rel.dir),
                                types: rel.types,
                                labels: node.labels,
                                var: x,
                                rel_var: None,
                                track: false,
                                reset: false,
                                tgt: None,
                                varlen: len.max,
                                end_vi: Some(st.vars.len() as int),
                                fold: false,
                                inline: Seq::empty(),
                            },
                        ),
                        ..with_node(st, x, node.labels)
                    },
                    src,
                ),
            )
        } else {
            None
        },
        _ => None,
    }
}

/// The step of a fixed hop to `x`, which closes onto a bound variable or binds
/// the next one.
pub open spec fn fixed_step(
    at: Place,
    src: int,
    rel: RelV,
    node: NodeV,
    x: Seq<char>,
    tgt: Option<int>,
    end_vi: Option<int>,
) -> StepHop {
    StepHop {
        src,
        dir: query::dir_of(rel.dir),
        types: rel.types,
        labels: node.labels,
        var: x,
        rel_var: rel.var,
        track: at.hops > 1,
        reset: at.path > 0 && at.hop == 0,
        tgt,
        varlen: None,
        end_vi,
        fold: false,
        inline: Seq::empty(),
    }
}

/// The state after a fixed hop, and the variable from which the next one leads.
pub open spec fn add_fixed(
    st: HopsV,
    at: Place,
    src: int,
    rel: RelV,
    node: NodeV,
    allow: Allow,
) -> Option<(HopsV, int)> {
    match node_name(st, node.var) {
        None => None,
        Some((named, x)) => {
            let anchor = prop_anchor(node.props);
            let bound = names::position(named.vars, x);
            if rel.var is Some && st.vars.contains(rel.var->0) {
                None
            } else if node.props is Some && !(allow.node && bound is None && anchor is Some) {
                None
            } else {
                let st = HopsV {
                    node_anchors: if node.props is Some {
                        named.node_anchors.push(anchor_eq(x, anchor->0))
                    } else {
                        named.node_anchors
                    },
                    ..named
                };
                match bound {
                    Some(t) => if at.hop + 1 != at.hops || !labels::all_known(
                        st.labels,
                        x,
                        node.labels,
                    ) {
                        None
                    } else {
                        Some(
                            (
                                HopsV {
                                    hops: st.hops.push(
                                        fixed_step(at, src, rel, node, x, Some(t), None),
                                    ),
                                    ..with_rel(st, rel.var)
                                },
                                src,
                            ),
                        )
                    },
                    None => {
                        let end = st.vars.len() as int;
                        Some(
                            (
                                HopsV {
                                    hops: st.hops.push(
                                        fixed_step(at, src, rel, node, x, None, Some(end)),
                                    ),
                                    ..with_rel(with_node(st, x, node.labels), rel.var)
                                },
                                end,
                            ),
                        )
                    },
                }
            }
        },
    }
}

/// The state after a hop, and the variable from which the next one leads.
pub open spec fn add_hop(
    st: HopsV,
    at: Place,
    src: int,
    rel: RelV,
    node: NodeV,
    allow: Allow,
) -> Option<(HopsV, int)> {
    if rel.props is Some || rel.types.len() == 0 {
        None
    } else if rel.length is Some {
        add_varlen(st, at, src, rel, node)
    } else {
        add_fixed(st, at, src, rel, node, allow)
    }
}

/// The state after the first `n` hops of a path.
pub open spec fn walk_hops(
    st: HopsV,
    src: int,
    path: PathV,
    paths: usize,
    pi: usize,
    n: nat,
    allow: Allow,
) -> Option<(HopsV, int)>
    decreases n,
{
    if n == 0 {
        Some((st, src))
    } else {
        match walk_hops(st, src, path, paths, pi, (n - 1) as nat, allow) {
            None => None,
            Some((mid, s)) => add_hop(
                mid,
                Place { paths, path: pi, hops: path.hops.len() as usize, hop: (n - 1) as usize },
                s,
                path.hops[n - 1].0,
                path.hops[n - 1].1,
                allow,
            ),
        }
    }
}

/// The state after a path.
pub open spec fn walk_path(
    st: HopsV,
    path: PathV,
    paths: usize,
    pi: usize,
    fresh: bool,
    allow: Allow,
) -> Option<HopsV> {
    match enter_path(st, path, fresh, allow) {
        None => None,
        Some((st, None)) => Some(st),
        Some((st, Some(src))) => match walk_hops(st, src, path, paths, pi, path.hops.len(), allow) {
            None => None,
            Some((st, _)) => Some(st),
        },
    }
}

/// The state after the first `n` paths of a pattern. The first path scans for
/// its start when `scan` holds; every other start is bound.
pub open spec fn walk_paths(
    st: HopsV,
    pattern: PatternV,
    scan: bool,
    n: nat,
    allow: Allow,
) -> Option<HopsV>
    decreases n,
{
    if n == 0 {
        Some(st)
    } else {
        match walk_paths(st, pattern, scan, (n - 1) as nat, allow) {
            None => None,
            Some(mid) => walk_path(
                mid,
                pattern.paths[n - 1],
                pattern.paths.len() as usize,
                (n - 1) as usize,
                n == 1 && scan,
                allow,
            ),
        }
    }
}

/// The steps of a pattern that scans for its start.
pub open spec fn scan_hops(pattern: PatternV, allow: Allow) -> Option<HopsV> {
    if pattern.paths.len() == 0 {
        None
    } else {
        walk_paths(
            before(Seq::empty(), Seq::empty(), Map::empty()),
            pattern,
            true,
            pattern.paths.len(),
            allow,
        )
    }
}

/// The steps of a pattern that starts at bound variables.
pub open spec fn bound_hops(
    pattern: PatternV,
    vars: Seq<Seq<char>>,
    kinds: Seq<VarKind>,
    labels: Map<Seq<char>, Seq<Seq<char>>>,
    allow: Allow,
) -> Option<HopsV> {
    if pattern.paths.len() == 0 {
        None
    } else {
        walk_paths(before(vars, kinds, labels), pattern, false, pattern.paths.len(), allow)
    }
}

proof fn lemma_walk_hops_none(
    st: HopsV,
    src: int,
    path: PathV,
    paths: usize,
    pi: usize,
    n: nat,
    m: nat,
    allow: Allow,
)
    requires
        n <= m,
        walk_hops(st, src, path, paths, pi, n, allow) is None,
    ensures
        walk_hops(st, src, path, paths, pi, m, allow) is None,
    decreases m - n,
{
    if n < m {
        lemma_walk_hops_none(st, src, path, paths, pi, n, (m - 1) as nat, allow);
    }
}

proof fn lemma_walk_paths_none(
    st: HopsV,
    pattern: PatternV,
    scan: bool,
    n: nat,
    m: nat,
    allow: Allow,
)
    requires
        n <= m,
        walk_paths(st, pattern, scan, n, allow) is None,
    ensures
        walk_paths(st, pattern, scan, m, allow) is None,
    decreases m - n,
{
    if n < m {
        lemma_walk_paths_none(st, pattern, scan, n, (m - 1) as nat, allow);
    }
}

fn take_name(st: &mut Hops, var: &Option<String>) -> (r: Option<String>)
    ensures
        match r {
            Some(x) => node_name(old(st).v(), ast::opt_str(*var)) == Some((final(st).v(), x@)),
            None => node_name(old(st).v(), ast::opt_str(*var)) is None,
        },
        final(st).vars == old(st).vars,
{
    match var {
        Some(x) => Some(x.clone()),
        None => match pick_anon(&st.vars, st.anon) {
            Some((k, name)) => {
                st.anon = k + 1;
                Some(name)
            },
            None => None,
        },
    }
}

fn bind_node(st: &mut Hops, x: &String, labels: &Vec<String>)
    ensures
        final(st).v() == with_node(old(st).v(), x@, names::of(labels@)),
{
    st.vars.push(x.clone());
    st.kinds.push(VarKind::Node);
    st.labels.learn(x, labels);
    assert(names::of(st.vars@) =~= names::of(old(st).vars@).push(x@));
}

fn bind_rel(st: &mut Hops, rel: &Option<String>)
    ensures
        final(st).v() == with_rel(old(st).v(), ast::opt_str(*rel)),
{
    match rel {
        Some(x) => {
            st.vars.push(x.clone());
            st.kinds.push(VarKind::Rel);
            assert(names::of(st.vars@) =~= names::of(old(st).vars@).push(x@));
        },
        None => {},
    }
}

fn push_step(st: &mut Hops, h: Hop)
    ensures
        final(st).v() == (HopsV { hops: old(st).v().hops.push(h.v()), ..old(st).v() }),
{
    st.hops.push(h);
    assert(hop::steps_v(st.hops@) =~= hop::steps_v(old(st).hops@).push(h.v()));
}

fn start_path(st: &mut Hops, path: &PathPattern, fresh: bool, allow: Allow) -> (r: Option<
    Option<usize>,
>)
    ensures
        match r {
            Some(src) => enter_path(old(st).v(), path.v(), fresh, allow) == Some(
                (final(st).v(), hop::opt_index(src)),
            ),
            None => enter_path(old(st).v(), path.v(), fresh, allow) is None,
        },
{
    if path.var.is_some() || path.shortest {
        return None;
    }
    if path.start.var.is_none() && !fresh {
        return None;
    }
    if path.hops.len() == 0 && !(fresh && allow.hopless) {
        return None;
    }
    let anchor = start_prop_anchor(&path.start.props);
    if path.start.props.is_some() && !(allow.start && fresh && anchor.is_some()) {
        return None;
    }
    match take_name(st, &path.start.var) {
        None => None,
        Some(x) => {
            if path.start.props.is_some() {
                st.start_anchor = anchor;
            }
            let ghost named = st.v();
            if fresh {
                if path.start.labels.len() == 0 {
                    return None;
                }
                st.a_labels = copy_names(&path.start.labels);
                st.a_var = x.clone();
                bind_node(st, &x, &path.start.labels);
                if path.hops.len() == 0 {
                    Some(None)
                } else {
                    Some(Some(0))
                }
            } else {
                match name_index(&st.vars, &x) {
                    None => None,
                    Some(i) => {
                        if st.labels.knows(&x, &path.start.labels) {
                            Some(Some(i))
                        } else {
                            None
                        }
                    },
                }
            }
        },
    }
}

fn varlen_hop(st: &mut Hops, at: Place, src: usize, rel: &RelPattern, node: &NodePattern) -> (r:
    Option<usize>)
    ensures
        match r {
            Some(s) => add_varlen(old(st).v(), at, src as int, rel.v(), node.v()) == Some(
                (final(st).v(), s as int),
            ),
            None => add_varlen(old(st).v(), at, src as int, rel.v(), node.v()) is None,
        },
{
    match (&rel.length, &node.var) {
        (Some(len), Some(x)) => {
            let min_ok = match len.min {
                Some(m) => m == 1,
                None => true,
            };
            if at.paths != 1 || at.hops != 1 || rel.var.is_some() || node.props.is_some() || !min_ok
                || len.max.is_none() || has_name(&st.vars, x) {
                return None;
            }
            let end: usize = st.vars.len();
            bind_node(st, x, &node.labels);
            let h = Hop {
                src,
                dir: hop_dir(rel.dir),
                types: copy_names(&rel.types),
                labels: copy_names(&node.labels),
                var: x.clone(),
                rel_var: None,
                track: false,
                reset: false,
                tgt: None,
                varlen: len.max,
                end_vi: Some(end),
                fold: false,
                inline: Vec::new(),
            };
            assert(hop::inlines_v(h.inline@) =~= Seq::empty());
            push_step(st, h);
            Some(src)
        },
        _ => None,
    }
}

fn fixed(
    at: Place,
    src: usize,
    rel: &RelPattern,
    node: &NodePattern,
    x: &String,
    tgt: Option<usize>,
    end_vi: Option<usize>,
) -> (h: Hop)
    ensures
        h.v() == fixed_step(
            at,
            src as int,
            rel.v(),
            node.v(),
            x@,
            hop::opt_index(tgt),
            hop::opt_index(end_vi),
        ),
{
    let h = Hop {
        src,
        dir: hop_dir(rel.dir),
        types: copy_names(&rel.types),
        labels: copy_names(&node.labels),
        var: x.clone(),
        rel_var: ast::copy_opt_name(&rel.var),
        track: at.hops > 1,
        reset: at.path > 0 && at.hop == 0,
        tgt,
        varlen: None,
        end_vi,
        fold: false,
        inline: Vec::new(),
    };
    assert(hop::inlines_v(h.inline@) =~= Seq::empty());
    h
}

fn fixed_hop(
    st: &mut Hops,
    at: Place,
    src: usize,
    rel: &RelPattern,
    node: &NodePattern,
    allow: Allow,
) -> (r: Option<usize>)
    requires
        at.hop < at.hops,
    ensures
        match r {
            Some(s) => add_fixed(old(st).v(), at, src as int, rel.v(), node.v(), allow) == Some(
                (final(st).v(), s as int),
            ),
            None => add_fixed(old(st).v(), at, src as int, rel.v(), node.v(), allow) is None,
        },
{
    let rel_taken = match &rel.var {
        Some(rv) => has_name(&st.vars, rv),
        None => false,
    };
    match take_name(st, &node.var) {
        None => None,
        Some(x) => {
            if rel_taken {
                return None;
            }
            let bound = name_index(&st.vars, &x);
            match &node.props {
                Some(_) => {
                    if !allow.node || bound.is_some() {
                        return None;
                    }
                    match start_prop_anchor(&node.props) {
                        None => {
                            return None;
                        },
                        Some((key, val)) => {
                            let e = anchor_expr(&x, &key, &val);
                            let ghost b4 = st.node_anchors@;
                            st.node_anchors.push(e);
                            assert(ast::exprs_v(st.node_anchors@) =~= ast::exprs_v(b4).push(e.v()));
                        },
                    }
                },
                None => {},
            }
            match bound {
                Some(t) => {
                    if at.hop + 1 != at.hops || !st.labels.knows(&x, &node.labels) {
                        return None;
                    }
                    bind_rel(st, &rel.var);
                    push_step(st, fixed(at, src, rel, node, &x, Some(t), None));
                    Some(src)
                },
                None => {
                    let end: usize = st.vars.len();
                    bind_node(st, &x, &node.labels);
                    bind_rel(st, &rel.var);
                    push_step(st, fixed(at, src, rel, node, &x, None, Some(end)));
                    Some(end)
                },
            }
        },
    }
}

fn collect_hop(
    st: &mut Hops,
    at: Place,
    src: usize,
    rel: &RelPattern,
    node: &NodePattern,
    allow: Allow,
) -> (r: Option<usize>)
    requires
        at.hop < at.hops,
    ensures
        match r {
            Some(s) => add_hop(old(st).v(), at, src as int, rel.v(), node.v(), allow) == Some(
                (final(st).v(), s as int),
            ),
            None => add_hop(old(st).v(), at, src as int, rel.v(), node.v(), allow) is None,
        },
{
    if rel.props.is_some() || rel.types.len() == 0 {
        return None;
    }
    if rel.length.is_some() {
        varlen_hop(st, at, src, rel, node)
    } else {
        fixed_hop(st, at, src, rel, node, allow)
    }
}

fn collect_path(
    st: &mut Hops,
    path: &PathPattern,
    paths: usize,
    pi: usize,
    fresh: bool,
    allow: Allow,
) -> (r: bool)
    ensures
        match walk_path(old(st).v(), path.v(), paths, pi, fresh, allow) {
            Some(st1) => r && st1 == final(st).v(),
            None => !r,
        },
{
    match start_path(st, path, fresh, allow) {
        None => false,
        Some(None) => true,
        Some(Some(s0)) => {
            let ghost st0 = st.v();
            let mut src: usize = s0;
            let mut i: usize = 0;
            while i < path.hops.len()
                invariant
                    i <= path.hops@.len(),
                    walk_hops(st0, s0 as int, path.v(), paths, pi, i as nat, allow) == Some(
                        (st.v(), src as int),
                    ),
                    enter_path(old(st).v(), path.v(), fresh, allow) == Some(
                        (st0, Some(s0 as int)),
                    ),
                decreases path.hops.len() - i,
            {
                let at = Place { paths, path: pi, hops: path.hops.len(), hop: i };
                assert(path.v().hops[i as int] == (
                    path.hops@[i as int].0.v(),
                    path.hops@[i as int].1.v(),
                ));
                match collect_hop(st, at, src, &path.hops[i].0, &path.hops[i].1, allow) {
                    None => {
                        proof {
                            lemma_walk_hops_none(
                                st0,
                                s0 as int,
                                path.v(),
                                paths,
                                pi,
                                (i + 1) as nat,
                                path.v().hops.len(),
                                allow,
                            );
                        }
                        return false;
                    },
                    Some(s) => {
                        src = s;
                    },
                }
                i = i + 1;
            }
            true
        },
    }
}

/// The steps of a pattern, in the order in which they run. Without `pre` the
/// first path scans for a labelled start; with it every path starts at a bound
/// variable. A path's last hop may close onto a bound variable.
pub fn collect_hops(pattern: &Pattern, pre: Option<&Prebound>, allow: Allow) -> (r: Option<Hops>)
    ensures
        match (pre, r) {
            (None, Some(h)) => scan_hops(pattern.v(), allow) == Some(h.v()),
            (None, None) => scan_hops(pattern.v(), allow) is None,
            (Some(p), Some(h)) => bound_hops(
                pattern.v(),
                names::of(p.vars@),
                p.kinds@,
                p.labels.v(),
                allow,
            ) == Some(h.v()),
            (Some(p), None) => bound_hops(
                pattern.v(),
                names::of(p.vars@),
                p.kinds@,
                p.labels.v(),
                allow,
            ) is None,
        },
{
    if pattern.paths.len() == 0 {
        return None;
    }
    let scan = pre.is_none();
    let empty: Vec<String> = Vec::new();
    let mut st = match pre {
        Some(p) => {
            let vars = copy_names(&p.vars);
            Hops {
                a_labels: empty,
                a_var: String::new(),
                hops: Vec::new(),
                vars,
                kinds: crate::chunk::copy_kinds(&p.kinds),
                labels: p.labels.copy(),
                start_anchor: None,
                node_anchors: Vec::new(),
                anon: 0,
            }
        },
        None => Hops {
            a_labels: empty,
            a_var: String::new(),
            hops: Vec::new(),
            vars: Vec::new(),
            kinds: Vec::new(),
            labels: LabelMap::new(),
            start_anchor: None,
            node_anchors: Vec::new(),
            anon: 0,
        },
    };
    let ghost st0 = st.v();
    proof {
        let vars = match pre {
            Some(p) => names::of(p.vars@),
            None => Seq::empty(),
        };
        assert(st0.a_labels =~= Seq::empty());
        assert(st0.a_var =~= Seq::empty());
        assert(st0.hops =~= Seq::empty());
        assert(st0.vars =~= vars);
        assert(st0.node_anchors =~= Seq::empty());
        assert(pre is None ==> st0.kinds =~= Seq::empty());
        assert(st0 == match pre {
            Some(p) => before(names::of(p.vars@), p.kinds@, p.labels.v()),
            None => before(Seq::empty(), Seq::empty(), Map::empty()),
        });
    }
    let mut i: usize = 0;
    while i < pattern.paths.len()
        invariant
            i <= pattern.paths@.len(),
            pattern.paths@.len() > 0,
            scan == (pre is None),
            st0 == match pre {
                Some(p) => before(names::of(p.vars@), p.kinds@, p.labels.v()),
                None => before(Seq::empty(), Seq::empty(), Map::empty()),
            },
            walk_paths(st0, pattern.v(), scan, i as nat, allow) == Some(st.v()),
        decreases pattern.paths.len() - i,
    {
        assert(pattern.v().paths[i as int] == pattern.paths@[i as int].v());
        if !collect_path(&mut st, &pattern.paths[i], pattern.paths.len(), i, i == 0 && scan, allow) {
            proof {
                lemma_walk_paths_none(
                    st0,
                    pattern.v(),
                    scan,
                    (i + 1) as nat,
                    pattern.v().paths.len(),
                    allow,
                );
            }
            return None;
        }
        i = i + 1;
    }
    Some(st)
}

} // verus!
