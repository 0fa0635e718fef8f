//! Expressions, patterns and clauses of a query, as the planner reads them.

use vstd::prelude::*;

use crate::names;
use crate::names::{copy_names, has_name};
use crate::query::{RelDir, VarLength};
use crate::seqs;

verus! {

/// An operator of an expression.
#[derive(Clone, Copy, Debug, PartialEq, Eq, Structural)]
pub enum Op {
    Neg,
    Not,
    IsNull,
    IsNotNull,
    And,
    Or,
    Xor,
    Eq,
    Neq,
    Lt,
    Le,
    Gt,
    Ge,
    Plus,
    Minus,
    Times,
    Div,
    Rem,
    Pow,
    In,
    Index,
    Slice,
    List,
    Case,
}

/// A function call without its arguments.
#[derive(Debug)]
pub struct Function {
    pub name: String,
    pub distinct: bool,
    /// `f(*)`.
    pub star: bool,
    /// Whether the function aggregates rows.
    pub aggregate: bool,
    /// Whether the function can be evaluated a column at a time.
    pub columnar: bool,
}

/// A node of a path that is used as a predicate.
#[derive(Debug)]
pub struct EdgeNode {
    pub var: Option<String>,
    pub labels: Vec<String>,
    /// Whether it has a property map.
    pub props: bool,
}

/// A relationship of a path that is used as a predicate, and the node it leads to.
#[derive(Debug)]
pub struct EdgeStep {
    pub var: Option<String>,
    pub types: Vec<String>,
    pub dir: RelDir,
    /// Whether it has a property map.
    pub props: bool,
    pub length: Option<VarLength>,
    pub end: EdgeNode,
}

/// A path used as a predicate.
#[derive(Debug)]
pub struct EdgePattern {
    pub var: Option<String>,
    pub shortest: bool,
    pub start: EdgeNode,
    pub steps: Vec<EdgeStep>,
}

/// What an expression is, apart from its operands.
#[derive(Debug)]
pub enum Head {
    Null,
    Bool(bool),
    Int(i64),
    /// A float, by its bits.
    Float(u64),
    Str(String),
    Param(String),
    Var(String),
    /// A property of the operand.
    Prop(String),
    Op(Op),
    /// A map literal: its keys, one operand each.
    MapOf(Vec<String>),
    Call(Function),
    /// A path as a predicate. The operands are the variables it names and its
    /// property maps.
    Pattern(EdgePattern),
    /// The value of a lifted aggregate.
    Site(usize),
    /// A form that binds names of its own. The operands are what it reads from
    /// around it.
    Opaque(u64),
}

/// An expression.
#[derive(Debug)]
pub struct Expr {
    pub head: Head,
    pub args: Vec<Expr>,
}

/// A [`Function`].
pub struct FunctionV {
    pub name: Seq<char>,
    pub distinct: bool,
    pub star: bool,
    pub aggregate: bool,
    pub columnar: bool,
}

/// An [`EdgeNode`].
pub struct EdgeNodeV {
    pub var: Option<Seq<char>>,
    pub labels: Seq<Seq<char>>,
    pub props: bool,
}

/// An [`EdgeStep`].
pub struct EdgeStepV {
    pub var: Option<Seq<char>>,
    pub types: Seq<Seq<char>>,
    pub dir: RelDir,
    pub props: bool,
    pub length: Option<VarLength>,
    pub end: EdgeNodeV,
}

/// An [`EdgePattern`].
pub struct EdgePatternV {
    pub var: Option<Seq<char>>,
    pub shortest: bool,
    pub start: EdgeNodeV,
    pub steps: Seq<EdgeStepV>,
}

/// A [`Head`].
pub enum HeadV {
    Null,
    Bool(bool),
    Int(i64),
    Float(u64),
    Str(Seq<char>),
    Param(Seq<char>),
    Var(Seq<char>),
    Prop(Seq<char>),
    Op(Op),
    MapOf(Seq<Seq<char>>),
    Call(FunctionV),
    Pattern(EdgePatternV),
    Site(usize),
    Opaque(u64),
}

/// An [`Expr`].
pub struct ExprV {
    pub head: HeadV,
    pub args: Seq<ExprV>,
}

/// An optional name as characters.
pub open spec fn opt_str(s: Option<String>) -> Option<Seq<char>> {
    match s {
        Some(s) => Some(s@),
        None => None,
    }
}

impl Function {
    pub open spec fn v(self) -> FunctionV {
        FunctionV {
            name: self.name@,
            distinct: self.distinct,
            star: self.star,
            aggregate: self.aggregate,
            columnar: self.columnar,
        }
    }
}

impl EdgeNode {
    pub open spec fn v(self) -> EdgeNodeV {
        EdgeNodeV { var: opt_str(self.var), labels: names::of(self.labels@), props: self.props }
    }
}

impl EdgeStep {
    pub open spec fn v(self) -> EdgeStepV {
        EdgeStepV {
            var: opt_str(self.var),
            types: names::of(self.types@),
            dir: self.dir,
            props: self.props,
            length: self.length,
            end: self.end.v(),
        }
    }
}

impl EdgePattern {
    pub open spec fn v(self) -> EdgePatternV {
        EdgePatternV {
            var: opt_str(self.var),
            shortest: self.shortest,
            start: self.start.v(),
            steps: self.steps@.map_values(|s: EdgeStep| s.v()),
        }
    }
}

impl Head {
    pub open spec fn v(self) -> HeadV {
        match self {
            Head::Null => HeadV::Null,
            Head::Bool(b) => HeadV::Bool(b),
            Head::Int(i) => HeadV::Int(i),
            Head::Float(f) => HeadV::Float(f),
            Head::Str(s) => HeadV::Str(s@),
            Head::Param(s) => HeadV::Param(s@),
            Head::Var(s) => HeadV::Var(s@),
            Head::Prop(s) => HeadV::Prop(s@),
            Head::Op(o) => HeadV::Op(o),
            Head::MapOf(k) => HeadV::MapOf(names::of(k@)),
            Head::Call(f) => HeadV::Call(f.v()),
            Head::Pattern(p) => HeadV::Pattern(p.v()),
            Head::Site(i) => HeadV::Site(i),
            Head::Opaque(i) => HeadV::Opaque(i),
        }
    }
}

impl Expr {
    pub open spec fn v(self) -> ExprV
        decreases self,
    {
        ExprV {
            head: self.head.v(),
            args: Seq::new(
                self.args@.len(),
                |i: int|
                    if 0 <= i < self.args@.len() {
                        self.args@[i].v()
                    } else {
                        arbitrary()
                    },
            ),
        }
    }
}

/// The expressions of a list.
pub open spec fn exprs_v(s: Seq<Expr>) -> Seq<ExprV> {
    s.map_values(|e: Expr| e.v())
}

/// An optional expression.
pub open spec fn opt_v(e: Option<Expr>) -> Option<ExprV> {
    match e {
        Some(e) => Some(e.v()),
        None => None,
    }
}

/// An optional reference to an expression.
pub open spec fn ref_v(e: Option<&Expr>) -> Option<ExprV> {
    match e {
        Some(e) => Some(e.v()),
        None => None,
    }
}

/// A variable.
pub open spec fn var_v(x: Seq<char>) -> ExprV {
    ExprV { head: HeadV::Var(x), args: Seq::empty() }
}

/// A property of an expression.
pub open spec fn prop_v(e: ExprV, key: Seq<char>) -> ExprV {
    ExprV { head: HeadV::Prop(key), args: seq![e] }
}

/// A binary operation.
pub open spec fn bin_v(op: Op, a: ExprV, b: ExprV) -> ExprV {
    ExprV { head: HeadV::Op(op), args: seq![a, b] }
}

/// A parameter.
pub open spec fn param_v(x: Seq<char>) -> ExprV {
    ExprV { head: HeadV::Param(x), args: Seq::empty() }
}

/// Whether an expression is an operation on a number of operands.
pub open spec fn is_op(e: ExprV, op: Op, n: nat) -> bool {
    e.head == HeadV::Op(op) && e.args.len() == n
}

/// The name of a bare variable.
pub open spec fn as_var(e: ExprV) -> Option<Seq<char>> {
    match e.head {
        HeadV::Var(x) => Some(x),
        _ => None,
    }
}

/// Whether an expression reads a variable.
pub open spec fn reads(e: ExprV, x: Seq<char>) -> bool
    decreases e,
{
    e.head == HeadV::Var(x) || exists|i: int| 0 <= i < e.args.len() && reads(#[trigger] e.args[i], x)
}

/// Whether every variable that an expression reads is in a list.
pub open spec fn reads_only(e: ExprV, vars: Seq<Seq<char>>) -> bool {
    forall|x: Seq<char>| #[trigger] reads(e, x) ==> vars.contains(x)
}

/// Whether an expression reads a variable at all.
pub open spec fn reads_any(e: ExprV) -> bool
    decreases e,
{
    e.head is Var || exists|i: int| 0 <= i < e.args.len() && reads_any(#[trigger] e.args[i])
}

/// Whether an expression reads a property of that name.
pub open spec fn reads_prop(e: ExprV, key: Seq<char>) -> bool
    decreases e,
{
    e.head == HeadV::Prop(key) || exists|i: int|
        0 <= i < e.args.len() && reads_prop(#[trigger] e.args[i], key)
}

/// Whether an expression aggregates.
pub open spec fn has_aggregate(e: ExprV) -> bool
    decreases e,
{
    (e.head matches HeadV::Call(f) && f.aggregate) || exists|i: int|
        0 <= i < e.args.len() && has_aggregate(#[trigger] e.args[i])
}

/// Whether an expression holds a form whose variables are not known.
pub open spec fn has_opaque(e: ExprV) -> bool
    decreases e,
{
    e.head is Pattern || e.head is Opaque || exists|i: int|
        0 <= i < e.args.len() && has_opaque(#[trigger] e.args[i])
}

/// The conjuncts of a condition, in order.
pub open spec fn conjuncts(e: ExprV) -> Seq<ExprV>
    decreases e,
{
    if is_op(e, Op::And, 2) {
        conjuncts(e.args[0]) + conjuncts(e.args[1])
    } else {
        seq![e]
    }
}

/// Whether an expression can be evaluated a column at a time. A bare variable
/// stands for its identity, which only a comparison takes.
pub open spec fn columnar(e: ExprV, identity: bool) -> bool
    decreases e,
{
    &&& match e.head {
        HeadV::Null => true,
        HeadV::Bool(_) => true,
        HeadV::Int(_) => true,
        HeadV::Float(_) => true,
        HeadV::Str(_) => true,
        HeadV::Param(_) => true,
        HeadV::Var(_) => identity,
        HeadV::Prop(_) => e.args.len() == 1 && e.args[0].head is Var,
        HeadV::Op(op) => op != Op::Index && op != Op::Slice,
        HeadV::Call(f) => f.columnar && !f.aggregate,
        _ => false,
    }
    &&& forall|i: int|
        0 <= i < e.args.len() ==> columnar(#[trigger] e.args[i], takes_identity(e.head))
}

/// Whether the operands of a head may be entities.
pub open spec fn takes_identity(h: HeadV) -> bool {
    h is Prop || h == HeadV::Op(Op::Eq) || h == HeadV::Op(Op::Neq) || h == HeadV::Op(Op::In)
}

/// What a key reads.
#[derive(Clone, Copy, Debug, PartialEq, Eq, Structural)]
pub enum KeyRef {
    /// No variable.
    Const,
    /// One variable, by its index.
    Var(usize),
}

/// Whether an expression reads one variable and no other.
pub open spec fn reads_one(e: ExprV, x: Seq<char>) -> bool {
    forall|y: Seq<char>| #[trigger] reads(e, y) ==> y == x
}

/// The first variable that is all an expression reads.
pub open spec fn sole_reader(e: ExprV, vars: Seq<Seq<char>>) -> Option<int>
    decreases vars.len(),
{
    if vars.len() == 0 {
        None
    } else {
        match sole_reader(e, vars.drop_last()) {
            Some(i) => Some(i),
            None => if reads_one(e, vars.last()) {
                Some(vars.len() - 1)
            } else {
                None
            },
        }
    }
}

/// What a key reads, if it can be evaluated a column at a time and reads at
/// most one of the variables.
pub open spec fn key_class(e: ExprV, vars: Seq<Seq<char>>) -> Option<KeyRef> {
    if !columnar(e, false) {
        None
    } else if !reads_any(e) {
        Some(KeyRef::Const)
    } else {
        match sole_reader(e, vars) {
            Some(i) => Some(KeyRef::Var(i as usize)),
            None => None,
        }
    }
}

proof fn lemma_reads_any(e: ExprV)
    ensures
        reads_any(e) <==> exists|x: Seq<char>| reads(e, x),
    decreases e,
{
    assert forall|i: int| 0 <= i < e.args.len() implies (reads_any(#[trigger] e.args[i])
        <==> exists|x: Seq<char>| reads(e.args[i], x)) by {
        lemma_reads_any(e.args[i]);
    }
    if reads_any(e) {
        if e.head is Var {
            assert(reads(e, e.head->Var_0));
        } else {
            let i = choose|i: int| 0 <= i < e.args.len() && reads_any(#[trigger] e.args[i]);
            let x = choose|x: Seq<char>| reads(e.args[i], x);
            assert(reads(e, x));
        }
    }
    if exists|x: Seq<char>| reads(e, x) {
        let x = choose|x: Seq<char>| reads(e, x);
        if e.head != HeadV::Var(x) {
            let i = choose|i: int| 0 <= i < e.args.len() && reads(#[trigger] e.args[i], x);
            assert(reads_any(e.args[i]));
        }
    }
}

/// An expression reads nothing exactly when no variable occurs in it.
pub proof fn law_reads_any(e: ExprV)
    ensures
        reads_any(e) <==> exists|x: Seq<char>| reads(e, x),
{
    lemma_reads_any(e);
}

/// A copy of an optional name.
pub fn copy_opt_name(s: &Option<String>) -> (r: Option<String>)
    ensures
        r == *s,
{
    match s {
        Some(n) => Some(n.clone()),
        None => None,
    }
}

impl Function {
    pub fn copy(&self) -> (r: Function)
        ensures
            r.v() == self.v(),
    {
        Function {
            name: self.name.clone(),
            distinct: self.distinct,
            star: self.star,
            aggregate: self.aggregate,
            columnar: self.columnar,
        }
    }

    pub fn same(&self, other: &Function) -> (r: bool)
        ensures
            r == (self.v() == other.v()),
    {
        self.name == other.name && self.distinct == other.distinct && self.star == other.star
            && self.aggregate == other.aggregate && self.columnar == other.columnar
    }
}

/// Whether two optional names are the same.
pub fn same_opt_name(a: &Option<String>, b: &Option<String>) -> (r: bool)
    ensures
        r == (opt_str(*a) == opt_str(*b)),
{
    match (a, b) {
        (Some(x), Some(y)) => *x == *y,
        (None, None) => true,
        _ => false,
    }
}

/// Whether two lists of names are the same.
pub fn same_names(a: &Vec<String>, b: &Vec<String>) -> (r: bool)
    ensures
        r == (names::of(a@) == names::of(b@)),
{
    if a.len() != b.len() {
        assert(names::of(a@).len() != names::of(b@).len());
        return false;
    }
    let mut i: usize = 0;
    while i < a.len()
        invariant
            i <= a@.len(),
            a@.len() == b@.len(),
            forall|j: int| 0 <= j < i ==> names::of(a@)[j] == names::of(b@)[j],
        decreases a.len() - i,
    {
        if a[i] != b[i] {
            assert(names::of(a@)[i as int] != names::of(b@)[i as int]);
            return false;
        }
        i = i + 1;
    }
    assert(names::of(a@) =~= names::of(b@));
    true
}

impl EdgeNode {
    pub fn copy(&self) -> (r: EdgeNode)
        ensures
            r.v() == self.v(),
    {
        EdgeNode {
            var: copy_opt_name(&self.var),
            labels: copy_names(&self.labels),
            props: self.props,
        }
    }

    pub fn same(&self, other: &EdgeNode) -> (r: bool)
        ensures
            r == (self.v() == other.v()),
    {
        same_opt_name(&self.var, &other.var) && same_names(&self.labels, &other.labels)
            && self.props == other.props
    }
}

fn same_bound(a: Option<u64>, b: Option<u64>) -> (r: bool)
    ensures
        r == (a == b),
{
    match (a, b) {
        (Some(x), Some(y)) => x == y,
        (None, None) => true,
        _ => false,
    }
}

fn same_length(a: &Option<VarLength>, b: &Option<VarLength>) -> (r: bool)
    ensures
        r == (*a == *b),
{
    match (a, b) {
        (Some(x), Some(y)) => same_bound(x.min, y.min) && same_bound(x.max, y.max),
        (None, None) => true,
        _ => false,
    }
}

impl EdgeStep {
    pub fn copy(&self) -> (r: EdgeStep)
        ensures
            r.v() == self.v(),
    {
        EdgeStep {
            var: copy_opt_name(&self.var),
            types: copy_names(&self.types),
            dir: self.dir,
            props: self.props,
            length: self.length,
            end: self.end.copy(),
        }
    }

    pub fn same(&self, other: &EdgeStep) -> (r: bool)
        ensures
            r == (self.v() == other.v()),
    {
        same_opt_name(&self.var, &other.var) && same_names(&self.types, &other.types) && self.dir
            == other.dir && self.props == other.props && same_length(&self.length, &other.length)
            && self.end.same(&other.end)
    }
}

impl EdgePattern {
    pub fn copy(&self) -> (r: EdgePattern)
        ensures
            r.v() == self.v(),
    {
        let mut steps: Vec<EdgeStep> = Vec::new();
        let mut i: usize = 0;
        while i < self.steps.len()
            invariant
                i <= self.steps@.len(),
                steps@.len() == i,
                forall|j: int| 0 <= j < i ==> (#[trigger] steps@[j]).v() == self.steps@[j].v(),
            decreases self.steps.len() - i,
        {
            steps.push(self.steps[i].copy());
            i = i + 1;
        }
        let r = EdgePattern {
            var: copy_opt_name(&self.var),
            shortest: self.shortest,
            start: self.start.copy(),
            steps,
        };
        assert(r.v().steps =~= self.v().steps);
        r
    }

    pub fn same(&self, other: &EdgePattern) -> (r: bool)
        ensures
            r == (self.v() == other.v()),
    {
        if self.steps.len() != other.steps.len() {
            assert(self.v().steps.len() != other.v().steps.len());
            return false;
        }
        let mut i: usize = 0;
        while i < self.steps.len()
            invariant
                i <= self.steps@.len() == other.steps@.len(),
                forall|j: int| 0 <= j < i ==> (#[trigger] self.steps@[j]).v() == other.steps@[j].v(),
            decreases self.steps.len() - i,
        {
            if !self.steps[i].same(&other.steps[i]) {
                assert(self.v().steps[i as int] != other.v().steps[i as int]);
                return false;
            }
            i = i + 1;
        }
        assert(self.v().steps =~= other.v().steps);
        same_opt_name(&self.var, &other.var) && self.shortest == other.shortest && self.start.same(
            &other.start,
        )
    }
}

impl Head {
    pub fn copy(&self) -> (r: Head)
        ensures
            r.v() == self.v(),
    {
        match self {
            Head::Null => Head::Null,
            Head::Bool(b) => Head::Bool(*b),
            Head::Int(i) => Head::Int(*i),
            Head::Float(f) => Head::Float(*f),
            Head::Str(s) => Head::Str(s.clone()),
            Head::Param(s) => Head::Param(s.clone()),
            Head::Var(s) => Head::Var(s.clone()),
            Head::Prop(s) => Head::Prop(s.clone()),
            Head::Op(o) => Head::Op(*o),
            Head::MapOf(k) => Head::MapOf(copy_names(k)),
            Head::Call(f) => Head::Call(f.copy()),
            Head::Pattern(p) => Head::Pattern(p.copy()),
            Head::Site(i) => Head::Site(*i),
            Head::Opaque(i) => Head::Opaque(*i),
        }
    }

    pub fn same(&self, other: &Head) -> (r: bool)
        ensures
            r == (self.v() == other.v()),
    {
        match (self, other) {
            (Head::Null, Head::Null) => true,
            (Head::Bool(a), Head::Bool(b)) => *a == *b,
            (Head::Int(a), Head::Int(b)) => *a == *b,
            (Head::Float(a), Head::Float(b)) => *a == *b,
            (Head::Str(a), Head::Str(b)) => *a == *b,
            (Head::Param(a), Head::Param(b)) => *a == *b,
            (Head::Var(a), Head::Var(b)) => *a == *b,
            (Head::Prop(a), Head::Prop(b)) => *a == *b,
            (Head::Op(a), Head::Op(b)) => *a == *b,
            (Head::MapOf(a), Head::MapOf(b)) => same_names(a, b),
            (Head::Call(a), Head::Call(b)) => a.same(b),
            (Head::Pattern(a), Head::Pattern(b)) => a.same(b),
            (Head::Site(a), Head::Site(b)) => *a == *b,
            (Head::Opaque(a), Head::Opaque(b)) => *a == *b,
            _ => false,
        }
    }
}

impl Expr {
    /// A bare variable.
    pub fn var(x: &String) -> (e: Expr)
        ensures
            e.v() == var_v(x@),
    {
        let e = Expr { head: Head::Var(x.clone()), args: Vec::new() };
        assert(e.v().args =~= Seq::empty());
        e
    }

    /// A parameter.
    pub fn param(x: &String) -> (e: Expr)
        ensures
            e.v() == param_v(x@),
    {
        let e = Expr { head: Head::Param(x.clone()), args: Vec::new() };
        assert(e.v().args =~= Seq::empty());
        e
    }

    /// A property of an expression.
    pub fn prop(base: Expr, key: &String) -> (e: Expr)
        ensures
            e.v() == prop_v(base.v(), key@),
    {
        let mut args: Vec<Expr> = Vec::new();
        args.push(base);
        let e = Expr { head: Head::Prop(key.clone()), args };
        assert(e.v().args =~= seq![base.v()]);
        e
    }

    /// A binary operation.
    pub fn bin(op: Op, a: Expr, b: Expr) -> (e: Expr)
        ensures
            e.v() == bin_v(op, a.v(), b.v()),
    {
        let mut args: Vec<Expr> = Vec::new();
        args.push(a);
        args.push(b);
        let e = Expr { head: Head::Op(op), args };
        assert(e.v().args =~= seq![a.v(), b.v()]);
        e
    }

    /// A copy.
    pub fn copy(&self) -> (r: Expr)
        ensures
            r.v() == self.v(),
        decreases self,
    {
        let head = self.head.copy();
        let mut args: Vec<Expr> = Vec::new();
        let mut i: usize = 0;
        while i < self.args.len()
            invariant
                i <= self.args@.len(),
                args@.len() == i,
                forall|j: int| 0 <= j < i ==> (#[trigger] args@[j]).v() == self.args@[j].v(),
            decreases self.args.len() - i,
        {
            args.push(self.args[i].copy());
            i = i + 1;
        }
        let r = Expr { head, args };
        assert(r.v().args =~= self.v().args);
        r
    }

    /// Whether two expressions are the same.
    pub fn same(&self, other: &Expr) -> (r: bool)
        ensures
            r == (self.v() == other.v()),
        decreases self,
    {
        if !self.head.same(&other.head) || self.args.len() != other.args.len() {
            assert(self.v().head != other.v().head || self.v().args.len() != other.v().args.len());
            return false;
        }
        let mut i: usize = 0;
        while i < self.args.len()
            invariant
                i <= self.args@.len(),
                self.args@.len() == other.args@.len(),
                forall|j: int| 0 <= j < i ==> self.args@[j].v() == (#[trigger] other.args@[j]).v(),
            decreases self.args.len() - i,
        {
            if !self.args[i].same(&other.args[i]) {
                assert(self.v().args[i as int] != other.v().args[i as int]);
                return false;
            }
            i = i + 1;
        }
        assert(self.v().args =~= other.v().args);
        true
    }
}

/// A copy of an optional expression.
pub fn copy_opt(e: Option<&Expr>) -> (r: Option<Expr>)
    ensures
        opt_v(r) == ref_v(e),
{
    match e {
        Some(e) => Some(e.copy()),
        None => None,
    }
}

/// A reference into an optional expression.
pub fn as_opt(e: &Option<Expr>) -> (r: Option<&Expr>)
    ensures
        ref_v(r) == opt_v(*e),
        r is Some <==> e is Some,
{
    match e {
        Some(e) => Some(e),
        None => None,
    }
}

/// Whether every variable that an expression reads is in a list.
pub fn reads_within(e: &Expr, vars: &Vec<String>) -> (b: bool)
    ensures
        b == reads_only(e.v(), names::of(vars@)),
    decreases e,
{
    match &e.head {
        Head::Var(x) => {
            if !has_name(vars, x) {
                assert(reads(e.v(), x@));
                return false;
            }
        },
        _ => {},
    }
    let mut i: usize = 0;
    while i < e.args.len()
        invariant
            i <= e.args@.len(),
            e.v().head matches HeadV::Var(x) ==> names::of(vars@).contains(x),
            forall|j: int|
                0 <= j < i ==> reads_only(#[trigger] e.v().args[j], names::of(vars@)),
        decreases e.args.len() - i,
    {
        assert(e.v().args[i as int] == e.args@[i as int].v());
        if !reads_within(&e.args[i], vars) {
            proof {
                let x = choose|x: Seq<char>|
                    reads(e.v().args[i as int], x) && !names::of(vars@).contains(x);
                assert(reads(e.v(), x));
            }
            return false;
        }
        i = i + 1;
    }
    proof {
        assert forall|x: Seq<char>| #[trigger] reads(e.v(), x) implies names::of(vars@).contains(
            x,
        ) by {
            if e.v().head != HeadV::Var(x) {
                let j = choose|j: int| 0 <= j < e.v().args.len() && reads(#[trigger] e.v().args[j], x);
                assert(reads_only(e.v().args[j], names::of(vars@)));
            }
        }
    }
    true
}

/// Whether an expression reads one variable and no other.
pub fn reads_only_var(e: &Expr, v: &String) -> (b: bool)
    ensures
        b == reads_one(e.v(), v@),
    decreases e,
{
    match &e.head {
        Head::Var(x) => {
            if *x != *v {
                assert(reads(e.v(), x@));
                return false;
            }
        },
        _ => {},
    }
    let mut i: usize = 0;
    while i < e.args.len()
        invariant
            i <= e.args@.len(),
            e.v().head matches HeadV::Var(x) ==> x == v@,
            forall|j: int| 0 <= j < i ==> reads_one(#[trigger] e.v().args[j], v@),
        decreases e.args.len() - i,
    {
        assert(e.v().args[i as int] == e.args@[i as int].v());
        if !reads_only_var(&e.args[i], v) {
            proof {
                let x = choose|x: Seq<char>| reads(e.v().args[i as int], x) && x != v@;
                assert(reads(e.v(), x));
            }
            return false;
        }
        i = i + 1;
    }
    proof {
        assert forall|x: Seq<char>| #[trigger] reads(e.v(), x) implies x == v@ by {
            if e.v().head != HeadV::Var(x) {
                let j = choose|j: int| 0 <= j < e.v().args.len() && reads(#[trigger] e.v().args[j], x);
                assert(reads_one(e.v().args[j], v@));
            }
        }
    }
    true
}

/// Whether an expression reads a variable.
pub fn reads_var(e: &Expr, v: &String) -> (b: bool)
    ensures
        b == reads(e.v(), v@),
    decreases e,
{
    match &e.head {
        Head::Var(x) => {
            if *x == *v {
                return true;
            }
        },
        _ => {},
    }
    let mut i: usize = 0;
    while i < e.args.len()
        invariant
            i <= e.args@.len(),
            e.v().head != HeadV::Var(v@),
            forall|j: int| 0 <= j < i ==> !reads(#[trigger] e.v().args[j], v@),
        decreases e.args.len() - i,
    {
        assert(e.v().args[i as int] == e.args@[i as int].v());
        if reads_var(&e.args[i], v) {
            return true;
        }
        i = i + 1;
    }
    false
}

/// Whether an expression reads a variable at all.
pub fn reads_some(e: &Expr) -> (b: bool)
    ensures
        b == reads_any(e.v()),
    decreases e,
{
    if matches!(e.head, Head::Var(_)) {
        return true;
    }
    let mut i: usize = 0;
    while i < e.args.len()
        invariant
            i <= e.args@.len(),
            !(e.v().head is Var),
            forall|j: int| 0 <= j < i ==> !reads_any(#[trigger] e.v().args[j]),
        decreases e.args.len() - i,
    {
        assert(e.v().args[i as int] == e.args@[i as int].v());
        if reads_some(&e.args[i]) {
            return true;
        }
        i = i + 1;
    }
    false
}

/// Whether an expression aggregates.
pub fn expr_has_aggregate(e: &Expr) -> (b: bool)
    ensures
        b == has_aggregate(e.v()),
    decreases e,
{
    match &e.head {
        Head::Call(f) => {
            if f.aggregate {
                return true;
            }
        },
        _ => {},
    }
    let mut i: usize = 0;
    while i < e.args.len()
        invariant
            i <= e.args@.len(),
            !(e.v().head matches HeadV::Call(f) && f.aggregate),
            forall|j: int| 0 <= j < i ==> !has_aggregate(#[trigger] e.v().args[j]),
        decreases e.args.len() - i,
    {
        assert(e.v().args[i as int] == e.args@[i as int].v());
        if expr_has_aggregate(&e.args[i]) {
            return true;
        }
        i = i + 1;
    }
    false
}

/// Whether an expression holds a form whose variables are not known.
pub fn contains_opaque(e: &Expr) -> (b: bool)
    ensures
        b == has_opaque(e.v()),
    decreases e,
{
    if matches!(e.head, Head::Pattern(_)) || matches!(e.head, Head::Opaque(_)) {
        return true;
    }
    let mut i: usize = 0;
    while i < e.args.len()
        invariant
            i <= e.args@.len(),
            !(e.v().head is Pattern) && !(e.v().head is Opaque),
            forall|j: int| 0 <= j < i ==> !has_opaque(#[trigger] e.v().args[j]),
        decreases e.args.len() - i,
    {
        assert(e.v().args[i as int] == e.args@[i as int].v());
        if contains_opaque(&e.args[i]) {
            return true;
        }
        i = i + 1;
    }
    false
}

/// Whether an expression can be evaluated a column at a time.
pub fn is_columnar(e: &Expr, identity: bool) -> (b: bool)
    ensures
        b == columnar(e.v(), identity),
    decreases e,
{
    assert(e.args@.len() == 1 ==> e.v().args[0] == e.args@[0].v());
    let head_ok = match &e.head {
        Head::Null => true,
        Head::Bool(_) => true,
        Head::Int(_) => true,
        Head::Float(_) => true,
        Head::Str(_) => true,
        Head::Param(_) => true,
        Head::Var(_) => identity,
        Head::Prop(_) => e.args.len() == 1 && matches!(e.args[0].head, Head::Var(_)),
        Head::Op(op) => *op != Op::Index && *op != Op::Slice,
        Head::Call(f) => f.columnar && !f.aggregate,
        _ => false,
    };
    if !head_ok {
        return false;
    }
    let below = match &e.head {
        Head::Prop(_) => true,
        Head::Op(op) => *op == Op::Eq || *op == Op::Neq || *op == Op::In,
        _ => false,
    };
    let mut i: usize = 0;
    while i < e.args.len()
        invariant
            i <= e.args@.len(),
            below == takes_identity(e.v().head),
            forall|j: int| 0 <= j < i ==> columnar(#[trigger] e.v().args[j], below),
        decreases e.args.len() - i,
    {
        assert(e.v().args[i as int] == e.args@[i as int].v());
        if !is_columnar(&e.args[i], below) {
            return false;
        }
        i = i + 1;
    }
    true
}

/// What a key reads, if it can be evaluated a column at a time and reads at
/// most one of the variables.
pub fn classify_key(e: &Expr, vars: &Vec<String>) -> (r: Option<KeyRef>)
    ensures
        r == key_class(e.v(), names::of(vars@)),
        r matches Some(KeyRef::Var(i)) ==> i < vars@.len(),
{
    if !is_columnar(e, false) {
        return None;
    }
    if !reads_some(e) {
        return Some(KeyRef::Const);
    }
    let ghost ns = names::of(vars@);
    let mut i: usize = 0;
    assert(ns.take(0) =~= Seq::empty());
    while i < vars.len()
        invariant
            i <= vars@.len(),
            ns == names::of(vars@),
            columnar(e.v(), false),
            reads_any(e.v()),
            sole_reader(e.v(), ns.take(i as int)) is None,
        decreases vars.len() - i,
    {
        proof {
            seqs::lemma_take_last(ns, i as int);
        }
        if reads_only_var(e, &vars[i]) {
            proof {
                lemma_sole_reader(e.v(), ns, i + 1);
            }
            return Some(KeyRef::Var(i));
        }
        i = i + 1;
    }
    assert(ns.take(i as int) =~= ns);
    None
}

proof fn lemma_sole_reader(e: ExprV, vars: Seq<Seq<char>>, n: int)
    requires
        0 <= n <= vars.len(),
        sole_reader(e, vars.take(n)) is Some,
    ensures
        sole_reader(e, vars) == sole_reader(e, vars.take(n)),
    decreases vars.len() - n,
{
    if n == vars.len() {
        assert(vars.take(n) =~= vars);
    } else {
        seqs::lemma_take_last(vars, n);
        lemma_sole_reader(e, vars, n + 1);
    }
}

/// The conjuncts of a condition, in order.
pub fn conjuncts_of<'a>(e: &'a Expr, out: &mut Vec<&'a Expr>)
    ensures
        final(out)@.map_values(|x: &Expr| x.v()) == old(out)@.map_values(|x: &Expr| x.v())
            + conjuncts(e.v()),
    decreases e,
{
    let ghost f = |x: &Expr| x.v();
    if matches!(e.head, Head::Op(Op::And)) && e.args.len() == 2 {
        assert(e.v().args[0] == e.args@[0].v());
        assert(e.v().args[1] == e.args@[1].v());
        conjuncts_of(&e.args[0], out);
        conjuncts_of(&e.args[1], out);
        assert(out@.map_values(f) =~= old(out)@.map_values(f) + conjuncts(e.v()));
    } else {
        out.push(e);
        assert(out@.map_values(f) =~= old(out)@.map_values(f) + conjuncts(e.v()));
    }
}

} // verus!
