//! The graph that a pipeline reads: adjacency by direction and type, label
//! membership and the row budget.

use std::collections::BTreeSet;
use vstd::prelude::*;

use crate::names;
use crate::seqs;
use crate::names::{has_id, has_name, name_index};

verus! {

broadcast use {vstd::std_specs::btree::group_btree_axioms, vstd::laws_cmp::group_laws_cmp};

/// The id that stands for "no entity".
pub const NULL_ID: u64 = 0xffff_ffff_ffff_ffff;

/// The direction of a hop, seen from its source.
#[derive(Clone, Copy, Debug, PartialEq, Eq, Structural)]
pub enum Dir {
    Out,
    In,
    Both,
}

impl Dir {
    /// The same relationships seen from the other endpoint.
    pub open spec fn flip(self) -> Dir {
        match self {
            Dir::Out => Dir::In,
            Dir::In => Dir::Out,
            Dir::Both => Dir::Both,
        }
    }

    /// The same relationships seen from the other endpoint.
    pub fn flipped(self) -> (d: Dir)
        ensures
            d == self.flip(),
    {
        match self {
            Dir::Out => Dir::In,
            Dir::In => Dir::Out,
            Dir::Both => Dir::Both,
        }
    }
}

/// Whether a bound variable is a node or a relationship.
#[derive(Clone, Copy, Debug, PartialEq, Eq, Structural)]
pub enum VarKind {
    Node,
    Rel,
}

/// One adjacency entry: the node at the other end, the relationship and its type.
#[derive(Clone, Copy, Debug, PartialEq, Eq, Structural)]
pub struct Adj {
    pub peer: u64,
    pub rel: u64,
    pub typ: u32,
}

/// Why a statement is refused.
#[derive(Clone, Debug)]
pub enum RunError {
    /// More rows than the row budget allows.
    RowBudget,
    /// A semantic refusal, with its message.
    Semantic(String),
}

/// A property graph.
pub struct Graph {
    /// `out[n]`: the relationships that leave node `n`.
    pub out: Vec<Vec<Adj>>,
    /// `into[n]`: the relationships that enter node `n`.
    pub into: Vec<Vec<Adj>>,
    /// `labels[n]`: the labels of node `n`.
    pub labels: Vec<Vec<String>>,
    /// `types[t]`: the name of type token `t`.
    pub types: Vec<String>,
    /// The next relationship id.
    pub next_rel: u64,
    /// How many rows one operator may produce.
    pub row_budget: Option<usize>,
    /// Whether a directed close is probed from its bound end.
    pub directed_bound_probe: bool,
}

/// The type tokens of a hop as a sequence; `None` admits every type.
pub open spec fn tokens_view(t: Option<Vec<u32>>) -> Option<Seq<u32>> {
    match t {
        None => None,
        Some(v) => Some(v@),
    }
}

/// Whether a token list admits a type.
pub open spec fn admits(t: Option<Seq<u32>>, typ: u32) -> bool {
    t matches Some(s) ==> s.contains(typ)
}

/// Whether a member set admits a node; no set admits every node.
pub open spec fn is_member(m: Option<Set<u64>>, node: u64) -> bool {
    m matches Some(s) ==> s.contains(node)
}

/// The member set that an optional list stands for.
pub open spec fn members_view(m: Option<&BTreeSet<u64>>) -> Option<Set<u64>> {
    match m {
        None => None,
        Some(s) => Some(s@),
    }
}

/// The adjacency row of a node; a node without one has no relationships.
pub open spec fn row_of(side: Seq<Vec<Adj>>, node: u64) -> Seq<Adj> {
    if node < side.len() {
        side[node as int]@
    } else {
        Seq::empty()
    }
}

/// The entries of a row whose type is admitted.
pub open spec fn typed(row: Seq<Adj>, t: Option<Seq<u32>>) -> Seq<Adj> {
    row.filter(|e: Adj| admits(t, e.typ))
}

/// The `(relationship, type)` pairs of a row that lead to `peer`.
pub open spec fn strip(row: Seq<Adj>, peer: u64) -> Seq<(u64, u32)>
    decreases row.len(),
{
    if row.len() == 0 {
        Seq::empty()
    } else if row.last().peer == peer {
        strip(row.drop_last(), peer).push((row.last().rel, row.last().typ))
    } else {
        strip(row.drop_last(), peer)
    }
}

/// How many entries lead to `want` over a relationship outside `used`.
pub open spec fn closing(es: Seq<Adj>, want: u64, used: Seq<u64>) -> nat
    decreases es.len(),
{
    if es.len() == 0 {
        0
    } else {
        closing(es.drop_last(), want, used) + if es.last().peer == want && !used.contains(
            es.last().rel,
        ) {
            1nat
        } else {
            0nat
        }
    }
}

impl Graph {
    /// The relationships of `node` in a direction, in visiting order. An
    /// undirected hop visits those that leave, then those that enter, and
    /// meets a self-loop once.
    pub open spec fn adj(self, node: u64, dir: Dir, t: Option<Seq<u32>>) -> Seq<Adj> {
        match dir {
            Dir::Out => typed(row_of(self.out@, node), t),
            Dir::In => typed(row_of(self.into@, node), t),
            Dir::Both => typed(row_of(self.out@, node), t) + typed(
                row_of(self.into@, node),
                t,
            ).filter(|e: Adj| e.peer != node),
        }
    }

    /// Whether `n` rows are more than the budget allows.
    pub open spec fn over_budget(self, n: int) -> bool {
        self.row_budget matches Some(b) && n > b
    }

    /// Entry `i` of the row of node `n` on one side.
    pub open spec fn entry(self, outgoing: bool, n: int, i: int) -> Adj {
        if outgoing {
            self.out@[n]@[i]
        } else {
            self.into@[n]@[i]
        }
    }

    /// `(n, i)` names an entry on one side.
    pub open spec fn has_entry(self, outgoing: bool, n: int, i: int) -> bool {
        if outgoing {
            0 <= n < self.out@.len() && 0 <= i < self.out@[n]@.len()
        } else {
            0 <= n < self.into@.len() && 0 <= i < self.into@[n]@.len()
        }
    }

    /// Each relationship is listed at both of its ends, has one type, and its
    /// type has one name.
    pub open spec fn wf(self) -> bool {
        &&& self.out@.len() == self.labels@.len()
        &&& self.into@.len() == self.labels@.len()
        &&& self.types@.len() <= u32::MAX
        &&& names::of(self.types@).no_duplicates()
        &&& forall|a: u64, b: u64| #[trigger]
            strip(row_of(self.out@, a), b) == #[trigger] strip(row_of(self.into@, b), a)
        &&& forall|s: bool, n: int, i: int| #[trigger]
            self.has_entry(s, n, i) ==> self.entry(s, n, i).rel < self.next_rel
                && self.entry(s, n, i).typ < self.types@.len()
        &&& forall|s1: bool, n1: int, i1: int, s2: bool, n2: int, i2: int|
            #![trigger self.has_entry(s1, n1, i1), self.has_entry(s2, n2, i2)]
            self.has_entry(s1, n1, i1) && self.has_entry(s2, n2, i2) && self.entry(
                s1,
                n1,
                i1,
            ).rel == self.entry(s2, n2, i2).rel ==> self.entry(s1, n1, i1).typ == self.entry(
                s2,
                n2,
                i2,
            ).typ
    }

    /// Whether a relationship of the graph has a type that `t` admits.
    pub open spec fn rel_typed(self, rel: u64, t: Option<Seq<u32>>) -> bool {
        exists|s: bool, n: int, i: int| #[trigger]
            self.has_entry(s, n, i) && self.entry(s, n, i).rel == rel && admits(
                t,
                self.entry(s, n, i).typ,
            )
    }

    /// Whether node `n` carries a label.
    pub open spec fn labelled(self, n: int, label: Seq<char>) -> bool {
        0 <= n < self.labels@.len() && names::of(self.labels@[n]@).contains(label)
    }

    /// Whether node `n` carries every label of a list.
    pub open spec fn labelled_all(self, n: int, labels: Seq<Seq<char>>) -> bool {
        &&& 0 <= n < self.labels@.len()
        &&& forall|i: int| 0 <= i < labels.len() ==> self.labelled(n, #[trigger] labels[i])
    }

    /// How many of the first `n` nodes carry a label.
    pub open spec fn label_count(self, label: Seq<char>, n: nat) -> nat
        decreases n,
    {
        if n == 0 {
            0
        } else {
            self.label_count(label, (n - 1) as nat) + if self.labelled(n - 1, label) {
                1nat
            } else {
                0nat
            }
        }
    }

    /// The tokens of the named types, in the given order; names never used as
    /// a type have none.
    pub open spec fn tokens_of(self, types: Seq<Seq<char>>) -> Seq<u32>
        decreases types.len(),
    {
        if types.len() == 0 {
            Seq::empty()
        } else {
            match names::position(names::of(self.types@), types.last()) {
                Some(i) => self.tokens_of(types.drop_last()).push(i as u32),
                None => self.tokens_of(types.drop_last()),
            }
        }
    }

    /// The token list of a hop: `None` when it names no type.
    pub open spec fn type_tokens(self, types: Seq<Seq<char>>) -> Option<Seq<u32>> {
        if types.len() == 0 {
            None
        } else {
            Some(self.tokens_of(types))
        }
    }
}

proof fn lemma_closing_add(a: Seq<Adj>, b: Seq<Adj>, want: u64, used: Seq<u64>)
    ensures
        closing(a + b, want, used) == closing(a, want, used) + closing(b, want, used),
    decreases b.len(),
{
    if b.len() == 0 {
        assert(a + b =~= a);
    } else {
        assert((a + b).drop_last() =~= a + b.drop_last());
        assert((a + b).last() == b.last());
        lemma_closing_add(a, b.drop_last(), want, used);
    }
}

/// The number of pairs whose type is admitted and whose relationship is outside `used`.
spec fn open_pairs(ps: Seq<(u64, u32)>, t: Option<Seq<u32>>, used: Seq<u64>) -> nat
    decreases ps.len(),
{
    if ps.len() == 0 {
        0
    } else {
        open_pairs(ps.drop_last(), t, used) + if admits(t, ps.last().1) && !used.contains(
            ps.last().0,
        ) {
            1nat
        } else {
            0nat
        }
    }
}

proof fn lemma_closing_typed(row: Seq<Adj>, t: Option<Seq<u32>>, want: u64, used: Seq<u64>)
    ensures
        closing(typed(row, t), want, used) == open_pairs(strip(row, want), t, used),
    decreases row.len(),
{
    let p = |e: Adj| admits(t, e.typ);
    seqs::lemma_filter_empty(p);
    if row.len() == 0 {
        assert(row =~= Seq::empty());
    } else {
        lemma_closing_typed(row.drop_last(), t, want, used);
        seqs::lemma_filter_last(row, p);
        let d = typed(row.drop_last(), t);
        if admits(t, row.last().typ) {
            assert(typed(row, t) == d.push(row.last()));
            assert(d.push(row.last()).drop_last() =~= d);
        } else {
            assert(typed(row, t) == d);
        }
        if row.last().peer == want {
            let sd = strip(row.drop_last(), want);
            assert(sd.push((row.last().rel, row.last().typ)).drop_last() =~= sd);
        }
    }
}

proof fn lemma_closing_other(es: Seq<Adj>, node: u64, want: u64, used: Seq<u64>)
    ensures
        closing(es.filter(|e: Adj| e.peer != node), want, used) == if want == node {
            0
        } else {
            closing(es, want, used)
        },
    decreases es.len(),
{
    let p = |e: Adj| e.peer != node;
    seqs::lemma_filter_empty(p);
    if es.len() == 0 {
        assert(es =~= Seq::empty());
    } else {
        lemma_closing_other(es.drop_last(), node, want, used);
        seqs::lemma_filter_last(es, p);
        let d = es.drop_last().filter(p);
        if es.last().peer != node {
            assert(es.filter(p) == d.push(es.last()));
            assert(d.push(es.last()).drop_last() =~= d);
        } else {
            assert(es.filter(p) == d);
        }
    }
}

/// The relationships between two nodes are the same ones from either end: the
/// count from `a` to `b` is the count from `b` to `a` in the flipped
/// direction, whatever relationships are set aside.
pub proof fn law_bound_probe(
    g: Graph,
    a: u64,
    b: u64,
    dir: Dir,
    t: Option<Seq<u32>>,
    used: Seq<u64>,
)
    requires
        g.wf(),
    ensures
        closing(g.adj(a, dir, t), b, used) == closing(g.adj(b, dir.flip(), t), a, used),
{
    let oa = row_of(g.out@, a);
    let ob = row_of(g.out@, b);
    let ia = row_of(g.into@, a);
    let ib = row_of(g.into@, b);
    assert(strip(oa, b) == strip(ib, a));
    assert(strip(ob, a) == strip(ia, b));
    lemma_closing_typed(oa, t, b, used);
    lemma_closing_typed(ib, t, a, used);
    lemma_closing_typed(ob, t, a, used);
    lemma_closing_typed(ia, t, b, used);
    if dir == Dir::Both {
        let ra = typed(ia, t).filter(|e: Adj| e.peer != a);
        let rb = typed(ib, t).filter(|e: Adj| e.peer != b);
        lemma_closing_add(typed(oa, t), ra, b, used);
        lemma_closing_add(typed(ob, t), rb, a, used);
        lemma_closing_other(typed(ia, t), a, b, used);
        lemma_closing_other(typed(ib, t), b, a, used);
    }
}

/// Whether a type token is admitted.
pub fn token_admits(tokens: &Option<Vec<u32>>, typ: u32) -> (b: bool)
    ensures
        b == admits(tokens_view(*tokens), typ),
{
    match tokens {
        None => true,
        Some(v) => {
            let mut i: usize = 0;
            while i < v.len()
                invariant
                    i <= v.len(),
                    tokens_view(*tokens) == Some(v@),
                    forall|j: int| 0 <= j < i ==> v@[j] != typ,
                decreases v.len() - i,
            {
                if v[i] == typ {
                    return true;
                }
                i = i + 1;
            }
            false
        },
    }
}

/// Whether a member set admits a node.
pub fn member_admits(m: Option<&BTreeSet<u64>>, node: u64) -> (b: bool)
    ensures
        b == is_member(members_view(m), node),
{
    match m {
        None => true,
        Some(s) => s.contains(&node),
    }
}

/// Append the admitted entries of a row, leaving out those that lead to `skip`.
fn push_typed(out: &mut Vec<Adj>, row: &Vec<Adj>, tokens: &Option<Vec<u32>>, skip: Option<u64>)
    ensures
        skip is None ==> final(out)@ == old(out)@ + typed(row@, tokens_view(*tokens)),
        skip matches Some(n) ==> final(out)@ == old(out)@ + typed(
            row@,
            tokens_view(*tokens),
        ).filter(|e: Adj| e.peer != n),
{
    let ghost t = tokens_view(*tokens);
    let ghost p = |e: Adj| admits(t, e.typ);
    let ghost q = |e: Adj| e.peer != skip->0;
    let mut i: usize = 0;
    proof {
        assert(row@.take(0) =~= Seq::<Adj>::empty());
        seqs::lemma_filter_empty(p);
        seqs::lemma_filter_empty(q);
        assert(out@ =~= old(out)@ + typed(row@.take(0), t));
        assert(out@ =~= old(out)@ + typed(row@.take(0), t).filter(q));
    }
    while i < row.len()
        invariant
            i <= row.len(),
            t == tokens_view(*tokens),
            p == (|e: Adj| admits(t, e.typ)),
            q == (|e: Adj| e.peer != skip->0),
            skip is None ==> out@ == old(out)@ + typed(row@.take(i as int), t),
            skip is Some ==> out@ == old(out)@ + typed(row@.take(i as int), t).filter(q),
        decreases row.len() - i,
    {
        let e = row[i];
        let ghost before = row@.take(i as int);
        let ghost after = row@.take(i + 1);
        proof {
            seqs::lemma_take_last(row@, i as int);
            seqs::lemma_filter_last(after, p);
            if typed(after, t).len() > 0 {
                seqs::lemma_filter_last(typed(after, t), q);
            }
            if p(e) {
                assert(typed(after, t) == typed(before, t).push(e));
                assert(typed(after, t).drop_last() =~= typed(before, t));
            } else {
                assert(typed(after, t) == typed(before, t));
            }
        }
        if token_admits(tokens, e.typ) {
            let keep = match skip {
                None => true,
                Some(n) => e.peer != n,
            };
            if keep {
                out.push(e);
                proof {
                    if skip is None {
                        assert(out@ =~= old(out)@ + typed(after, t));
                    } else {
                        assert(typed(after, t).filter(q) == typed(before, t).filter(q).push(e));
                        assert(out@ =~= old(out)@ + typed(after, t).filter(q));
                    }
                }
            }
        }
        i = i + 1;
    }
    proof {
        assert(row@.take(i as int) =~= row@);
    }
}

impl Graph {
    /// A graph without nodes, types or a row budget.
    pub fn new() -> (g: Graph)
        ensures
            g.wf(),
            g.labels@.len() == 0,
            g.types@.len() == 0,
            g.next_rel == 0,
            g.row_budget is None,
            !g.directed_bound_probe,
    {
        let g = Graph {
            out: Vec::new(),
            into: Vec::new(),
            labels: Vec::new(),
            types: Vec::new(),
            next_rel: 0,
            row_budget: None,
            directed_bound_probe: false,
        };
        proof {
            assert forall|a: u64, b: u64| #[trigger]
                strip(row_of(g.out@, a), b) == #[trigger] strip(row_of(g.into@, b), a) by {
                assert(strip(Seq::<Adj>::empty(), b) =~= Seq::empty());
                assert(strip(Seq::<Adj>::empty(), a) =~= Seq::empty());
            }
        }
        g
    }

    /// Fail when `n` rows are more than the budget allows.
    pub fn budget_check(&self, n: usize) -> (r: Result<(), RunError>)
        ensures
            r is Ok <==> !self.over_budget(n as int),
            r matches Err(e) ==> e == RunError::RowBudget,
    {
        match self.row_budget {
            Some(b) => if n > b {
                Err(RunError::RowBudget)
            } else {
                Ok(())
            },
            None => Ok(()),
        }
    }

    /// Fail when `a + b` rows are more than the budget allows.
    pub fn budget_check_sum(&self, a: usize, b: usize) -> (r: Result<(), RunError>)
        ensures
            r is Ok <==> !self.over_budget(a + b),
            r matches Err(e) ==> e == RunError::RowBudget,
    {
        match self.row_budget {
            Some(m) => if a > m || b > m - a {
                Err(RunError::RowBudget)
            } else {
                Ok(())
            },
            None => Ok(()),
        }
    }

    /// The relationships of `node` in a direction, in visiting order.
    pub fn adjacent(&self, node: u64, dir: Dir, tokens: &Option<Vec<u32>>) -> (r: Vec<Adj>)
        ensures
            r@ == self.adj(node, dir, tokens_view(*tokens)),
    {
        let ghost t = tokens_view(*tokens);
        let mut out: Vec<Adj> = Vec::new();
        proof {
            seqs::lemma_filter_empty(|e: Adj| admits(t, e.typ));
            seqs::lemma_filter_empty(|e: Adj| e.peer != node);
        }
        if matches!(dir, Dir::Out) || matches!(dir, Dir::Both) {
            if node < self.out.len() as u64 {
                push_typed(&mut out, &self.out[node as usize], tokens, None);
            }
            assert(out@ =~= typed(row_of(self.out@, node), t));
        }
        if matches!(dir, Dir::In) || matches!(dir, Dir::Both) {
            let skip = if matches!(dir, Dir::Both) {
                Some(node)
            } else {
                None
            };
            if node < self.into.len() as u64 {
                push_typed(&mut out, &self.into[node as usize], tokens, skip);
            }
            proof {
                if dir == Dir::In {
                    assert(out@ =~= typed(row_of(self.into@, node), t));
                } else {
                    assert(out@ =~= typed(row_of(self.out@, node), t) + typed(
                        row_of(self.into@, node),
                        t,
                    ).filter(|e: Adj| e.peer != node));
                }
            }
        }
        out
    }

    /// How many relationships lead from `a` to `b`, leaving out those in `used`.
    pub fn count_edges(
        &self,
        a: u64,
        dir: Dir,
        tokens: &Option<Vec<u32>>,
        b: u64,
        used: &Vec<u64>,
    ) -> (n: u64)
        ensures
            n == closing(self.adj(a, dir, tokens_view(*tokens)), b, used@),
    {
        let es = self.adjacent(a, dir, tokens);
        let mut n: u64 = 0;
        let mut i: usize = 0;
        while i < es.len()
            invariant
                i <= es.len(),
                n <= i,
                n == closing(es@.take(i as int), b, used@),
            decreases es.len() - i,
        {
            proof {
                assert(es@.take(i + 1).drop_last() =~= es@.take(i as int));
                assert(es@.take(i + 1).last() == es@[i as int]);
            }
            if es[i].peer == b && !has_id(used, es[i].rel) {
                n = n + 1;
            }
            i = i + 1;
        }
        proof {
            assert(es@.take(i as int) =~= es@);
        }
        n
    }

    /// How many relationships lead from `a` to `b`.
    pub fn edge_count_slim(&self, a: u64, dir: Dir, tokens: &Option<Vec<u32>>, b: u64) -> (n: u64)
        ensures
            n == closing(self.adj(a, dir, tokens_view(*tokens)), b, Seq::empty()),
    {
        let none: Vec<u64> = Vec::new();
        self.count_edges(a, dir, tokens, b, &none)
    }

    /// The token list of a hop: `None` when it names no type.
    pub fn type_tokens_peek(&self, types: &Vec<String>) -> (r: Option<Vec<u32>>)
        requires
            self.types@.len() <= u32::MAX,
        ensures
            tokens_view(r) == self.type_tokens(names::of(types@)),
    {
        if types.len() == 0 {
            return None;
        }
        let mut out: Vec<u32> = Vec::new();
        let mut i: usize = 0;
        while i < types.len()
            invariant
                i <= types.len(),
                self.types@.len() <= u32::MAX,
                out@ == self.tokens_of(names::of(types@).take(i as int)),
            decreases types.len() - i,
        {
            proof {
                assert(names::of(types@).take(i + 1).drop_last() =~= names::of(types@).take(i as int));
                assert(names::of(types@).take(i + 1).last() == types@[i as int]@);
            }
            match name_index(&self.types, &types[i]) {
                Some(k) => out.push(k as u32),
                None => {},
            }
            i = i + 1;
        }
        proof {
            assert(names::of(types@).take(i as int) =~= names::of(types@));
        }
        Some(out)
    }

    /// How many nodes there are.
    pub fn count_all_nodes(&self) -> (n: u64)
        ensures
            n == self.labels@.len(),
    {
        self.labels.len() as u64
    }

    /// How many nodes carry a label.
    pub fn count_label_nodes(&self, label: &String) -> (n: u64)
        ensures
            n == self.label_count(label@, self.labels@.len()),
    {
        let mut n: u64 = 0;
        let mut i: usize = 0;
        while i < self.labels.len()
            invariant
                i <= self.labels.len(),
                n <= i,
                n == self.label_count(label@, i as nat),
            decreases self.labels.len() - i,
        {
            if has_name(&self.labels[i], label) {
                n = n + 1;
            }
            i = i + 1;
        }
        n
    }

    /// The nodes that carry every label of a list.
    pub fn members_all(&self, labels: &Vec<String>) -> (r: BTreeSet<u64>)
        ensures
            forall|n: u64| #[trigger] r@.contains(n) <==> self.labelled_all(n as int, names::of(labels@)),
    {
        let mut r: BTreeSet<u64> = BTreeSet::new();
        let mut i: usize = 0;
        while i < self.labels.len()
            invariant
                i <= self.labels.len(),
                forall|n: u64| #[trigger]
                    r@.contains(n) <==> n < i && self.labelled_all(n as int, names::of(labels@)),
            decreases self.labels.len() - i,
        {
            let mut all = true;
            let mut k: usize = 0;
            while k < labels.len()
                invariant
                    k <= labels.len(),
                    i < self.labels.len(),
                    all <==> forall|j: int|
                        0 <= j < k ==> self.labelled(i as int, #[trigger] names::of(labels@)[j]),
                decreases labels.len() - k,
            {
                if !has_name(&self.labels[i], &labels[k]) {
                    proof {
                        assert(!self.labelled(i as int, names::of(labels@)[k as int]));
                    }
                    all = false;
                }
                k = k + 1;
            }
            if all {
                r.insert(i as u64);
            }
            i = i + 1;
        }
        r
    }
}

} // verus!
