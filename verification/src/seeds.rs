//! The nodes that a scan starts from.

use std::collections::BTreeSet;

use vstd::prelude::*;

use crate::chain_rows::seed_rows;
use crate::chunk;
use crate::chunk::HopV;
use crate::graph::{Adj, Dir, Graph};
use crate::hop::Hop;
use crate::names;
use crate::names::{copy_names, has_name};
use crate::plan::{AggPlan, CorePlan};
use crate::preds::{Chain, ChainV};
use crate::select::ascending;
use crate::seqs;
use crate::sizes;
use crate::sizes::label_set_count;

verus! {

broadcast use {vstd::std_specs::btree::group_btree_axioms, vstd::laws_cmp::group_laws_cmp};

/// The first `n` nodes as far as they carry every label of a list, ascending.
pub open spec fn scan_upto(g: Graph, labels: Seq<Seq<char>>, n: nat) -> Seq<u64>
    decreases n,
{
    if n == 0 {
        Seq::empty()
    } else {
        let s = scan_upto(g, labels, (n - 1) as nat);
        if g.labelled_all(n - 1, labels) {
            s.push((n - 1) as u64)
        } else {
            s
        }
    }
}

/// The nodes that carry every label of a list, ascending.
pub open spec fn scan(g: Graph, labels: Seq<Seq<char>>) -> Seq<u64> {
    scan_upto(g, labels, g.labels@.len())
}

proof fn lemma_scan_upto(g: Graph, labels: Seq<Seq<char>>, n: nat)
    requires
        n <= g.labels@.len(),
        g.labels@.len() <= u64::MAX,
    ensures
        ascending(scan_upto(g, labels, n)),
        forall|x: u64| #[trigger]
            scan_upto(g, labels, n).contains(x) <==> x < n && g.labelled_all(x as int, labels),
    decreases n,
{
    if n > 0 {
        let p = scan_upto(g, labels, (n - 1) as nat);
        let s = scan_upto(g, labels, n);
        lemma_scan_upto(g, labels, (n - 1) as nat);
        assert forall|i: int, j: int| 0 <= i < j < s.len() implies s[i] < s[j] by {
            if j == p.len() {
                assert(p.contains(p[i]));
            }
        }
        assert forall|x: u64| #[trigger] s.contains(x) <==> x < n && g.labelled_all(
            x as int,
            labels,
        ) by {
            if s != p {
                crate::seqs::lemma_push_contains(p, (n - 1) as u64, x);
            }
        }
    }
}

/// A scan finds every node that carries the labels, once and in order.
pub proof fn law_scan_is_complete(g: Graph, labels: Seq<Seq<char>>)
    requires
        g.labels@.len() <= u64::MAX,
    ensures
        ascending(scan(g, labels)),
        forall|x: u64| #[trigger]
            scan(g, labels).contains(x) <==> g.labelled_all(x as int, labels),
{
    lemma_scan_upto(g, labels, g.labels@.len());
}

/// The nodes that carry every label of a list, ascending.
pub fn scan_ids(g: &Graph, labels: &Vec<String>) -> (r: Vec<u64>)
    ensures
        r@ == scan(*g, names::of(labels@)),
        g.labels@.len() <= u64::MAX,
{
    let mut r: Vec<u64> = Vec::new();
    let mut i: usize = 0;
    assert(g.labels@.len() == g.labels.len());
    while i < g.labels.len()
        invariant
            i <= g.labels@.len(),
            r@ == scan_upto(*g, names::of(labels@), i as nat),
        decreases g.labels.len() - i,
    {
        let mut all = true;
        let mut k: usize = 0;
        while k < labels.len()
            invariant
                k <= labels.len(),
                i < g.labels@.len(),
                all <==> forall|j: int|
                    0 <= j < k ==> g.labelled(i as int, #[trigger] names::of(labels@)[j]),
            decreases labels.len() - k,
        {
            if !has_name(&g.labels[i], &labels[k]) {
                assert(!g.labelled(i as int, names::of(labels@)[k as int]));
                all = false;
            }
            k = k + 1;
        }
        if all {
            r.push(i as u64);
        }
        i = i + 1;
    }
    r
}

/// The nodes that the labels of a hop's end admit; without labels, all.
pub open spec fn end_members(g: Graph, labels: Seq<Seq<char>>) -> Option<Set<u64>> {
    if labels.len() == 0 {
        None
    } else {
        Some(Set::new(|n: u64| g.labelled_all(n as int, labels)))
    }
}

/// The nodes that the labels of a hop's end admit; without labels, all.
pub fn end_set(g: &Graph, labels: &Vec<String>) -> (r: Option<BTreeSet<u64>>)
    ensures
        match r {
            Some(s) => end_members(*g, names::of(labels@)) == Some(s@),
            None => end_members(*g, names::of(labels@)) is None,
        },
{
    if labels.len() == 0 {
        None
    } else {
        let s = g.members_all(labels);
        assert(s@ =~= end_members(*g, names::of(labels@))->0);
        Some(s)
    }
}

/// How many relationships leave the first `n` nodes in a direction.
pub open spec fn edge_total(g: Graph, dir: Dir, tokens: Option<Seq<u32>>, n: nat) -> nat
    decreases n,
{
    if n == 0 {
        0
    } else {
        edge_total(g, dir, tokens, (n - 1) as nat) + g.adj((n - 1) as u64, dir, tokens).len()
    }
}

/// A type is sparse when a label has more than this many nodes for each of its
/// relationships.
pub const SEED_FROM_TABLE_RATIO: u64 = 16;

/// Whether a first step can seed the chain: it goes one way from the start over
/// named types to a new node.
pub open spec fn seeds_chain(h: Hop) -> bool {
    h.src == 0 && h.types@.len() > 0 && h.varlen is None && h.tgt is None && h.dir != Dir::Both
}

/// The nodes of a scan that a first step can leave, where its types are sparse.
/// Nothing where there is no relationship to take.
pub open spec fn table_seed(
    g: Graph,
    labels: Seq<Seq<char>>,
    hops: Seq<Hop>,
    tables: bool,
) -> Option<Seq<u64>> {
    if hops.len() == 0 || !seeds_chain(hops[0]) || labels.len() == 0 {
        None
    } else {
        let h = hops[0];
        let t = g.type_tokens(names::of(h.types@));
        let edges = edge_total(g, h.dir, t, g.labels@.len());
        if edges == 0 {
            Some(Seq::empty())
        } else if edges * SEED_FROM_TABLE_RATIO >= sizes::set_count(g, labels) || !tables {
            None
        } else {
            Some(scan(g, labels).filter(|n: u64| g.adj(n, h.dir, t).len() > 0))
        }
    }
}

fn count_edges(g: &Graph, dir: Dir, tokens: &Option<Vec<u32>>) -> (r: u64)
    ensures
        ({
            let n = edge_total(
                *g,
                dir,
                crate::graph::tokens_view(*tokens),
                g.labels@.len(),
            );
            r == if n <= u64::MAX {
                n as u64
            } else {
                u64::MAX
            }
        }),
{
    let ghost t = crate::graph::tokens_view(*tokens);
    let mut r: u64 = 0;
    let mut i: usize = 0;
    while i < g.labels.len()
        invariant
            i <= g.labels@.len(),
            t == crate::graph::tokens_view(*tokens),
            r == if edge_total(*g, dir, t, i as nat) <= u64::MAX {
                edge_total(*g, dir, t, i as nat) as u64
            } else {
                u64::MAX
            },
        decreases g.labels.len() - i,
    {
        let es = g.adjacent(i as u64, dir, tokens);
        r = r.saturating_add(es.len() as u64);
        i = i + 1;
    }
    r
}

/// The nodes of a list that a relationship leaves.
fn with_edges(g: &Graph, ids: &Vec<u64>, dir: Dir, tokens: &Option<Vec<u32>>) -> (r: Vec<u64>)
    ensures
        r@ == ids@.filter(
            |n: u64| g.adj(n, dir, crate::graph::tokens_view(*tokens)).len() > 0,
        ),
{
    let ghost t = crate::graph::tokens_view(*tokens);
    let ghost f = |n: u64| g.adj(n, dir, t).len() > 0;
    let mut r: Vec<u64> = Vec::new();
    let mut i: usize = 0;
    proof {
        assert(ids@.take(0) =~= Seq::empty());
        seqs::lemma_filter_empty(f);
    }
    while i < ids.len()
        invariant
            i <= ids@.len(),
            t == crate::graph::tokens_view(*tokens),
            f == (|n: u64| g.adj(n, dir, t).len() > 0),
            r@ == ids@.take(i as int).filter(f),
        decreases ids.len() - i,
    {
        proof {
            seqs::lemma_take_last(ids@, i as int);
            seqs::lemma_filter_last(ids@.take(i + 1), f);
        }
        let es = g.adjacent(ids[i], dir, tokens);
        if es.len() > 0 {
            assert(f(ids@[i as int]));
            r.push(ids[i]);
        } else {
            assert(!f(ids@[i as int]));
        }
        i = i + 1;
    }
    assert(ids@.take(i as int) =~= ids@);
    r
}

/// Ids that may be missing.
pub open spec fn ids_opt(r: Option<Vec<u64>>) -> Option<Seq<u64>> {
    match r {
        Some(r) => Some(r@),
        None => None,
    }
}

/// The nodes of a scan that a first step can leave, where its types are sparse.
pub fn hop_table_seed(g: &Graph, labels: &Vec<String>, hops: &Vec<Hop>, tables: bool) -> (r: Option<
    Vec<u64>,
>)
    requires
        g.wf(),
    ensures
        ids_opt(r) == table_seed(*g, names::of(labels@), hops@, tables),
{
    if hops.len() == 0 || labels.len() == 0 {
        return None;
    }
    let h = &hops[0];
    if h.src != 0 || h.types.len() == 0 || h.varlen.is_some() || h.tgt.is_some() || h.dir
        == Dir::Both {
        return None;
    }
    let tokens = g.type_tokens_peek(&h.types);
    let edges = count_edges(g, h.dir, &tokens);
    if edges == 0 {
        return Some(Vec::new());
    }
    let members = label_set_count(g, labels);
    if (edges as u128) * (SEED_FROM_TABLE_RATIO as u128) >= members as u128 || !tables {
        return None;
    }
    let ids = scan_ids(g, labels);
    Some(with_edges(g, &ids, h.dir, &tokens))
}

proof fn lemma_no_edges(g: Graph, dir: Dir, t: Option<Seq<u32>>, n: nat, x: u64)
    requires
        edge_total(g, dir, t, n) == 0,
        x < n,
        n <= u64::MAX,
    ensures
        g.adj(x, dir, t).len() == 0,
    decreases n,
{
    if x < n - 1 {
        lemma_no_edges(g, dir, t, (n - 1) as nat, x);
    }
}

proof fn lemma_seed_edges(g: Graph, h: HopV, ids: Seq<u64>)
    requires
        h.src == 0,
    ensures
        chunk::expand_rows(
            g,
            h,
            seed_rows(ids.filter(|n: u64| g.adj(n, h.dir, h.tokens).len() > 0)),
        ) == chunk::expand_rows(g, h, seed_rows(ids)),
    decreases ids.len(),
{
    let f = |n: u64| g.adj(n, h.dir, h.tokens).len() > 0;
    if ids.len() == 0 {
        seqs::lemma_filter_empty(f);
        assert(ids =~= Seq::empty());
    } else {
        let p = ids.drop_last();
        let n = ids.last();
        lemma_seed_edges(g, h, p);
        seqs::lemma_filter_last(ids, f);
        assert(seed_rows(ids).drop_last() =~= seed_rows(p));
        let row = seed_rows(ids).last();
        assert(row.ids =~= seq![n]);
        if f(n) {
            let k = p.filter(f).push(n);
            assert(seed_rows(k).drop_last() =~= seed_rows(p.filter(f)));
            assert(seed_rows(k).last() == row);
        } else {
            let base = chunk::base_of(row, h.track, h.reset);
            let es = g.adj(n, h.dir, h.tokens).reverse();
            let keep = |e: Adj| chunk::expand_keeps(h, base, e);
            let make = |e: Adj| chunk::expand_makes(h, row, base, e);
            seqs::lemma_keep_map_empty(es, keep, make);
            assert(es.take(0) =~= es);
            assert(chunk::expand_rows(g, h, seed_rows(ids)) =~= chunk::expand_rows(
                g,
                h,
                seed_rows(p),
            ));
        }
    }
}

/// Seeding a chain with the nodes that its first step can leave makes the same
/// rows of that step as seeding it with the whole scan.
pub proof fn law_table_seed_is_scan(
    g: Graph,
    labels: Seq<Seq<char>>,
    hops: Seq<Hop>,
    tables: bool,
    h: HopV,
)
    requires
        g.labels@.len() <= u64::MAX,
        table_seed(g, labels, hops, tables) is Some,
        h.src == 0,
        h.dir == hops[0].dir,
        h.tokens == g.type_tokens(names::of(hops[0].types@)),
    ensures
        chunk::expand_rows(g, h, seed_rows(table_seed(g, labels, hops, tables)->0))
            == chunk::expand_rows(g, h, seed_rows(scan(g, labels))),
{
    let ids = scan(g, labels);
    let f = |n: u64| g.adj(n, h.dir, h.tokens).len() > 0;
    lemma_seed_edges(g, h, ids);
    if edge_total(g, h.dir, h.tokens, g.labels@.len()) == 0 {
        law_scan_is_complete(g, labels);
        assert(ids.filter(f) =~= Seq::empty()) by {
            if ids.filter(f).len() > 0 {
                let x = ids.filter(f)[0];
                assert(ids.filter(f).contains(x));
                seqs::lemma_filter_contains(ids, f, x);
                lemma_no_edges(g, h.dir, h.tokens, g.labels@.len(), x);
            }
        }
    }
}

/// The ids of a list that carry every label of a list, in their order.
pub fn within_labels(g: &Graph, labels: &Vec<String>, ids: &Vec<u64>) -> (r: Vec<u64>)
    ensures
        r@ == ids@.filter(|n: u64| g.labelled_all(n as int, names::of(labels@))),
{
    let members = g.members_all(labels);
    let ghost f = |n: u64| g.labelled_all(n as int, names::of(labels@));
    let mut r: Vec<u64> = Vec::new();
    let mut i: usize = 0;
    proof {
        assert(ids@.take(0) =~= Seq::empty());
        seqs::lemma_filter_empty(f);
    }
    while i < ids.len()
        invariant
            i <= ids@.len(),
            f == (|n: u64| g.labelled_all(n as int, names::of(labels@))),
            forall|n: u64| #[trigger]
                members@.contains(n) <==> g.labelled_all(n as int, names::of(labels@)),
            r@ == ids@.take(i as int).filter(f),
        decreases ids.len() - i,
    {
        proof {
            seqs::lemma_take_last(ids@, i as int);
            seqs::lemma_filter_last(ids@.take(i + 1), f);
        }
        if members.contains(&ids[i]) {
            assert(f(ids@[i as int]));
            r.push(ids[i]);
        } else {
            assert(!f(ids@[i as int]));
        }
        i = i + 1;
    }
    assert(ids@.take(i as int) =~= ids@);
    r
}

/// The ids that a chain is seeded from. What a look-up by a property found is
/// cut to the labels; without it the labels are scanned.
pub fn anchored_seed_ids(g: &Graph, labels: &Vec<String>, found: Option<&Vec<u64>>) -> (r: Vec<u64>)
    ensures
        r@ == match found {
            Some(ids) => ids@.filter(|n: u64| g.labelled_all(n as int, names::of(labels@))),
            None => scan(*g, names::of(labels@)),
        },
{
    match found {
        Some(ids) => within_labels(g, labels, ids),
        None => scan_ids(g, labels),
    }
}

/// The ids that a chain starts at: the sources of a sparse first step, else
/// what a look-up found, else the scan.
pub open spec fn starts(
    g: Graph,
    labels: Seq<Seq<char>>,
    hops: Seq<Hop>,
    found: Option<Seq<u64>>,
    tables: bool,
) -> Seq<u64> {
    match table_seed(g, labels, hops, tables) {
        Some(ids) => ids,
        None => match found {
            Some(ids) => ids.filter(|n: u64| g.labelled_all(n as int, labels)),
            None => scan(g, labels),
        },
    }
}

/// Ids that may be missing.
pub open spec fn found_v(found: Option<&Vec<u64>>) -> Option<Seq<u64>> {
    match found {
        Some(ids) => Some(ids@),
        None => None,
    }
}

/// The ids that a chain starts at.
pub fn start_ids(
    g: &Graph,
    labels: &Vec<String>,
    hops: &Vec<Hop>,
    found: Option<&Vec<u64>>,
    tables: bool,
) -> (r: Vec<u64>)
    requires
        g.wf(),
    ensures
        r@ == starts(*g, names::of(labels@), hops@, found_v(found), tables),
{
    match hop_table_seed(g, labels, hops, tables) {
        Some(ids) => ids,
        None => anchored_seed_ids(g, labels, found),
    }
}

proof fn lemma_ascending_same(a: Seq<u64>, b: Seq<u64>)
    requires
        ascending(a),
        ascending(b),
        forall|x: u64| #[trigger] a.contains(x) <==> b.contains(x),
    ensures
        a == b,
    decreases a.len(),
{
    if a.len() == 0 {
        if b.len() > 0 {
            assert(b.contains(b[0]));
            assert(a.contains(b[0]));
        }
        assert(a =~= b);
    } else {
        assert(a.contains(a.last())) by {
            assert(a[a.len() - 1] == a.last());
        }
        assert(b.contains(a.last()));
        assert(b.len() > 0);
        assert(b.contains(b.last())) by {
            assert(b[b.len() - 1] == b.last());
        }
        assert(a.contains(b.last()));
        let i = choose|i: int| 0 <= i < b.len() && b[i] == a.last();
        let j = choose|j: int| 0 <= j < a.len() && a[j] == b.last();
        if i < b.len() - 1 {
            assert(b[i] < b[b.len() - 1]);
            if j < a.len() - 1 {
                assert(a[j] < a[a.len() - 1]);
            }
        }
        assert(a.last() == b.last());
        let p = a.drop_last();
        let q = b.drop_last();
        assert(a =~= p.push(a.last()));
        assert(b =~= q.push(b.last()));
        assert forall|i: int, j: int| 0 <= i < j < p.len() implies p[i] < p[j] by {
            assert(a[i] < a[j]);
        }
        assert forall|i: int, j: int| 0 <= i < j < q.len() implies q[i] < q[j] by {
            assert(b[i] < b[j]);
        }
        assert forall|x: u64| #[trigger] p.contains(x) <==> q.contains(x) by {
            seqs::lemma_push_contains(p, a.last(), x);
            seqs::lemma_push_contains(q, b.last(), x);
            assert(a.contains(x) <==> b.contains(x));
            if p.contains(x) {
                let k = choose|k: int| 0 <= k < p.len() && p[k] == x;
                assert(a[k] < a[a.len() - 1]);
            }
            if q.contains(x) {
                let k = choose|k: int| 0 <= k < q.len() && q[k] == x;
                assert(b[k] < b[b.len() - 1]);
            }
        }
        lemma_ascending_same(p, q);
    }
}

proof fn lemma_filter_ascending(s: Seq<u64>, f: spec_fn(u64) -> bool)
    requires
        ascending(s),
    ensures
        ascending(s.filter(f)),
    decreases s.len(),
{
    if s.len() == 0 {
        seqs::lemma_filter_empty(f);
        assert(s =~= Seq::empty());
    } else {
        let p = s.drop_last();
        assert forall|i: int, j: int| 0 <= i < j < p.len() implies p[i] < p[j] by {
            assert(s[i] < s[j]);
        }
        lemma_filter_ascending(p, f);
        seqs::lemma_filter_last(s, f);
        let q = p.filter(f);
        let r = s.filter(f);
        assert forall|i: int, j: int| 0 <= i < j < r.len() implies r[i] < r[j] by {
            if j < q.len() {
                assert(q[i] < q[j]);
            } else {
                assert(q.contains(q[i]));
                seqs::lemma_filter_contains(p, f, q[i]);
                let k = choose|k: int| 0 <= k < p.len() && p[k] == q[i];
                assert(s[k] < s[s.len() - 1]);
            }
        }
    }
}

/// Looking the start up by a property and then testing the property finds what
/// scanning the labels and testing it finds, in the same order, as long as the
/// look-up misses no node that passes and lists nodes in ascending order.
pub proof fn law_seek_is_scan(
    g: Graph,
    labels: Seq<Seq<char>>,
    found: Seq<u64>,
    passes: spec_fn(u64) -> bool,
)
    requires
        g.labels@.len() <= u64::MAX,
        ascending(found),
        forall|n: u64| #[trigger] passes(n) && g.labelled_all(n as int, labels) ==> found.contains(n),
    ensures
        found.filter(|n: u64| g.labelled_all(n as int, labels)).filter(passes) == scan(
            g,
            labels,
        ).filter(passes),
{
    let member = |n: u64| g.labelled_all(n as int, labels);
    let a = found.filter(member).filter(passes);
    let b = scan(g, labels).filter(passes);
    law_scan_is_complete(g, labels);
    lemma_filter_ascending(found, member);
    lemma_filter_ascending(found.filter(member), passes);
    lemma_filter_ascending(scan(g, labels), passes);
    assert forall|x: u64| #[trigger] a.contains(x) <==> b.contains(x) by {
        seqs::lemma_filter_contains(found.filter(member), passes, x);
        seqs::lemma_filter_contains(found, member, x);
        seqs::lemma_filter_contains(scan(g, labels), passes, x);
        assert(scan(g, labels).contains(x) <==> g.labelled_all(x as int, labels));
    }
    lemma_ascending_same(a, b);
}

/// The labels under which a chain binds a variable: those of its start, or of
/// the end of the first labelled step that binds it.
pub open spec fn var_labels(c: ChainV, x: Seq<char>) -> Option<Seq<Seq<char>>> {
    if x == c.a_var {
        if c.a_labels.len() > 0 {
            Some(c.a_labels)
        } else {
            None
        }
    } else {
        seqs::find_map(
            c.hops,
            |h: crate::hop::StepHop|
                if h.tgt is None && h.var == x && h.labels.len() > 0 {
                    Some(h.labels)
                } else {
                    None
                },
        )
    }
}

/// Labels that may be missing.
pub open spec fn labels_opt(r: Option<Vec<String>>) -> Option<Seq<Seq<char>>> {
    match r {
        Some(r) => Some(names::of(r@)),
        None => None,
    }
}

/// The labels under which a chain binds a variable.
pub fn chain_var_labels(c: &Chain, x: &String) -> (r: Option<Vec<String>>)
    ensures
        labels_opt(r) == var_labels(c.v(), x@),
{
    if *x == c.a_var {
        return if c.a_labels.len() > 0 {
            Some(copy_names(&c.a_labels))
        } else {
            None
        };
    }
    let ghost hs = c.v().hops;
    let ghost f = |h: crate::hop::StepHop|
        if h.tgt is None && h.var == x@ && h.labels.len() > 0 {
            Some(h.labels)
        } else {
            None::<Seq<Seq<char>>>
        };
    let mut i: usize = 0;
    while i < c.hops.len()
        invariant
            i <= c.hops@.len(),
            hs == c.v().hops,
            x@ != c.v().a_var,
            f == (|h: crate::hop::StepHop|
                if h.tgt is None && h.var == x@ && h.labels.len() > 0 {
                    Some(h.labels)
                } else {
                    None::<Seq<Seq<char>>>
                }),
            forall|j: int| 0 <= j < i ==> f(#[trigger] hs[j]) is None,
        decreases c.hops.len() - i,
    {
        let h = &c.hops[i];
        assert(hs[i as int] == h.v());
        if h.tgt.is_none() && h.var == *x && h.labels.len() > 0 {
            proof {
                seqs::lemma_find_map(hs, f, i as int);
            }
            return Some(copy_names(&h.labels));
        }
        i = i + 1;
    }
    proof {
        seqs::lemma_find_map(hs, f, hs.len() as int);
    }
    None
}

/// The labels under which a plan binds each variable.
pub fn agg_var_labels(p: &AggPlan) -> (r: Vec<Option<Vec<String>>>)
    ensures
        r@.len() == p.chain.vars@.len(),
        forall|i: int|
            0 <= i < r@.len() ==> labels_opt(#[trigger] r@[i]) == var_labels(
                p.v().chain,
                p.v().chain.vars[i],
            ),
{
    let mut r: Vec<Option<Vec<String>>> = Vec::new();
    let mut i: usize = 0;
    while i < p.chain.vars.len()
        invariant
            i <= p.chain.vars@.len(),
            r@.len() == i,
            forall|j: int|
                0 <= j < i ==> labels_opt(#[trigger] r@[j]) == var_labels(
                    p.v().chain,
                    p.v().chain.vars[j],
                ),
        decreases p.chain.vars.len() - i,
    {
        assert(p.v().chain.vars[i as int] == p.chain.vars@[i as int]@);
        let l = chain_var_labels(&p.chain, &p.chain.vars[i]);
        r.push(l);
        i = i + 1;
    }
    r
}

/// The labels under which a plan binds a variable.
pub fn core_var_labels(p: &CorePlan, x: &String) -> (r: Option<Vec<String>>)
    ensures
        labels_opt(r) == var_labels(p.v().chain, x@),
{
    chain_var_labels(&p.chain, x)
}

} // verus!
