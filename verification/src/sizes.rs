//! How many nodes labels bound.

use vstd::prelude::*;

use crate::graph::Graph;
use crate::names;
use crate::reroot::{label_bound, node_size};

verus! {

/// The label size up to which a column is always read whole.
pub const WHOLE_LABEL_ALWAYS: u64 = 4096;

/// Whether a column is better read for a whole label than for some of its
/// nodes: the label is small, or the nodes are an eighth of it.
pub fn whole_label_worth(distinct_n: usize, label_n: u64) -> (b: bool)
    ensures
        b == (label_n <= WHOLE_LABEL_ALWAYS || distinct_n * 8 >= label_n),
{
    if label_n <= WHOLE_LABEL_ALWAYS {
        return true;
    }
    match (distinct_n as u64).checked_mul(8) {
        Some(n) => n >= label_n,
        None => true,
    }
}

/// The most nodes that all of some labels admit: the smallest label's, or every
/// node when there is none.
pub open spec fn set_count(g: Graph, labels: Seq<Seq<char>>) -> u64 {
    if labels.len() == 0 {
        g.labels@.len() as u64
    } else {
        node_size(g, labels, labels.len())
    }
}

/// The most nodes that all of some labels admit.
pub fn label_set_count(g: &Graph, labels: &Vec<String>) -> (n: u64)
    requires
        g.wf(),
    ensures
        n == set_count(*g, names::of(labels@)),
{
    if labels.len() == 0 {
        return g.count_all_nodes();
    }
    label_bound(g, labels)
}

/// The first of the labels that the fewest nodes carry.
pub open spec fn is_smallest(g: Graph, labels: Seq<Seq<char>>, i: int) -> bool {
    let n = g.labels@.len();
    &&& 0 <= i < labels.len()
    &&& forall|j: int|
        0 <= j < labels.len() ==> g.label_count(labels[i], n) <= g.label_count(
            #[trigger] labels[j],
            n,
        )
    &&& forall|j: int|
        0 <= j < i ==> g.label_count(labels[i], n) < g.label_count(#[trigger] labels[j], n)
}

/// The first of the labels that the fewest nodes carry.
pub fn smallest_label_name(g: &Graph, labels: &Vec<String>) -> (r: Option<String>)
    requires
        g.wf(),
    ensures
        match r {
            Some(l) => exists|i: int| #[trigger]
                is_smallest(*g, names::of(labels@), i) && names::of(labels@)[i] == l@,
            None => labels@.len() == 0,
        },
{
    if labels.len() == 0 {
        return None;
    }
    let ghost ls = names::of(labels@);
    let ghost n = g.labels@.len();
    let mut best: usize = 0;
    let mut least: u64 = g.count_label_nodes(&labels[0]);
    let mut i: usize = 1;
    assert(ls[0] == labels@[0]@);
    while i < labels.len()
        invariant
            g.wf(),
            ls == names::of(labels@),
            n == g.labels@.len(),
            best < i <= labels@.len(),
            least == g.label_count(ls[best as int], n),
            forall|j: int| 0 <= j < i ==> least <= g.label_count(#[trigger] ls[j], n),
            forall|j: int| 0 <= j < best ==> least < g.label_count(#[trigger] ls[j], n),
        decreases labels.len() - i,
    {
        assert(ls[i as int] == labels@[i as int]@);
        let c = g.count_label_nodes(&labels[i]);
        if c < least {
            least = c;
            best = i;
        }
        i = i + 1;
    }
    assert(is_smallest(*g, ls, best as int));
    assert(ls[best as int] == labels@[best as int]@);
    Some(labels[best].clone())
}

} // verus!
