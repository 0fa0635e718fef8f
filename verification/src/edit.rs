//! Adding nodes and relationships to a graph.

use vstd::prelude::*;

use crate::graph::{row_of, strip, Adj, Graph};
use crate::names;
use crate::names::name_index;

verus! {

proof fn lemma_strip_push(row: Seq<Adj>, e: Adj, peer: u64)
    ensures
        strip(row.push(e), peer) == if e.peer == peer {
            strip(row, peer).push((e.rel, e.typ))
        } else {
            strip(row, peer)
        },
{
    assert(row.push(e).drop_last() =~= row);
}

impl Graph {
    /// Adds a node with labels and no relationship.
    pub fn create_node(&mut self, labels: Vec<String>) -> (n: u64)
        requires
            old(self).wf(),
        ensures
            final(self).wf(),
            n == old(self).labels@.len(),
            final(self).labels@ == old(self).labels@.push(labels),
            final(self).types == old(self).types,
            final(self).next_rel == old(self).next_rel,
            final(self).row_budget == old(self).row_budget,
            final(self).directed_bound_probe == old(self).directed_bound_probe,
            forall|x: u64| #[trigger] row_of(final(self).out@, x) == row_of(old(self).out@, x),
            forall|x: u64| #[trigger] row_of(final(self).into@, x) == row_of(old(self).into@, x),
    {
        let n = self.labels.len();
        let ghost g0 = *self;
        self.out.push(Vec::new());
        self.into.push(Vec::new());
        self.labels.push(labels);
        proof {
            assert forall|x: u64| #[trigger] row_of(self.out@, x) == row_of(g0.out@, x) by {
                if x == n {
                    assert(self.out@[n as int]@ =~= Seq::<Adj>::empty());
                }
            }
            assert forall|x: u64| #[trigger] row_of(self.into@, x) == row_of(g0.into@, x) by {
                if x == n {
                    assert(self.into@[n as int]@ =~= Seq::<Adj>::empty());
                }
            }
            assert forall|a: u64, b: u64| #[trigger]
                strip(row_of(self.out@, a), b) == #[trigger] strip(row_of(self.into@, b), a) by {
                assert(strip(row_of(g0.out@, a), b) == strip(row_of(g0.into@, b), a));
            }
            assert forall|s: bool, m: int, i: int| #[trigger] self.has_entry(s, m, i) implies {
                &&& g0.has_entry(s, m, i)
                &&& g0.entry(s, m, i) == self.entry(s, m, i)
            } by {}
            assert forall|s1: bool, n1: int, i1: int, s2: bool, n2: int, i2: int|
                #![trigger self.has_entry(s1, n1, i1), self.has_entry(s2, n2, i2)]
                self.has_entry(s1, n1, i1) && self.has_entry(s2, n2, i2) && self.entry(
                    s1,
                    n1,
                    i1,
                ).rel == self.entry(s2, n2, i2).rel implies self.entry(s1, n1, i1).typ
                == self.entry(s2, n2, i2).typ by {
                assert(g0.has_entry(s1, n1, i1) && g0.has_entry(s2, n2, i2));
            }
        }
        n as u64
    }

    fn type_token(&mut self, typ: &String) -> (t: u32)
        requires
            old(self).wf(),
            names::of(old(self).types@).contains(typ@) || old(self).types@.len() < u32::MAX,
        ensures
            final(self).wf(),
            t < final(self).types@.len(),
            final(self).types@[t as int]@ == typ@,
            names::of(final(self).types@) == if names::of(old(self).types@).contains(typ@) {
                names::of(old(self).types@)
            } else {
                names::of(old(self).types@).push(typ@)
            },
            final(self).out == old(self).out,
            final(self).into == old(self).into,
            final(self).labels == old(self).labels,
            final(self).next_rel == old(self).next_rel,
            final(self).row_budget == old(self).row_budget,
            final(self).directed_bound_probe == old(self).directed_bound_probe,
    {
        match name_index(&self.types, typ) {
            Some(i) => {
                proof {
                    names::lemma_position(names::of(self.types@), typ@);
                    assert(names::of(self.types@)[i as int] == self.types@[i as int]@);
                }
                i as u32
            },
            None => {
                let ghost g0 = *self;
                let i = self.types.len();
                self.types.push(typ.clone());
                proof {
                    let old_names = names::of(g0.types@);
                    assert(names::of(self.types@) =~= old_names.push(typ@));
                    assert(names::of(self.types@).no_duplicates()) by {
                        assert forall|a: int, b: int|
                            0 <= a < names::of(self.types@).len() && 0 <= b < names::of(
                                self.types@,
                            ).len() && a != b implies names::of(self.types@)[a] != names::of(
                            self.types@,
                        )[b] by {
                            if a == old_names.len() {
                                assert(old_names.contains(old_names[b]));
                            } else if b == old_names.len() {
                                assert(old_names.contains(old_names[a]));
                            }
                        }
                    }
                    assert forall|s: bool, m: int, k: int| #[trigger]
                        self.has_entry(s, m, k) implies g0.has_entry(s, m, k) by {}
                    assert forall|s1: bool, n1: int, i1: int, s2: bool, n2: int, i2: int|
                        #![trigger self.has_entry(s1, n1, i1), self.has_entry(s2, n2, i2)]
                        self.has_entry(s1, n1, i1) && self.has_entry(s2, n2, i2) && self.entry(
                            s1,
                            n1,
                            i1,
                        ).rel == self.entry(s2, n2, i2).rel implies self.entry(s1, n1, i1).typ
                        == self.entry(s2, n2, i2).typ by {
                        assert(g0.has_entry(s1, n1, i1) && g0.has_entry(s2, n2, i2));
                    }
                    assert forall|a: u64, b: u64| #[trigger]
                        strip(row_of(self.out@, a), b) == #[trigger] strip(
                            row_of(self.into@, b),
                            a,
                        ) by {
                        assert(strip(row_of(g0.out@, a), b) == strip(row_of(g0.into@, b), a));
                    }
                }
                i as u32
            },
        }
    }

    /// Adds a relationship of a type between two nodes, last among those of
    /// either end.
    pub fn create_rel(&mut self, src: u64, typ: &String, dst: u64) -> (rel: u64)
        requires
            old(self).wf(),
            src < old(self).labels@.len(),
            dst < old(self).labels@.len(),
            old(self).next_rel < u64::MAX,
            names::of(old(self).types@).contains(typ@) || old(self).types@.len() < u32::MAX,
        ensures
            final(self).wf(),
            rel == old(self).next_rel,
            final(self).next_rel == old(self).next_rel + 1,
            final(self).labels == old(self).labels,
            names::of(final(self).types@) == if names::of(old(self).types@).contains(typ@) {
                names::of(old(self).types@)
            } else {
                names::of(old(self).types@).push(typ@)
            },
            final(self).row_budget == old(self).row_budget,
            final(self).directed_bound_probe == old(self).directed_bound_probe,
            exists|t: u32|
                {
                    &&& t < final(self).types@.len()
                    &&& #[trigger] final(self).types@[t as int]@ == typ@
                    &&& final(self).out@[src as int]@ == old(self).out@[src as int]@.push(
                        Adj { peer: dst, rel, typ: t },
                    )
                    &&& final(self).into@[dst as int]@ == old(self).into@[dst as int]@.push(
                        Adj { peer: src, rel, typ: t },
                    )
                },
            forall|x: u64|
                x != src ==> #[trigger] row_of(final(self).out@, x) == row_of(old(self).out@, x),
            forall|x: u64|
                x != dst ==> #[trigger] row_of(final(self).into@, x) == row_of(old(self).into@, x),
    {
        let rel = self.next_rel;
        let t = self.type_token(typ);
        let ghost g0 = *self;
        let n = self.out.len();
        assert(n == self.labels@.len());
        let s: usize = src as usize;
        let d: usize = dst as usize;
        self.out[s].push(Adj { peer: dst, rel, typ: t });
        self.into[d].push(Adj { peer: src, rel, typ: t });
        self.next_rel = rel + 1;
        proof {
            let eo = Adj { peer: dst, rel, typ: t };
            let ei = Adj { peer: src, rel, typ: t };
            assert(self.out@[s as int]@ == g0.out@[s as int]@.push(eo));
            assert(self.into@[d as int]@ == g0.into@[d as int]@.push(ei));
            assert forall|a: u64, b: u64| #[trigger]
                strip(row_of(self.out@, a), b) == #[trigger] strip(row_of(self.into@, b), a) by {
                assert(strip(row_of(g0.out@, a), b) == strip(row_of(g0.into@, b), a));
                if a == src {
                    lemma_strip_push(row_of(g0.out@, a), eo, b);
                }
                if b == dst {
                    lemma_strip_push(row_of(g0.into@, b), ei, a);
                }
            }
            assert forall|side: bool, n: int, i: int| #[trigger]
                self.has_entry(side, n, i) implies self.is_new(g0, side, n, i, rel, t)
                || self.is_old(g0, side, n, i) by {}
            assert forall|s1: bool, n1: int, i1: int, s2: bool, n2: int, i2: int|
                #![trigger self.has_entry(s1, n1, i1), self.has_entry(s2, n2, i2)]
                self.has_entry(s1, n1, i1) && self.has_entry(s2, n2, i2) && self.entry(
                    s1,
                    n1,
                    i1,
                ).rel == self.entry(s2, n2, i2).rel implies self.entry(s1, n1, i1).typ
                == self.entry(s2, n2, i2).typ by {
                assert(self.is_new(g0, s1, n1, i1, rel, t) || self.is_old(g0, s1, n1, i1));
                assert(self.is_new(g0, s2, n2, i2, rel, t) || self.is_old(g0, s2, n2, i2));
            }
            assert(self.types@[t as int]@ == typ@);
        }
        rel
    }

    /// An entry that was there before.
    spec fn is_old(self, g: Graph, s: bool, n: int, i: int) -> bool {
        g.has_entry(s, n, i) && g.entry(s, n, i) == self.entry(s, n, i)
    }

    /// An entry of the relationship that was added.
    spec fn is_new(self, g: Graph, s: bool, n: int, i: int, rel: u64, t: u32) -> bool {
        self.entry(s, n, i).rel == rel && self.entry(s, n, i).typ == t
    }
}

} // verus!
