//! The labels known of each variable.

use vstd::prelude::*;

use crate::names;
use crate::names::copy_names;
use crate::seqs;

verus! {

/// The labels known of each variable.
#[derive(Debug)]
pub struct LabelMap {
    /// What was learnt, in order; a later entry replaces an earlier one.
    pub entries: Vec<(String, Vec<String>)>,
}

/// What a series of entries leaves known.
pub open spec fn known_after(s: Seq<(String, Vec<String>)>) -> Map<Seq<char>, Seq<Seq<char>>>
    decreases s.len(),
{
    if s.len() == 0 {
        Map::empty()
    } else {
        known_after(s.drop_last()).insert(s.last().0@, names::of(s.last().1@))
    }
}

/// The labels known of a variable.
pub open spec fn known(m: Map<Seq<char>, Seq<Seq<char>>>, x: Seq<char>) -> Seq<Seq<char>> {
    if m.contains_key(x) {
        m[x]
    } else {
        Seq::empty()
    }
}

/// Whether every one of some labels is known of a variable.
pub open spec fn all_known(
    m: Map<Seq<char>, Seq<Seq<char>>>,
    x: Seq<char>,
    labels: Seq<Seq<char>>,
) -> bool {
    forall|i: int| 0 <= i < labels.len() ==> known(m, x).contains(#[trigger] labels[i])
}

proof fn lemma_last_entry(s: Seq<(String, Vec<String>)>, x: Seq<char>, n: int)
    requires
        0 <= n <= s.len(),
        forall|j: int| n <= j < s.len() ==> (#[trigger] s[j]).0@ != x,
    ensures
        known_after(s).contains_key(x) <==> known_after(s.take(n)).contains_key(x),
        known(known_after(s), x) == known(known_after(s.take(n)), x),
    decreases s.len() - n,
{
    if n == s.len() {
        assert(s.take(n) =~= s);
    } else {
        lemma_last_entry(s, x, n + 1);
        seqs::lemma_take_last(s, n);
        assert(s.take(n + 1).drop_last() =~= s.take(n));
        assert(s.take(n + 1).last() == s[n]);
    }
}

impl LabelMap {
    /// The labels known of each variable.
    pub open spec fn v(self) -> Map<Seq<char>, Seq<Seq<char>>> {
        known_after(self.entries@)
    }

    /// Nothing known.
    pub fn new() -> (r: LabelMap)
        ensures
            r.v() == Map::<Seq<char>, Seq<Seq<char>>>::empty(),
    {
        LabelMap { entries: Vec::new() }
    }

    /// Learns the labels of a variable.
    pub fn learn(&mut self, x: &String, labels: &Vec<String>)
        ensures
            final(self).v() == old(self).v().insert(x@, names::of(labels@)),
    {
        let ghost before = self.entries@;
        self.entries.push((x.clone(), copy_names(labels)));
        assert(self.entries@.drop_last() =~= before);
    }

    /// The labels known of a variable.
    pub fn get(&self, x: &String) -> (r: Option<&Vec<String>>)
        ensures
            match r {
                Some(l) => self.v().contains_key(x@) && self.v()[x@] == names::of(l@),
                None => !self.v().contains_key(x@),
            },
    {
        let mut i: usize = self.entries.len();
        while i > 0
            invariant
                i <= self.entries@.len(),
                forall|j: int| i <= j < self.entries@.len() ==> (#[trigger] self.entries@[j]).0@ != x@,
            decreases i,
        {
            if self.entries[i - 1].0 == *x {
                proof {
                    lemma_last_entry(self.entries@, x@, i as int);
                    seqs::lemma_take_last(self.entries@, i - 1);
                    assert(self.entries@.take(i as int).last() == self.entries@[i - 1]);
                }
                return Some(&self.entries[i - 1].1);
            }
            i = i - 1;
        }
        proof {
            lemma_last_entry(self.entries@, x@, 0);
            assert(self.entries@.take(0) =~= Seq::empty());
        }
        None
    }

    /// Whether every one of some labels is known of a variable.
    pub fn knows(&self, x: &String, labels: &Vec<String>) -> (b: bool)
        ensures
            b == all_known(self.v(), x@, names::of(labels@)),
    {
        let none: Vec<String> = Vec::new();
        let own: &Vec<String> = match self.get(x) {
            Some(l) => l,
            None => &none,
        };
        assert(names::of(own@) =~= known(self.v(), x@));
        let mut i: usize = 0;
        while i < labels.len()
            invariant
                i <= labels@.len(),
                names::of(own@) == known(self.v(), x@),
                forall|j: int|
                    0 <= j < i ==> known(self.v(), x@).contains(#[trigger] names::of(labels@)[j]),
            decreases labels.len() - i,
        {
            assert(names::of(labels@)[i as int] == labels@[i as int]@);
            if !names::has_name(own, &labels[i]) {
                return false;
            }
            i = i + 1;
        }
        true
    }

    /// A copy.
    pub fn copy(&self) -> (r: LabelMap)
        ensures
            r.v() == self.v(),
    {
        let mut r = LabelMap::new();
        let mut i: usize = 0;
        while i < self.entries.len()
            invariant
                i <= self.entries@.len(),
                r.v() == known_after(self.entries@.take(i as int)),
            decreases self.entries.len() - i,
        {
            r.learn(&self.entries[i].0, &self.entries[i].1);
            proof {
                seqs::lemma_take_last(self.entries@, i as int);
                assert(self.entries@.take(i + 1).drop_last() =~= self.entries@.take(i as int));
            }
            i = i + 1;
        }
        assert(self.entries@.take(i as int) =~= self.entries@);
        r
    }
}

} // verus!
