//! Lists of names: variables, labels and relationship types.

use vstd::prelude::*;

verus! {

/// The names of a list, as character sequences.
pub open spec fn of(v: Seq<String>) -> Seq<Seq<char>> {
    v.map_values(|s: String| s@)
}

/// `i` is the first position of `x` in `s`.
pub open spec fn is_first<A>(s: Seq<A>, x: A, i: int) -> bool {
    &&& 0 <= i < s.len()
    &&& s[i] == x
    &&& forall|j: int| 0 <= j < i ==> s[j] != x
}

/// The first position of `x` in `s`, if it occurs.
pub open spec fn position<A>(s: Seq<A>, x: A) -> Option<int>
    decreases s.len(),
{
    if s.len() == 0 {
        None
    } else {
        match position(s.drop_last(), x) {
            Some(i) => Some(i),
            None => if s.last() == x {
                Some(s.len() - 1)
            } else {
                None
            },
        }
    }
}

/// [`position`] finds the first occurrence, and nothing when there is none.
pub proof fn lemma_position<A>(s: Seq<A>, x: A)
    ensures
        position(s, x) matches Some(i) ==> is_first(s, x, i),
        position(s, x) is None <==> !s.contains(x),
    decreases s.len(),
{
    if s.len() > 0 {
        lemma_position(s.drop_last(), x);
        let d = s.drop_last();
        assert forall|j: int| 0 <= j < d.len() implies d[j] == s[j] by {}
        match position(d, x) {
            Some(i) => {
                assert(s[i] == x);
            },
            None => {
                assert forall|j: int| 0 <= j < s.len() - 1 implies s[j] != x by {
                    assert(d[j] == s[j]);
                    assert(d.contains(d[j]));
                }
                if s.last() == x {
                    assert(s[s.len() - 1] == x);
                } else {
                    assert(!s.contains(x));
                }
            },
        }
    }
}

/// A first occurrence is what [`position`] finds.
pub proof fn lemma_first_is_position<A>(s: Seq<A>, x: A, i: int)
    requires
        is_first(s, x, i),
    ensures
        position(s, x) == Some(i),
{
    lemma_position(s, x);
    assert(s[i] == x);
    assert(s.contains(x));
    let k = position(s, x)->0;
    if k < i {
        assert(s[k] != x);
    }
    if i < k {
        assert(s[i] != x);
    }
}

/// The first position of a name in a list.
pub fn name_index(v: &Vec<String>, s: &String) -> (r: Option<usize>)
    ensures
        r matches Some(i) ==> position(of(v@), s@) == Some(i as int) && i < v.len(),
        r is None ==> position(of(v@), s@) is None,
        r is Some <==> of(v@).contains(s@),
{
    let mut i: usize = 0;
    while i < v.len()
        invariant
            i <= v.len(),
            forall|j: int| 0 <= j < i ==> v@[j]@ != s@,
        decreases v.len() - i,
    {
        if v[i] == *s {
            proof {
                assert(of(v@)[i as int] == s@);
                assert forall|j: int| 0 <= j < i implies of(v@)[j] != s@ by {}
                lemma_first_is_position(of(v@), s@, i as int);
                lemma_position(of(v@), s@);
            }
            return Some(i);
        }
        i = i + 1;
    }
    proof {
        assert forall|j: int| 0 <= j < of(v@).len() implies of(v@)[j] != s@ by {}
        assert(!of(v@).contains(s@));
        lemma_position(of(v@), s@);
    }
    None
}

/// Whether a name is in a list.
pub fn has_name(v: &Vec<String>, s: &String) -> (b: bool)
    ensures
        b == of(v@).contains(s@),
{
    name_index(v, s).is_some()
}

/// A copy of a list of names.
pub fn copy_names(v: &Vec<String>) -> (r: Vec<String>)
    ensures
        r@ == v@,
{
    let mut r: Vec<String> = Vec::new();
    let mut i: usize = 0;
    while i < v.len()
        invariant
            i <= v.len(),
            r@ == v@.take(i as int),
        decreases v.len() - i,
    {
        r.push(v[i].clone());
        proof {
            assert(v@.take(i + 1) =~= v@.take(i as int).push(v@[i as int]));
        }
        i = i + 1;
    }
    proof {
        assert(v@.take(i as int) =~= v@);
    }
    r
}

/// A copy of a list of ids.
pub fn copy_ids(v: &Vec<u64>) -> (r: Vec<u64>)
    ensures
        r@ == v@,
{
    let mut r: Vec<u64> = Vec::new();
    let mut i: usize = 0;
    while i < v.len()
        invariant
            i <= v.len(),
            r@ == v@.take(i as int),
        decreases v.len() - i,
    {
        r.push(v[i]);
        proof {
            assert(v@.take(i + 1) =~= v@.take(i as int).push(v@[i as int]));
        }
        i = i + 1;
    }
    proof {
        assert(v@.take(i as int) =~= v@);
    }
    r
}

/// Whether an id is in a list.
pub fn has_id(v: &Vec<u64>, x: u64) -> (b: bool)
    ensures
        b == v@.contains(x),
{
    let mut i: usize = 0;
    while i < v.len()
        invariant
            i <= v.len(),
            forall|j: int| 0 <= j < i ==> v@[j] != x,
        decreases v.len() - i,
    {
        if v[i] == x {
            return true;
        }
        i = i + 1;
    }
    false
}

/// Whether an index is in a list.
pub fn has_index(v: &Vec<usize>, x: usize) -> (b: bool)
    ensures
        b == v@.contains(x),
{
    let mut i: usize = 0;
    while i < v.len()
        invariant
            i <= v.len(),
            forall|j: int| 0 <= j < i ==> v@[j] != x,
        decreases v.len() - i,
    {
        if v[i] == x {
            return true;
        }
        i = i + 1;
    }
    false
}

/// The indices `0..n`.
pub open spec fn upto(n: nat) -> Seq<usize> {
    Seq::new(n, |i: int| i as usize)
}

/// The indices `0..n` as a list.
pub fn index_range(n: usize) -> (r: Vec<usize>)
    ensures
        r@ == upto(n as nat),
{
    let mut r: Vec<usize> = Vec::new();
    let mut i: usize = 0;
    while i < n
        invariant
            i <= n,
            r@ == upto(i as nat),
        decreases n - i,
    {
        r.push(i);
        proof {
            assert(upto(i as nat).push(i) =~= upto((i + 1) as nat));
        }
        i = i + 1;
    }
    r
}

/// `n` copies of an id.
pub fn repeat_id(x: u64, n: usize) -> (r: Vec<u64>)
    ensures
        r@ == Seq::new(n as nat, |i: int| x),
{
    let mut r: Vec<u64> = Vec::new();
    let mut i: usize = 0;
    while i < n
        invariant
            i <= n,
            r@ == Seq::new(i as nat, |i: int| x),
        decreases n - i,
    {
        r.push(x);
        proof {
            assert(r@ =~= Seq::new((i + 1) as nat, |i: int| x));
        }
        i = i + 1;
    }
    r
}

/// `n` empty lists.
pub fn empty_lists(n: usize) -> (r: Vec<Vec<u64>>)
    ensures
        r.len() == n,
        forall|i: int| 0 <= i < n ==> (#[trigger] r@[i])@ == Seq::<u64>::empty(),
{
    let mut r: Vec<Vec<u64>> = Vec::new();
    let mut i: usize = 0;
    while i < n
        invariant
            i <= n,
            r.len() == i,
            forall|j: int| 0 <= j < i ==> (#[trigger] r@[j])@ == Seq::<u64>::empty(),
        decreases n - i,
    {
        r.push(Vec::new());
        i = i + 1;
    }
    r
}

/// Whether no name stands twice.
pub fn names_differ(v: &Vec<String>) -> (b: bool)
    ensures
        b == of(v@).no_duplicates(),
{
    let ghost n = of(v@);
    let mut i: usize = 0;
    while i < v.len()
        invariant
            i <= v@.len(),
            n == of(v@),
            forall|a: int, b: int| 0 <= a < b < i ==> #[trigger] n[a] != #[trigger] n[b],
        decreases v.len() - i,
    {
        let mut j: usize = 0;
        while j < i
            invariant
                j <= i < v@.len(),
                n == of(v@),
                forall|a: int| 0 <= a < j ==> #[trigger] n[a] != n[i as int],
            decreases i - j,
        {
            assert(n[i as int] == v@[i as int]@ && n[j as int] == v@[j as int]@);
            if v[i] == v[j] {
                return false;
            }
            j = j + 1;
        }
        i = i + 1;
    }
    true
}

} // verus!
