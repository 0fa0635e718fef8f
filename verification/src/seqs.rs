//! Facts about sequences.

use vstd::prelude::*;

verus! {

/// A filtered sequence grows by its last element exactly when that is kept.
pub proof fn lemma_filter_last<A>(s: Seq<A>, p: spec_fn(A) -> bool)
    requires
        s.len() > 0,
    ensures
        p(s.last()) ==> s.filter(p) == s.drop_last().filter(p).push(s.last()),
        !p(s.last()) ==> s.filter(p) == s.drop_last().filter(p),
{
    reveal(Seq::filter);
}

/// Tests that agree on a sequence keep the same of it.
pub proof fn lemma_filter_same<A>(s: Seq<A>, f: spec_fn(A) -> bool, g: spec_fn(A) -> bool)
    requires
        forall|i: int| 0 <= i < s.len() ==> #[trigger] f(s[i]) == g(s[i]),
    ensures
        s.filter(f) == s.filter(g),
    decreases s.len(),
{
    reveal(Seq::filter);
    if s.len() > 0 {
        let p = s.drop_last();
        assert forall|i: int| 0 <= i < p.len() implies #[trigger] f(p[i]) == g(p[i]) by {
            assert(f(s[i]) == g(s[i]));
        }
        lemma_filter_same(p, f, g);
        assert(f(s[s.len() - 1]) == g(s[s.len() - 1]));
    }
}

/// Nothing is kept of nothing.
pub proof fn lemma_filter_empty<A>(p: spec_fn(A) -> bool)
    ensures
        Seq::<A>::empty().filter(p) == Seq::<A>::empty(),
{
    reveal(Seq::filter);
}

/// One more element of a prefix.
pub proof fn lemma_take_last<A>(s: Seq<A>, i: int)
    requires
        0 <= i < s.len(),
    ensures
        s.take(i + 1) == s.take(i).push(s[i]),
        s.take(i + 1).drop_last() == s.take(i),
        s.take(i + 1).last() == s[i],
{
    assert(s.take(i + 1) =~= s.take(i).push(s[i]));
    assert(s.take(i + 1).drop_last() =~= s.take(i));
}

/// Keep the elements that qualify and turn each into a result.
pub open spec fn keep_map<A, B>(s: Seq<A>, keep: spec_fn(A) -> bool, make: spec_fn(A) -> B) -> Seq<
    B,
> {
    s.filter(keep).map_values(make)
}

/// [`keep_map`] of one more element of a prefix.
pub proof fn lemma_keep_map_take<A, B>(
    s: Seq<A>,
    i: int,
    keep: spec_fn(A) -> bool,
    make: spec_fn(A) -> B,
)
    requires
        0 <= i < s.len(),
    ensures
        keep(s[i]) ==> keep_map(s.take(i + 1), keep, make) == keep_map(
            s.take(i),
            keep,
            make,
        ).push(make(s[i])),
        !keep(s[i]) ==> keep_map(s.take(i + 1), keep, make) == keep_map(s.take(i), keep, make),
{
    lemma_take_last(s, i);
    lemma_filter_last(s.take(i + 1), keep);
    if keep(s[i]) {
        assert(keep_map(s.take(i + 1), keep, make) =~= keep_map(s.take(i), keep, make).push(
            make(s[i]),
        ));
    }
}

/// What each element becomes, if every one becomes something.
pub open spec fn try_map<A, B>(s: Seq<A>, f: spec_fn(A) -> Option<B>) -> Option<Seq<B>> {
    if forall|i: int| 0 <= i < s.len() ==> f(#[trigger] s[i]) is Some {
        Some(s.map_values(|a: A| f(a)->0))
    } else {
        None
    }
}

/// [`keep_map`] of nothing.
pub proof fn lemma_keep_map_empty<A, B>(
    s: Seq<A>,
    keep: spec_fn(A) -> bool,
    make: spec_fn(A) -> B,
)
    ensures
        keep_map(s.take(0), keep, make) == Seq::<B>::empty(),
{
    assert(s.take(0) =~= Seq::empty());
    lemma_filter_empty(keep);
    assert(keep_map(s.take(0), keep, make) =~= Seq::empty());
}

/// What a filtered sequence holds.
pub proof fn lemma_filter_contains<A>(s: Seq<A>, keep: spec_fn(A) -> bool, x: A)
    ensures
        s.filter(keep).contains(x) <==> s.contains(x) && keep(x),
    decreases s.len(),
{
    if s.len() == 0 {
        lemma_filter_empty(keep);
        assert(s =~= Seq::empty());
    } else {
        lemma_filter_contains(s.drop_last(), keep, x);
        lemma_filter_last(s, keep);
        let rest = s.drop_last();
        assert(s =~= rest.push(s.last()));
        lemma_push_contains(rest, s.last(), x);
        lemma_push_contains(rest.filter(keep), s.last(), x);
    }
}

/// What a longer sequence holds.
pub proof fn lemma_push_contains<A>(s: Seq<A>, y: A, x: A)
    ensures
        s.push(y).contains(x) <==> s.contains(x) || x == y,
{
    if s.contains(x) {
        let k = choose|k: int| 0 <= k < s.len() && s[k] == x;
        assert(s.push(y)[k] == x);
    }
    if x == y {
        assert(s.push(y)[s.len() as int] == x);
    }
    if s.push(y).contains(x) && x != y {
        let k = choose|k: int| 0 <= k < s.len() + 1 && s.push(y)[k] == x;
        assert(s[k] == x);
    }
}

/// What the first element that becomes something becomes.
pub open spec fn find_map<A, B>(s: Seq<A>, f: spec_fn(A) -> Option<B>) -> Option<B>
    decreases s.len(),
{
    if s.len() == 0 {
        None
    } else {
        match find_map(s.drop_last(), f) {
            Some(b) => Some(b),
            None => f(s.last()),
        }
    }
}

/// [`find_map`] of a sequence whose first `i` elements become nothing.
pub proof fn lemma_find_map<A, B>(s: Seq<A>, f: spec_fn(A) -> Option<B>, i: int)
    requires
        0 <= i <= s.len(),
        forall|j: int| 0 <= j < i ==> f(#[trigger] s[j]) is None,
        i < s.len() ==> f(s[i]) is Some,
    ensures
        find_map(s, f) == if i < s.len() {
            f(s[i])
        } else {
            None
        },
    decreases s.len(),
{
    if s.len() > 0 {
        if i < s.len() - 1 {
            lemma_find_map(s.drop_last(), f, i);
        } else {
            lemma_find_map(s.drop_last(), f, s.len() - 1);
        }
    }
}

/// What an element of a [`keep_map`] was made of.
pub proof fn lemma_keep_map_at<A, B>(
    s: Seq<A>,
    keep: spec_fn(A) -> bool,
    make: spec_fn(A) -> B,
    i: int,
) -> (a: A)
    requires
        0 <= i < keep_map(s, keep, make).len(),
    ensures
        s.contains(a),
        keep(a),
        keep_map(s, keep, make)[i] == make(a),
{
    let a = s.filter(keep)[i];
    lemma_filter_contains(s, keep, a);
    a
}

/// What is kept of distinct elements is distinct.
pub proof fn lemma_filter_distinct<A>(s: Seq<A>, keep: spec_fn(A) -> bool)
    requires
        s.no_duplicates(),
    ensures
        s.filter(keep).no_duplicates(),
    decreases s.len(),
{
    if s.len() == 0 {
        lemma_filter_empty(keep);
        assert(s =~= Seq::empty());
    } else {
        let rest = s.drop_last();
        lemma_filter_distinct(rest, keep);
        lemma_filter_last(s, keep);
        lemma_filter_contains(rest, keep, s.last());
        assert(!rest.contains(s.last())) by {
            if rest.contains(s.last()) {
                let k = choose|k: int| 0 <= k < rest.len() && rest[k] == s.last();
                assert(s[k] == s[s.len() - 1]);
            }
        }
        let kept = rest.filter(keep);
        assert forall|i: int, j: int|
            0 <= i < s.filter(keep).len() && 0 <= j < s.filter(keep).len() && i != j implies s.filter(
            keep,
        )[i] != s.filter(keep)[j] by {
            if keep(s.last()) {
                if i == kept.len() {
                    assert(kept.contains(kept[j]));
                } else if j == kept.len() {
                    assert(kept.contains(kept[i]));
                }
            }
        }
    }
}

} // verus!
