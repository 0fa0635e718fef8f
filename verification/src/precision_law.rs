//! What a guard is for: a node that was put conflicts with a pattern exactly when the
//! pattern would have matched it.

use vstd::prelude::*;

use crate::ast::{ExprV, HeadV};
use crate::names;
use crate::precision;
use crate::precision::{conflict, float_if, float_of, literal, meets, param_if, param_of, restriction_of, stored, stored_if, NodeRecord, Param, RestrictionV, TokensV, Values};
use crate::query::NodeV;
use crate::reduce::{Val, ValV};
use crate::seqs;

verus! {

/// Whether an element is the first for which something holds.
pub open spec fn first_with<A>(s: Seq<A>, k: int, f: spec_fn(A) -> bool) -> bool {
    &&& 0 <= k < s.len()
    &&& f(s[k])
    &&& forall|j: int| 0 <= j < k ==> !f(#[trigger] s[j])
}

/// What [`seqs::find_map`] finds.
proof fn lemma_found<A, B>(s: Seq<A>, f: spec_fn(A) -> Option<B>, g: spec_fn(A) -> bool)
    requires
        forall|a: A| #[trigger] f(a) is Some <==> g(a),
    ensures
        forall|k: int| #[trigger] first_with(s, k, g) ==> seqs::find_map(s, f) == f(s[k]),
        seqs::find_map(s, f) is None <==> forall|k: int| !#[trigger] first_with(s, k, g),
    decreases s.len(),
{
    if s.len() == 0 {
    } else {
        let p = s.drop_last();
        lemma_found(p, f, g);
        assert forall|k: int| #[trigger] first_with(s, k, g) implies seqs::find_map(s, f) == f(s[k]) by {
            if k < p.len() {
                assert(first_with(p, k, g)) by {
                    assert forall|j: int| 0 <= j < k implies !g(#[trigger] p[j]) by {
                        assert(!g(s[j]));
                    }
                }
                assert(f(s[k]) is Some);
            } else {
                assert forall|j: int| !#[trigger] first_with(p, j, g) by {
                    if first_with(p, j, g) {
                        assert(g(s[j]));
                    }
                }
            }
        }
        if seqs::find_map(s, f) is None {
            assert forall|k: int| !#[trigger] first_with(s, k, g) by {
                if first_with(s, k, g) {
                    assert(f(s[k]) is Some);
                }
            }
        } else if seqs::find_map(p, f) is Some {
            let k = choose|k: int| #[trigger] first_with(p, k, g);
            assert forall|j: int| 0 <= j < k implies !g(#[trigger] s[j]) by {
                assert(!g(p[j]));
            }
            assert(first_with(s, k, g));
        } else {
            let n = s.len() - 1;
            assert(f(s[n]) is Some);
            lemma_first_exists(s, n, g);
        }
    }
}

proof fn lemma_first_exists<A>(s: Seq<A>, n: int, g: spec_fn(A) -> bool) -> (k: int)
    requires
        0 <= n < s.len(),
        g(s[n]),
    ensures
        first_with(s, k, g),
    decreases n,
{
    if exists|j: int| 0 <= j < n && g(#[trigger] s[j]) {
        let j = choose|j: int| 0 <= j < n && g(#[trigger] s[j]);
        lemma_first_exists(s, j, g)
    } else {
        assert(first_with(s, n, g));
        n
    }
}

/// Whether a float has some bits.
pub open spec fn of_bits(bits: u64) -> spec_fn((u64, Val)) -> bool {
    |f: (u64, Val)| f.0 == bits
}

/// Whether a parameter has a name.
pub open spec fn of_name(x: Seq<char>) -> spec_fn(Param) -> bool {
    |p: Param| p.name@ == x
}

/// Whether a stored property has a token.
pub open spec fn of_token(k: int) -> spec_fn((u32, Option<Val>)) -> bool {
    |p: (u32, Option<Val>)| p.0 == k
}

/// Whether an expression stands for a value whatever the row: a literal for itself, a
/// float for the value of its bits, a parameter for the value that it is given.
pub open spec fn stands_for(e: ExprV, vs: Values, v: ValV) -> bool {
    ||| exists|b: bool| e.head == HeadV::Bool(b) && v == ValV::Bool(b)
    ||| exists|i: i64| e.head == HeadV::Int(i) && v == ValV::Int(i)
    ||| exists|s: Seq<char>| e.head == HeadV::Str(s) && v == ValV::Str(s)
    ||| exists|bits: u64, k: int|
        e.head == HeadV::Float(bits) && #[trigger] first_with(
            vs.floats@,
            k,
            of_bits(bits),
        ) && v == vs.floats@[k].1.v()
    ||| exists|x: Seq<char>, k: int|
        e.head == HeadV::Param(x) && #[trigger] first_with(
            vs.params@,
            k,
            of_name(x),
        ) && v == vs.params@[k].value.v()
}

proof fn lemma_param(vs: Values, x: Seq<char>)
    ensures
        forall|k: int| #[trigger]
            first_with(vs.params@, k, of_name(x)) ==> param_of(vs, x) == Some(
                vs.params@[k],
            ),
        param_of(vs, x) is None <==> forall|k: int|
            !#[trigger] first_with(vs.params@, k, of_name(x)),
{
    let f = |p: Param| param_if(p, x);
    let g = of_name(x);
    lemma_found(vs.params@, f, g);
    assert forall|k: int| #[trigger] first_with(vs.params@, k, g) implies param_of(vs, x) == Some(
        vs.params@[k],
    ) by {
        assert(g(vs.params@[k]));
    }
}

proof fn lemma_float(vs: Values, bits: u64)
    ensures
        forall|k: int| #[trigger]
            first_with(vs.floats@, k, of_bits(bits)) ==> float_of(vs, bits) == Some(
                vs.floats@[k].1.v(),
            ),
        float_of(vs, bits) is None <==> forall|k: int|
            !#[trigger] first_with(vs.floats@, k, of_bits(bits)),
{
    let f = |p: (u64, Val)| float_if(p, bits);
    let g = of_bits(bits);
    lemma_found(vs.floats@, f, g);
    assert forall|k: int| #[trigger] first_with(vs.floats@, k, g) implies float_of(vs, bits) == Some(
        vs.floats@[k].1.v(),
    ) by {
        assert(g(vs.floats@[k]));
    }
}

/// The value that an expression contributes is the value that it stands for, and an
/// expression that stands for none whatever the row contributes none.
pub proof fn law_literal_is_its_value(e: ExprV, vs: Values)
    ensures
        forall|v: ValV| #[trigger] literal(e, vs) == Some(v) <==> stands_for(e, vs, v),
        literal(e, vs) is None <==> forall|v: ValV| !#[trigger] stands_for(e, vs, v),
{
    match e.head {
        HeadV::Param(x) => {
            lemma_param(vs, x);
            let g = of_name(x);
            if param_of(vs, x) is Some {
                let k = choose|k: int| #[trigger] first_with(vs.params@, k, g);
                assert(first_with(vs.params@, k, of_name(x)));
            }
            assert forall|v: ValV| #[trigger] literal(e, vs) == Some(v) <==> stands_for(e, vs, v) by {
                if stands_for(e, vs, v) {
                    let (y, k) = choose|y: Seq<char>, k: int|
                        e.head == HeadV::Param(y) && #[trigger] first_with(
                            vs.params@,
                            k,
                            of_name(y),
                        ) && v == vs.params@[k].value.v();
                    assert(y == x);
                    assert(first_with(vs.params@, k, of_name(x)));
                }
            }
        },
        HeadV::Float(bits) => {
            lemma_float(vs, bits);
            let g = of_bits(bits);
            if float_of(vs, bits) is Some {
                let k = choose|k: int| #[trigger] first_with(vs.floats@, k, g);
                assert(first_with(vs.floats@, k, of_bits(bits)));
            }
            assert forall|v: ValV| #[trigger] literal(e, vs) == Some(v) <==> stands_for(e, vs, v) by {
                if stands_for(e, vs, v) {
                    let (y, k) = choose|y: u64, k: int|
                        e.head == HeadV::Float(y) && #[trigger] first_with(
                            vs.floats@,
                            k,
                            of_bits(y),
                        ) && v == vs.floats@[k].1.v();
                    assert(y == bits);
                    assert(first_with(vs.floats@, k, of_bits(bits)));
                }
            }
        },
        _ => {
            assert forall|v: ValV| #[trigger] literal(e, vs) == Some(v) <==> stands_for(e, vs, v) by {}
        },
    }
    if literal(e, vs) is Some {
        assert(literal(e, vs) == Some(literal(e, vs)->0));
        assert(stands_for(e, vs, literal(e, vs)->0));
    } else {
        assert forall|v: ValV| !#[trigger] stands_for(e, vs, v) by {
            assert(literal(e, vs) != Some(v));
        }
    }
}

/// Whether a node pattern asks for a value under a property.
pub open spec fn asks(p: NodeV, vs: Values, key: Seq<char>, v: ValV) -> bool {
    p.props matches Some(e) && {
        ||| exists|keys: Seq<Seq<char>>, i: int|
            e.head == HeadV::MapOf(keys) && 0 <= i < keys.len() && i < e.args.len()
                && #[trigger] keys[i] == key && stands_for(e.args[i], vs, v)
        ||| exists|x: Seq<char>, k: int, i: int|
            e.head == HeadV::Param(x) && #[trigger] first_with(vs.params@, k, of_name(x))
                && vs.params@[k].entries is Some && 0 <= i < vs.params@[k].entries->0@.len()
                && #[trigger] vs.params@[k].entries->0@[i].0@ == key
                && vs.params@[k].entries->0@[i].1.v() == v
    }
}

/// Whether a record holds a value under the token of a name: the first entry of the
/// token can be read, and is the value. A value that equals none is never held.
pub open spec fn has_prop(rec: NodeRecord, t: TokensV, key: Seq<char>, v: ValV) -> bool {
    exists|k: int, j: int|
        #[trigger] names::is_first(t.props, key, k) && #[trigger] first_with(
            rec.props@,
            j,
            of_token(k),
        ) && (rec.props@[j].1 matches Some(w) && w.v() == v) && !(v is Nan)
}

/// Whether a record carries the token of a label.
pub open spec fn has_label(rec: NodeRecord, t: TokensV, label: Seq<char>) -> bool {
    rec.labels matches Some(have) && exists|k: int|
        #[trigger] names::is_first(t.labels, label, k) && have@.contains(k as u32)
}

/// Whether a node pattern matches a record: its labels can be read, it carries every
/// label of the pattern, and it holds every value that the pattern asks for.
pub open spec fn pattern_matches(p: NodeV, t: TokensV, vs: Values, rec: NodeRecord) -> bool {
    &&& rec.labels is Some
    &&& forall|i: int| 0 <= i < p.labels.len() ==> has_label(rec, t, #[trigger] p.labels[i])
    &&& forall|key: Seq<char>, v: ValV| #[trigger] asks(p, vs, key, v) ==> has_prop(rec, t, key, v)
}

/// Whether each of some expressions stands for a value whatever the row.
pub open spec fn all_stand(es: Seq<ExprV>, vs: Values) -> bool {
    forall|i: int| 0 <= i < es.len() ==> stands(#[trigger] es[i], vs)
}

/// Whether an expression stands for a value whatever the row.
pub open spec fn stands(e: ExprV, vs: Values) -> bool {
    exists|v: ValV| #[trigger] stands_for(e, vs, v)
}

/// Whether what a node pattern asks for can be said exactly: every name has a token, no
/// value is null, and its properties are a map of values that stand for themselves, or a
/// parameter that is a map.
pub open spec fn sayable(p: NodeV, t: TokensV, vs: Values) -> bool {
    &&& forall|i: int| 0 <= i < p.labels.len() ==> t.labels.contains(#[trigger] p.labels[i])
    &&& forall|key: Seq<char>, v: ValV| #[trigger]
        asks(p, vs, key, v) ==> t.props.contains(key) && !(v is Null)
    &&& p.props matches Some(e) ==> {
        ||| exists|keys: Seq<Seq<char>>|
            e.head == HeadV::MapOf(keys) && keys.len() == e.args.len() && all_stand(e.args, vs)
        ||| exists|x: Seq<char>, k: int|
            e.head == HeadV::Param(x) && #[trigger] first_with(
                vs.params@,
                k,
                of_name(x),
            ) && vs.params@[k].entries is Some
    }
}

/// What a pattern asks for are its entries.
proof fn lemma_asks(p: NodeV, vs: Values, key: Seq<char>, v: ValV)
    requires
        precision::entries_of(p.props, vs) is Some,
    ensures
        asks(p, vs, key, v) <==> precision::entries_of(p.props, vs)->0.contains((key, v)),
{
    let es = precision::entries_of(p.props, vs)->0;
    if let Some(e) = p.props {
        match e.head {
            HeadV::MapOf(keys) => {
                if es.contains((key, v)) {
                    let i = choose|i: int| 0 <= i < es.len() && es[i] == (key, v);
                    law_literal_is_its_value(e.args[i], vs);
                    assert(literal(e.args[i], vs) == Some(v));
                    assert(keys[i] == key && stands_for(e.args[i], vs, v));
                }
                if asks(p, vs, key, v) {
                    let (k2, i) = choose|k2: Seq<Seq<char>>, i: int|
                        e.head == HeadV::MapOf(k2) && 0 <= i < k2.len() && i < e.args.len()
                            && #[trigger] k2[i] == key && stands_for(e.args[i], vs, v);
                    law_literal_is_its_value(e.args[i], vs);
                    assert(literal(e.args[i], vs) == Some(v));
                    assert(es[i] == (key, v));
                }
            },
            HeadV::Param(x) => {
                lemma_param(vs, x);
                let g = of_name(x);
                let k = choose|k: int| #[trigger] first_with(vs.params@, k, g);
                let q = vs.params@[k];
                assert(param_of(vs, x) == Some(q));
                let s = q.entries->0@;
                if es.contains((key, v)) {
                    let i = choose|i: int| 0 <= i < es.len() && es[i] == (key, v);
                    assert(vs.params@[k].entries->0@[i].0@ == key);
                    assert(first_with(vs.params@, k, of_name(x)));
                }
                if asks(p, vs, key, v) {
                    let (x2, k2, i) = choose|x2: Seq<char>, k2: int, i: int|
                        e.head == HeadV::Param(x2) && #[trigger] first_with(
                            vs.params@,
                            k2,
                            of_name(x2),
                        ) && vs.params@[k2].entries is Some && 0 <= i
                            < vs.params@[k2].entries->0@.len()
                            && #[trigger] vs.params@[k2].entries->0@[i].0@ == key
                            && vs.params@[k2].entries->0@[i].1.v() == v;
                    assert(first_with(vs.params@, k2, of_name(x)));
                    assert(vs.params@[k2] == q);
                    assert(es[i] == (key, v));
                }
            },
            _ => {},
        }
    }
}

proof fn lemma_stored(rec: NodeRecord, k: u32, v: ValV)
    ensures
        precision::holds_value(rec, k, v) <==> exists|j: int| #[trigger]
            first_with(rec.props@, j, of_token(k as int)) && (
            rec.props@[j].1 matches Some(w) && w.v() == v) && !(v is Nan),
{
    let f = |q: (u32, Option<Val>)| stored_if(q, k);
    let g = of_token(k as int);
    lemma_found(rec.props@, f, g);
    if stored(rec, k) is Some {
        let j = choose|j: int| #[trigger] first_with(rec.props@, j, g);
        assert(first_with(rec.props@, j, of_token(k as int)));
        assert(stored(rec, k) == f(rec.props@[j]));
    }
    if exists|j: int| #[trigger]
        first_with(rec.props@, j, of_token(k as int)) && (rec.props@[j].1 matches
            Some(w) && w.v() == v) && !(v is Nan) {
        let j = choose|j: int| #[trigger]
            first_with(rec.props@, j, of_token(k as int)) && (
            rec.props@[j].1 matches Some(w) && w.v() == v) && !(v is Nan);
        assert(first_with(rec.props@, j, g));
        assert(stored(rec, k) == f(rec.props@[j]));
    }
}

/// Places of names are unique.
proof fn lemma_first_unique(s: Seq<Seq<char>>, x: Seq<char>, a: int, b: int)
    requires
        names::is_first(s, x, a),
        names::is_first(s, x, b),
    ensures
        a == b,
{
}

/// A pattern is turned into a restriction exactly when what it asks for can be said.
pub proof fn law_restriction_is_given(p: NodeV, t: TokensV, vs: Values)
    ensures
        restriction_of(p, t, vs) is Some <==> sayable(p, t, vs),
{
    let f = |l: Seq<char>| precision::token(t.labels, l);
    let g = |e: (Seq<char>, ValV)| precision::prop_token(t, e);
    assert forall|x: Seq<char>| #[trigger] f(x) is Some <==> t.labels.contains(x) by {
        names::lemma_position(t.labels, x);
    }
    assert forall|e: (Seq<char>, ValV)| #[trigger] g(e) is Some <==> t.props.contains(e.0) && !(
    e.1 is Null) by {
        names::lemma_position(t.props, e.0);
    }
    let given = precision::entries_of(p.props, vs);
    if let Some(e) = p.props {
        match e.head {
            HeadV::MapOf(keys) => {
                assert forall|i: int| 0 <= i < e.args.len() implies (literal(
                    #[trigger] e.args[i],
                    vs,
                ) is Some <==> stands(e.args[i], vs)) by {
                    law_literal_is_its_value(e.args[i], vs);
                    if literal(e.args[i], vs) is Some {
                        assert(stands_for(e.args[i], vs, literal(e.args[i], vs)->0));
                    }
                }
                if given is Some {
                    assert(e.head == HeadV::MapOf(keys));
                    assert forall|i: int| 0 <= i < e.args.len() implies stands(
                        #[trigger] e.args[i],
                        vs,
                    ) by {
                        assert(literal(e.args[i], vs) is Some);
                    }
                    assert(all_stand(e.args, vs));
                }
                if sayable(p, t, vs) {
                    assert(all_stand(e.args, vs));
                    assert forall|i: int| 0 <= i < e.args.len() implies literal(
                        #[trigger] e.args[i],
                        vs,
                    ) is Some by {}
                    assert(given is Some);
                }
            },
            HeadV::Param(x) => {
                lemma_param(vs, x);
                if given is Some {
                    let h = of_name(x);
                    let k = choose|k: int| #[trigger] first_with(vs.params@, k, h);
                    assert(first_with(vs.params@, k, of_name(x)));
                }
                if sayable(p, t, vs) {
                    let (y, k) = choose|y: Seq<char>, k: int|
                        e.head == HeadV::Param(y) && #[trigger] first_with(
                            vs.params@,
                            k,
                            of_name(y),
                        ) && vs.params@[k].entries is Some;
                    assert(first_with(vs.params@, k, of_name(x)));
                }
            },
            _ => {},
        }
    }
    if given is Some {
        let es = given->0;
        assert forall|key: Seq<char>, v: ValV| #[trigger] asks(p, vs, key, v) <==> es.contains(
            (key, v),
        ) by {
            lemma_asks(p, vs, key, v);
        }
        if restriction_of(p, t, vs) is Some {
            assert forall|i: int| 0 <= i < p.labels.len() implies t.labels.contains(
                #[trigger] p.labels[i],
            ) by {
                assert(f(p.labels[i]) is Some);
            }
            assert forall|key: Seq<char>, v: ValV| #[trigger]
                asks(p, vs, key, v) implies t.props.contains(key) && !(v is Null) by {
                let i = choose|i: int| 0 <= i < es.len() && es[i] == (key, v);
                assert(g(es[i]) is Some);
            }
        }
        if sayable(p, t, vs) {
            assert forall|i: int| 0 <= i < p.labels.len() implies f(#[trigger] p.labels[i]) is Some by {}
            assert forall|i: int| 0 <= i < es.len() implies g(#[trigger] es[i]) is Some by {
                assert(es.contains(es[i]));
                assert(asks(p, vs, es[i].0, es[i].1));
            }
        }
    }
}

/// A record meets the restriction of a pattern exactly when the pattern matches it: a
/// pattern of a literal is met by a record that stores the literal, and by no other.
pub proof fn law_restriction_matches_pattern(p: NodeV, t: TokensV, vs: Values, rec: NodeRecord)
    requires
        t.labels.len() <= u32::MAX,
        t.props.len() <= u32::MAX,
        restriction_of(p, t, vs) is Some,
    ensures
        meets(restriction_of(p, t, vs)->0, rec) <==> pattern_matches(p, t, vs, rec),
{
    precision::law_restriction_is_pattern(p, t, vs, rec);
    law_restriction_is_given(p, t, vs);
    let es = precision::entries_of(p.props, vs)->0;
    if rec.labels is Some {
        let have = rec.labels->0@;
        assert forall|i: int| 0 <= i < p.labels.len() implies (have.contains(
            precision::token(t.labels, #[trigger] p.labels[i])->0,
        ) <==> has_label(rec, t, p.labels[i])) by {
            let l = p.labels[i];
            names::lemma_position(t.labels, l);
            assert(t.labels.contains(p.labels[i]));
            let k = names::position(t.labels, l)->0;
            if have.contains(k as u32) {
                assert(names::is_first(t.labels, l, k));
            }
            if has_label(rec, t, l) {
                let k2 = choose|k2: int|
                    #[trigger] names::is_first(t.labels, l, k2) && have.contains(k2 as u32);
                lemma_first_unique(t.labels, l, k, k2);
            }
        }
    }
    assert forall|i: int| 0 <= i < es.len() implies (precision::holds_value(
        rec,
        precision::token(t.props, (#[trigger] es[i]).0)->0,
        es[i].1,
    ) <==> has_prop(rec, t, es[i].0, es[i].1)) by {
        let key = es[i].0;
        let v = es[i].1;
        assert(es.contains((key, v)));
        lemma_asks(p, vs, key, v);
        assert(t.props.contains(key));
        names::lemma_position(t.props, key);
        let k = names::position(t.props, key)->0;
        lemma_stored(rec, k as u32, v);
        if has_prop(rec, t, key, v) {
            let (k2, j) = choose|k2: int, j: int|
                #[trigger] names::is_first(t.props, key, k2) && #[trigger] first_with(
                    rec.props@,
                    j,
                    of_token(k2),
                ) && (rec.props@[j].1 matches Some(w) && w.v() == v) && !(v is Nan);
            lemma_first_unique(t.props, key, k, k2);
            assert(first_with(rec.props@, j, of_token((k as u32) as int)));
        }
        if precision::holds_value(rec, k as u32, v) {
            let j = choose|j: int| #[trigger]
                first_with(rec.props@, j, of_token((k as u32) as int)) && (
                rec.props@[j].1 matches Some(w) && w.v() == v) && !(v is Nan);
            assert(first_with(rec.props@, j, of_token(k)));
        }
    }
    if pattern_matches(p, t, vs, rec) {
        assert forall|i: int| 0 <= i < es.len() implies precision::holds_value(
            rec,
            precision::token(t.props, (#[trigger] es[i]).0)->0,
            es[i].1,
        ) by {
            assert(es.contains((es[i].0, es[i].1)));
            lemma_asks(p, vs, es[i].0, es[i].1);
            assert(asks(p, vs, es[i].0, es[i].1));
        }
    }
    if meets(restriction_of(p, t, vs)->0, rec) {
        assert forall|key: Seq<char>, v: ValV| #[trigger] asks(p, vs, key, v) implies has_prop(
            rec,
            t,
            key,
            v,
        ) by {
            lemma_asks(p, vs, key, v);
            let i = choose|i: int| 0 <= i < es.len() && es[i] == (key, v);
            assert(precision::holds_value(
                rec,
                precision::token(t.props, es[i].0)->0,
                es[i].1,
            ));
        }
    }
}

/// Whether a key starts with a prefix.
pub open spec fn starts_with(key: Seq<u8>, prefix: Seq<u8>) -> bool {
    prefix.len() <= key.len() && forall|i: int| 0 <= i < prefix.len() ==> key[i] == prefix[i]
}

/// A guard made of patterns reports a change exactly when it put a node that one of the
/// patterns matches: no phantom is missed, and nothing else aborts a commit.
pub proof fn law_guard_reports_phantoms(
    ps: Seq<NodeV>,
    t: TokensV,
    vs: Values,
    prefix: Seq<u8>,
    rs: Seq<RestrictionV>,
    key: Seq<u8>,
    is_put: bool,
    rec: Option<NodeRecord>,
)
    requires
        t.labels.len() <= u32::MAX,
        t.props.len() <= u32::MAX,
        rs.len() == ps.len(),
        forall|i: int|
            0 <= i < ps.len() ==> restriction_of(#[trigger] ps[i], t, vs) == Some(rs[i]),
    ensures
        conflict(prefix, rs, key, is_put, rec) <==> {
            &&& is_put
            &&& starts_with(key, prefix)
            &&& rec is Some
            &&& exists|i: int|
                0 <= i < ps.len() && pattern_matches(#[trigger] ps[i], t, vs, rec->0)
        },
{
    assert(precision::node_key(prefix, key) <==> starts_with(key, prefix)) by {
        if starts_with(key, prefix) {
            assert(prefix =~= key.subrange(0, prefix.len() as int));
        }
        if precision::node_key(prefix, key) {
            assert forall|i: int| 0 <= i < prefix.len() implies key[i] == prefix[i] by {
                assert(key.subrange(0, prefix.len() as int)[i] == prefix[i]);
            }
        }
    }
    if rec is Some {
        let r = rec->0;
        assert forall|i: int| 0 <= i < ps.len() implies (meets(rs[i], r) <==> pattern_matches(
            #[trigger] ps[i],
            t,
            vs,
            r,
        )) by {
            law_restriction_matches_pattern(ps[i], t, vs, r);
        }
        if exists|i: int| 0 <= i < rs.len() && meets(#[trigger] rs[i], r) {
            let i = choose|i: int| 0 <= i < rs.len() && meets(#[trigger] rs[i], r);
            assert(pattern_matches(ps[i], t, vs, r));
        }
    }
}

} // verus!
