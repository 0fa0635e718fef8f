//! What a read would have matched: the restriction of a node pattern, tested
//! against nodes that were committed since.

use vstd::prelude::*;

use crate::ast;
use crate::ast::{Expr, ExprV, Head, HeadV};
use crate::names;
use crate::names::name_index;
use crate::query::{NodePattern, NodeV};
use crate::reduce;
use crate::reduce::{Val, ValV};
use crate::seqs;

verus! {

/// The names that have a token: a name's token is its place.
#[derive(Debug)]
pub struct Tokens {
    pub labels: Vec<String>,
    pub props: Vec<String>,
}

/// [`Tokens`].
pub struct TokensV {
    pub labels: Seq<Seq<char>>,
    pub props: Seq<Seq<char>>,
}

impl Tokens {
    pub open spec fn v(self) -> TokensV {
        TokensV { labels: names::of(self.labels@), props: names::of(self.props@) }
    }

    /// Tokens are as wide as they are stored.
    pub open spec fn wf(self) -> bool {
        self.labels@.len() <= u32::MAX && self.props@.len() <= u32::MAX
    }
}

/// A parameter: its value and, where that is a map, its entries. Two values are
/// the same value here exactly when they are equal for certain.
#[derive(Debug)]
pub struct Param {
    pub name: String,
    pub value: Val,
    pub entries: Option<Vec<(String, Val)>>,
}

/// The values of a statement: its parameters, and its float literals by their
/// bits.
#[derive(Debug)]
pub struct Values {
    pub params: Vec<Param>,
    pub floats: Vec<(u64, Val)>,
}

/// Properties by name.
pub open spec fn entries_v(s: Seq<(String, Val)>) -> Seq<(Seq<char>, ValV)> {
    s.map_values(|e: (String, Val)| (e.0@, e.1.v()))
}

/// Whether a parameter has a name.
pub open spec fn param_if(p: Param, x: Seq<char>) -> Option<Param> {
    if p.name@ == x {
        Some(p)
    } else {
        None
    }
}

/// The first parameter with a name.
pub open spec fn param_of(vs: Values, x: Seq<char>) -> Option<Param> {
    seqs::find_map(vs.params@, |p: Param| param_if(p, x))
}

/// The value of a float literal.
pub open spec fn float_of(vs: Values, bits: u64) -> Option<ValV> {
    seqs::find_map(vs.floats@, |f: (u64, Val)| float_if(f, bits))
}

/// The value of a float, if it has these bits.
pub open spec fn float_if(f: (u64, Val), bits: u64) -> Option<ValV> {
    if f.0 == bits {
        Some(f.1.v())
    } else {
        None
    }
}

/// The value of an expression that does not depend on a row: a literal or a
/// parameter, and nothing else.
pub open spec fn literal(e: ExprV, vs: Values) -> Option<ValV> {
    match e.head {
        HeadV::Bool(b) => Some(ValV::Bool(b)),
        HeadV::Int(i) => Some(ValV::Int(i)),
        HeadV::Float(bits) => float_of(vs, bits),
        HeadV::Str(s) => Some(ValV::Str(s)),
        HeadV::Param(x) => match param_of(vs, x) {
            Some(p) => Some(p.value.v()),
            None => None,
        },
        _ => None,
    }
}

/// A value that may be missing.
pub open spec fn val_opt(v: Option<Val>) -> Option<ValV> {
    match v {
        Some(v) => Some(v.v()),
        None => None,
    }
}

fn find_param<'a>(vs: &'a Values, x: &String) -> (r: Option<&'a Param>)
    ensures
        match r {
            Some(p) => param_of(*vs, x@) == Some(*p),
            None => param_of(*vs, x@) is None,
        },
{
    let ghost f = |p: Param| param_if(p, x@);
    let mut i: usize = 0;
    while i < vs.params.len()
        invariant
            i <= vs.params@.len(),
            f == (|p: Param| param_if(p, x@)),
            forall|j: int| 0 <= j < i ==> f(#[trigger] vs.params@[j]) is None,
        decreases vs.params.len() - i,
    {
        if vs.params[i].name == *x {
            proof {
                seqs::lemma_find_map(vs.params@, f, i as int);
            }
            return Some(&vs.params[i]);
        }
        i = i + 1;
    }
    proof {
        seqs::lemma_find_map(vs.params@, f, vs.params@.len() as int);
    }
    None
}

fn find_float(vs: &Values, bits: u64) -> (r: Option<Val>)
    ensures
        val_opt(r) == float_of(*vs, bits),
{
    let ghost f = |p: (u64, Val)| float_if(p, bits);
    let mut i: usize = 0;
    while i < vs.floats.len()
        invariant
            i <= vs.floats@.len(),
            f == (|p: (u64, Val)| float_if(p, bits)),
            forall|j: int| 0 <= j < i ==> f(#[trigger] vs.floats@[j]) is None,
        decreases vs.floats.len() - i,
    {
        if vs.floats[i].0 == bits {
            proof {
                seqs::lemma_find_map(vs.floats@, f, i as int);
            }
            return Some(vs.floats[i].1.copy());
        }
        i = i + 1;
    }
    proof {
        seqs::lemma_find_map(vs.floats@, f, vs.floats@.len() as int);
    }
    None
}

/// The value of an expression that does not depend on a row.
pub fn literal_value(e: &Expr, vs: &Values) -> (r: Option<Val>)
    ensures
        val_opt(r) == literal(e.v(), *vs),
{
    match &e.head {
        Head::Bool(b) => Some(Val::Bool(*b)),
        Head::Int(i) => Some(Val::Int(*i)),
        Head::Float(bits) => find_float(vs, *bits),
        Head::Str(s) => Some(Val::Str(s.clone())),
        Head::Param(x) => match find_param(vs, x) {
            Some(p) => Some(p.value.copy()),
            None => None,
        },
        _ => None,
    }
}

/// The property equalities of a pattern, by name.
pub open spec fn entries_of(props: Option<ExprV>, vs: Values) -> Option<Seq<(Seq<char>, ValV)>> {
    match props {
        None => Some(Seq::empty()),
        Some(e) => match e.head {
            HeadV::MapOf(keys) => if keys.len() == e.args.len() && forall|i: int|
                0 <= i < e.args.len() ==> literal(#[trigger] e.args[i], vs) is Some {
                Some(Seq::new(keys.len(), |i: int| (keys[i], literal(e.args[i], vs)->0)))
            } else {
                None
            },
            HeadV::Param(x) => match param_of(vs, x) {
                Some(p) => match p.entries {
                    Some(es) => Some(entries_v(es@)),
                    None => None,
                },
                None => None,
            },
            _ => None,
        },
    }
}

/// A node pattern, resolved to tokens.
#[derive(Debug)]
pub struct Restriction {
    /// The labels that the node carries, all of them.
    pub labels: Vec<u32>,
    /// The properties that the node has, all of them.
    pub props: Vec<(u32, Val)>,
}

/// A [`Restriction`].
#[verifier::ext_equal]
pub struct RestrictionV {
    pub labels: Seq<u32>,
    pub props: Seq<(u32, ValV)>,
}

/// Properties by token.
pub open spec fn props_v(s: Seq<(u32, Val)>) -> Seq<(u32, ValV)> {
    s.map_values(|p: (u32, Val)| (p.0, p.1.v()))
}

impl Restriction {
    pub open spec fn v(self) -> RestrictionV {
        RestrictionV { labels: self.labels@, props: props_v(self.props@) }
    }
}

/// A list with one more token, in its place.
pub open spec fn place_token(s: Seq<u32>, t: u32) -> Seq<u32>
    decreases s.len(),
{
    if s.len() == 0 || s.last() <= t {
        s.push(t)
    } else {
        place_token(s.drop_last(), t).push(s.last())
    }
}

/// Tokens, ascending.
pub open spec fn sort_tokens(s: Seq<u32>) -> Seq<u32>
    decreases s.len(),
{
    if s.len() == 0 {
        Seq::empty()
    } else {
        place_token(sort_tokens(s.drop_last()), s.last())
    }
}

/// A list with one more property, in its place.
pub open spec fn place_prop(s: Seq<(u32, ValV)>, p: (u32, ValV)) -> Seq<(u32, ValV)>
    decreases s.len(),
{
    if s.len() == 0 || s.last().0 <= p.0 {
        s.push(p)
    } else {
        place_prop(s.drop_last(), p).push(s.last())
    }
}

/// Properties by ascending token; those of one token stay in order.
pub open spec fn sort_props(s: Seq<(u32, ValV)>) -> Seq<(u32, ValV)>
    decreases s.len(),
{
    if s.len() == 0 {
        Seq::empty()
    } else {
        place_prop(sort_props(s.drop_last()), s.last())
    }
}

/// The token of a name.
pub open spec fn token(all: Seq<Seq<char>>, x: Seq<char>) -> Option<u32> {
    match names::position(all, x) {
        Some(i) => Some(i as u32),
        None => None,
    }
}

/// A property with its token; none for a name without a token or for a null.
pub open spec fn prop_token(t: TokensV, e: (Seq<char>, ValV)) -> Option<(u32, ValV)> {
    match token(t.props, e.0) {
        Some(k) => if e.1 is Null {
            None
        } else {
            Some((k, e.1))
        },
        None => None,
    }
}

/// What a node pattern asks of a node, where that can be said exactly.
pub open spec fn restriction_of(p: NodeV, t: TokensV, vs: Values) -> Option<RestrictionV> {
    match (
        seqs::try_map(p.labels, |l: Seq<char>| token(t.labels, l)),
        entries_of(p.props, vs),
    ) {
        (Some(labels), Some(es)) => match seqs::try_map(
            es,
            |e: (Seq<char>, ValV)| prop_token(t, e),
        ) {
            Some(props) => Some(
                RestrictionV { labels: sort_tokens(labels), props: sort_props(props) },
            ),
            None => None,
        },
        _ => None,
    }
}

fn insert_token(v: &mut Vec<u32>, t: u32)
    ensures
        final(v)@ == place_token(old(v)@, t),
{
    let mut i: usize = v.len();
    let ghost s = v@;
    assert(s.take(i as int) =~= s);
    assert(place_token(s.take(i as int), t) + s.skip(i as int) =~= place_token(s, t));
    while i > 0 && v[i - 1] > t
        invariant
            i <= v@.len(),
            v@ == s,
            place_token(s.take(i as int), t) + s.skip(i as int) == place_token(s, t),
        decreases i,
    {
        proof {
            seqs::lemma_take_last(s, i - 1);
            assert(s.skip(i - 1) =~= seq![s[i - 1]] + s.skip(i as int));
            assert(place_token(s.take(i - 1), t) + s.skip(i - 1) =~= place_token(
                s.take(i as int),
                t,
            ) + s.skip(i as int));
        }
        i = i - 1;
    }
    proof {
        if i > 0 {
            assert(s.take(i as int).last() == s[i - 1]);
        }
        assert(s.insert(i as int, t) =~= s.take(i as int).push(t) + s.skip(i as int));
    }
    v.insert(i, t);
}

fn insert_prop(v: &mut Vec<(u32, Val)>, p: (u32, Val))
    ensures
        props_v(final(v)@) == place_prop(props_v(old(v)@), (p.0, p.1.v())),
{
    let ghost s = props_v(v@);
    let ghost q = (p.0, p.1.v());
    let ghost v0 = v@;
    let mut i: usize = v.len();
    assert(s.take(i as int) =~= s);
    assert(place_prop(s.take(i as int), q) + s.skip(i as int) =~= place_prop(s, q));
    while i > 0 && v[i - 1].0 > p.0
        invariant
            i <= v@.len(),
            v@ == v0,
            s == props_v(v@),
            q == (p.0, p.1.v()),
            place_prop(s.take(i as int), q) + s.skip(i as int) == place_prop(s, q),
        decreases i,
    {
        proof {
            seqs::lemma_take_last(s, i - 1);
            assert(s[i - 1].0 == v@[i - 1].0);
            assert(s.skip(i - 1) =~= seq![s[i - 1]] + s.skip(i as int));
            assert(place_prop(s.take(i - 1), q) + s.skip(i - 1) =~= place_prop(
                s.take(i as int),
                q,
            ) + s.skip(i as int));
        }
        i = i - 1;
    }
    proof {
        if i > 0 {
            assert(s.take(i as int).last() == s[i - 1]);
            assert(s[i - 1].0 == v@[i - 1].0);
        }
        assert(s.insert(i as int, q) =~= s.take(i as int).push(q) + s.skip(i as int));
    }
    v.insert(i, p);
    assert(props_v(v@) =~= s.insert(i as int, q));
}

fn label_tokens(labels: &Vec<String>, t: &Tokens) -> (r: Option<Vec<u32>>)
    requires
        t.wf(),
    ensures
        match seqs::try_map(names::of(labels@), |l: Seq<char>| token(t.v().labels, l)) {
            Some(s) => r matches Some(v) && v@ == sort_tokens(s),
            None => r is None,
        },
{
    let ghost ls = names::of(labels@);
    let ghost f = |l: Seq<char>| token(t.v().labels, l);
    let ghost g = |l: Seq<char>| f(l)->0;
    let mut r: Vec<u32> = Vec::new();
    let mut i: usize = 0;
    assert(ls.map_values(g).take(0) =~= Seq::empty());
    while i < labels.len()
        invariant
            i <= labels@.len(),
            t.wf(),
            ls == names::of(labels@),
            f == (|l: Seq<char>| token(t.v().labels, l)),
            g == (|l: Seq<char>| f(l)->0),
            forall|j: int| 0 <= j < i ==> f(#[trigger] ls[j]) is Some,
            r@ == sort_tokens(ls.map_values(g).take(i as int)),
        decreases labels.len() - i,
    {
        assert(ls[i as int] == labels@[i as int]@);
        match name_index(&t.labels, &labels[i]) {
            Some(k) => {
                proof {
                    seqs::lemma_take_last(ls.map_values(g), i as int);
                    assert(f(ls[i as int]) == Some(k as u32));
                }
                insert_token(&mut r, k as u32);
            },
            None => {
                assert(f(ls[i as int]) is None);
                return None;
            },
        }
        i = i + 1;
    }
    proof {
        assert(ls.map_values(g).take(i as int) =~= ls.map_values(g));
        assert(seqs::try_map(ls, f) == Some(ls.map_values(|a: Seq<char>| f(a)->0)));
        assert(ls.map_values(g) =~= ls.map_values(|a: Seq<char>| f(a)->0));
    }
    Some(r)
}

fn map_entries(keys: &Vec<String>, args: &Vec<Expr>, vs: &Values) -> (r: Option<Vec<(String, Val)>>)
    ensures
        ({
            let ks = names::of(keys@);
            let es = ast::exprs_v(args@);
            let ok = ks.len() == es.len() && forall|i: int|
                0 <= i < es.len() ==> literal(#[trigger] es[i], *vs) is Some;
            match r {
                Some(v) => ok && entries_v(v@) == Seq::new(
                    ks.len(),
                    |i: int| (ks[i], literal(es[i], *vs)->0),
                ),
                None => !ok,
            }
        }),
{
    let ghost ks = names::of(keys@);
    let ghost es = ast::exprs_v(args@);
    if keys.len() != args.len() {
        assert(ks.len() != es.len());
        return None;
    }
    let mut r: Vec<(String, Val)> = Vec::new();
    let mut i: usize = 0;
    while i < args.len()
        invariant
            i <= args@.len(),
            keys@.len() == args@.len(),
            ks == names::of(keys@),
            es == ast::exprs_v(args@),
            r@.len() == i,
            forall|j: int| 0 <= j < i ==> literal(#[trigger] es[j], *vs) is Some,
            forall|j: int|
                0 <= j < i ==> (#[trigger] r@[j]).0@ == ks[j] && r@[j].1.v() == literal(
                    es[j],
                    *vs,
                )->0,
        decreases args.len() - i,
    {
        assert(es[i as int] == args@[i as int].v());
        match literal_value(&args[i], vs) {
            Some(v) => {
                r.push((keys[i].clone(), v));
            },
            None => {
                assert(literal(es[i as int], *vs) is None);
                return None;
            },
        }
        i = i + 1;
    }
    assert(entries_v(r@) =~= Seq::new(ks.len(), |i: int| (ks[i], literal(es[i], *vs)->0)));
    Some(r)
}

fn copy_entries(es: &Vec<(String, Val)>) -> (r: Vec<(String, Val)>)
    ensures
        entries_v(r@) == entries_v(es@),
{
    let mut r: Vec<(String, Val)> = Vec::new();
    let mut i: usize = 0;
    while i < es.len()
        invariant
            i <= es@.len(),
            r@.len() == i,
            forall|j: int|
                0 <= j < i ==> (#[trigger] r@[j]).0@ == es@[j].0@ && r@[j].1.v() == es@[j].1.v(),
        decreases es.len() - i,
    {
        r.push((es[i].0.clone(), es[i].1.copy()));
        i = i + 1;
    }
    assert(entries_v(r@) =~= entries_v(es@));
    r
}

fn pattern_entries(props: &Option<Expr>, vs: &Values) -> (r: Option<Vec<(String, Val)>>)
    ensures
        match entries_of(ast::opt_v(*props), *vs) {
            Some(es) => r matches Some(v) && entries_v(v@) == es,
            None => r is None,
        },
{
    match props {
        None => {
            let r: Vec<(String, Val)> = Vec::new();
            assert(entries_v(r@) =~= Seq::empty());
            Some(r)
        },
        Some(e) => {
            assert(e.v().args =~= ast::exprs_v(e.args@));
            match &e.head {
                Head::MapOf(keys) => map_entries(keys, &e.args, vs),
                Head::Param(x) => match find_param(vs, x) {
                    Some(p) => match &p.entries {
                        Some(es) => Some(copy_entries(es)),
                        None => None,
                    },
                    None => None,
                },
                _ => None,
            }
        },
    }
}

fn prop_tokens(es: &Vec<(String, Val)>, t: &Tokens) -> (r: Option<Vec<(u32, Val)>>)
    requires
        t.wf(),
    ensures
        match seqs::try_map(entries_v(es@), |e: (Seq<char>, ValV)| prop_token(t.v(), e)) {
            Some(s) => r matches Some(v) && props_v(v@) == sort_props(s),
            None => r is None,
        },
{
    let ghost ev = entries_v(es@);
    let ghost f = |e: (Seq<char>, ValV)| prop_token(t.v(), e);
    let ghost g = |e: (Seq<char>, ValV)| f(e)->0;
    let mut r: Vec<(u32, Val)> = Vec::new();
    let mut i: usize = 0;
    proof {
        assert(ev.map_values(g).take(0) =~= Seq::empty());
        assert(props_v(r@) =~= Seq::empty());
    }
    while i < es.len()
        invariant
            i <= es@.len(),
            t.wf(),
            ev == entries_v(es@),
            f == (|e: (Seq<char>, ValV)| prop_token(t.v(), e)),
            g == (|e: (Seq<char>, ValV)| f(e)->0),
            forall|j: int| 0 <= j < i ==> f(#[trigger] ev[j]) is Some,
            props_v(r@) == sort_props(ev.map_values(g).take(i as int)),
        decreases es.len() - i,
    {
        assert(ev[i as int] == (es@[i as int].0@, es@[i as int].1.v()));
        if matches!(es[i].1, Val::Null) {
            assert(f(ev[i as int]) is None);
            return None;
        }
        match name_index(&t.props, &es[i].0) {
            Some(k) => {
                let v = es[i].1.copy();
                proof {
                    seqs::lemma_take_last(ev.map_values(g), i as int);
                    assert(f(ev[i as int]) == Some((k as u32, v.v())));
                }
                insert_prop(&mut r, (k as u32, v));
            },
            None => {
                assert(f(ev[i as int]) is None);
                return None;
            },
        }
        i = i + 1;
    }
    proof {
        assert(ev.map_values(g).take(i as int) =~= ev.map_values(g));
        assert(seqs::try_map(ev, f) == Some(
            ev.map_values(|a: (Seq<char>, ValV)| f(a)->0),
        ));
        assert(ev.map_values(g) =~= ev.map_values(|a: (Seq<char>, ValV)| f(a)->0));
    }
    Some(r)
}

/// A node that was committed, as far as a restriction looks at it.
#[derive(Debug)]
pub struct NodeRecord {
    /// Its label tokens; none where they cannot be read.
    pub labels: Option<Vec<u32>>,
    /// Its properties by token; a value that cannot be read is none.
    pub props: Vec<(u32, Option<Val>)>,
}

/// Whether the first entry of a token holds a value.
pub open spec fn stored_if(p: (u32, Option<Val>), t: u32) -> Option<Option<ValV>> {
    if p.0 == t {
        Some(val_opt(p.1))
    } else {
        None
    }
}

/// What a record holds under a token.
pub open spec fn stored(rec: NodeRecord, t: u32) -> Option<Option<ValV>> {
    seqs::find_map(rec.props@, |p: (u32, Option<Val>)| stored_if(p, t))
}

/// Whether a record holds a value under a token.
pub open spec fn holds_value(rec: NodeRecord, t: u32, want: ValV) -> bool {
    stored(rec, t) matches Some(Some(v)) && reduce::same_val(v, want)
}

/// Whether a record meets a restriction: it carries every label and has every
/// property.
pub open spec fn meets(r: RestrictionV, rec: NodeRecord) -> bool {
    &&& rec.labels matches Some(have) && forall|i: int|
        0 <= i < r.labels.len() ==> have@.contains(#[trigger] r.labels[i])
    &&& forall|i: int|
        0 <= i < r.props.len() ==> holds_value(rec, (#[trigger] r.props[i]).0, r.props[i].1)
}

fn has_token(v: &Vec<u32>, t: u32) -> (b: bool)
    ensures
        b == v@.contains(t),
{
    let mut i: usize = 0;
    while i < v.len()
        invariant
            i <= v@.len(),
            forall|j: int| 0 <= j < i ==> v@[j] != t,
        decreases v.len() - i,
    {
        if v[i] == t {
            assert(v@[i as int] == t);
            return true;
        }
        i = i + 1;
    }
    false
}

fn holds(rec: &NodeRecord, t: u32, want: &Val) -> (b: bool)
    ensures
        b == holds_value(*rec, t, want.v()),
{
    let ghost f = |p: (u32, Option<Val>)| stored_if(p, t);
    let mut i: usize = 0;
    while i < rec.props.len()
        invariant
            i <= rec.props@.len(),
            f == (|p: (u32, Option<Val>)| stored_if(p, t)),
            forall|j: int| 0 <= j < i ==> f(#[trigger] rec.props@[j]) is None,
        decreases rec.props.len() - i,
    {
        if rec.props[i].0 == t {
            proof {
                seqs::lemma_find_map(rec.props@, f, i as int);
            }
            return match &rec.props[i].1 {
                Some(v) => v.groups_with(want),
                None => false,
            };
        }
        i = i + 1;
    }
    proof {
        seqs::lemma_find_map(rec.props@, f, rec.props@.len() as int);
    }
    false
}

/// A restriction that may be missing.
pub open spec fn restriction_opt(r: Option<Restriction>) -> Option<RestrictionV> {
    match r {
        Some(r) => Some(r.v()),
        None => None,
    }
}

impl Restriction {
    /// The restriction of a node pattern. Declines wherever it could only be
    /// approximated: a name without a token, a property that depends on a row,
    /// or one that is null.
    pub fn extract(p: &NodePattern, t: &Tokens, vs: &Values) -> (r: Option<Restriction>)
        requires
            t.wf(),
        ensures
            restriction_opt(r) == restriction_of(p.v(), t.v(), *vs),
    {
        let labels = match label_tokens(&p.labels, t) {
            Some(l) => l,
            None => {
                return None;
            },
        };
        let entries = match pattern_entries(&p.props, vs) {
            Some(e) => e,
            None => {
                return None;
            },
        };
        match prop_tokens(&entries, t) {
            Some(props) => Some(Restriction { labels, props }),
            None => None,
        }
    }

    /// Whether a record meets the restriction.
    pub fn matches(&self, rec: &NodeRecord) -> (b: bool)
        ensures
            b == meets(self.v(), *rec),
    {
        let have = match &rec.labels {
            Some(h) => h,
            None => {
                return false;
            },
        };
        let mut i: usize = 0;
        while i < self.labels.len()
            invariant
                i <= self.labels@.len(),
                rec.labels == Some(*have),
                forall|j: int| 0 <= j < i ==> have@.contains(#[trigger] self.v().labels[j]),
            decreases self.labels.len() - i,
        {
            if !has_token(have, self.labels[i]) {
                assert(!have@.contains(self.v().labels[i as int]));
                return false;
            }
            i = i + 1;
        }
        let mut k: usize = 0;
        while k < self.props.len()
            invariant
                k <= self.props@.len(),
                rec.labels == Some(*have),
                forall|j: int|
                    0 <= j < self.v().labels.len() ==> have@.contains(
                        #[trigger] self.v().labels[j],
                    ),
                forall|j: int|
                    0 <= j < k ==> holds_value(
                        *rec,
                        (#[trigger] self.v().props[j]).0,
                        self.v().props[j].1,
                    ),
            decreases self.props.len() - k,
        {
            assert(self.v().props[k as int] == (
                self.props@[k as int].0,
                self.props@[k as int].1.v(),
            ));
            if !holds(rec, self.props[k].0, &self.props[k].1) {
                assert(!holds_value(
                    *rec,
                    self.v().props[k as int].0,
                    self.v().props[k as int].1,
                ));
                return false;
            }
            k = k + 1;
        }
        true
    }
}

/// The restrictions of a transaction.
#[derive(Debug)]
pub struct PredicateGuard {
    /// What the keys of node records start with.
    pub nodes_prefix: Vec<u8>,
    pub restrictions: Vec<Restriction>,
}

/// Whether a key is that of a node record.
pub open spec fn node_key(prefix: Seq<u8>, key: Seq<u8>) -> bool {
    prefix.is_prefix_of(key)
}

/// Restrictions.
pub open spec fn restrictions_v(s: Seq<Restriction>) -> Seq<RestrictionV> {
    s.map_values(|r: Restriction| r.v())
}

/// Whether a change conflicts with restrictions: it put a node record, and what
/// is stored under its key now meets one of them.
pub open spec fn conflict(
    prefix: Seq<u8>,
    rs: Seq<RestrictionV>,
    key: Seq<u8>,
    is_put: bool,
    rec: Option<NodeRecord>,
) -> bool {
    is_put && node_key(prefix, key) && (rec matches Some(r) && exists|i: int|
        0 <= i < rs.len() && meets(#[trigger] rs[i], r))
}

impl PredicateGuard {
    /// The part of a key that names a node; none where the key is not that of a
    /// node record, or the change was no put.
    pub fn node_of(&self, key: &Vec<u8>, is_put: bool) -> (r: Option<Vec<u8>>)
        ensures
            match r {
                Some(body) => is_put && node_key(self.nodes_prefix@, key@) && body@ == key@.skip(
                    self.nodes_prefix@.len() as int,
                ),
                None => !is_put || !node_key(self.nodes_prefix@, key@),
            },
    {
        if !is_put {
            return None;
        }
        let n = self.nodes_prefix.len();
        if key.len() < n {
            return None;
        }
        let mut i: usize = 0;
        while i < n
            invariant
                i <= n == self.nodes_prefix@.len(),
                n <= key@.len(),
                is_put,
                forall|j: int| 0 <= j < i ==> self.nodes_prefix@[j] == key@[j],
            decreases n - i,
        {
            if self.nodes_prefix[i] != key[i] {
                assert(!node_key(self.nodes_prefix@, key@)) by {
                    assert(key@.subrange(0, n as int)[i as int] == key@[i as int]);
                }
                return None;
            }
            i = i + 1;
        }
        assert(node_key(self.nodes_prefix@, key@)) by {
            assert(self.nodes_prefix@ =~= key@.subrange(0, n as int));
        }
        let mut body: Vec<u8> = Vec::new();
        let mut k: usize = n;
        while k < key.len()
            invariant
                n <= k <= key@.len(),
                body@ == key@.subrange(n as int, k as int),
            decreases key.len() - k,
        {
            body.push(key[k]);
            assert(body@ =~= key@.subrange(n as int, k + 1));
            k = k + 1;
        }
        assert(body@ =~= key@.skip(n as int));
        Some(body)
    }

    /// Whether a change conflicts, given what is stored under its key now.
    pub fn conflicts(&self, key: &Vec<u8>, is_put: bool, rec: Option<&NodeRecord>) -> (b: bool)
        ensures
            b == conflict(
                self.nodes_prefix@,
                restrictions_v(self.restrictions@),
                key@,
                is_put,
                match rec {
                    Some(r) => Some(*r),
                    None => None,
                },
            ),
    {
        if self.node_of(key, is_put).is_none() {
            return false;
        }
        let ghost rs = restrictions_v(self.restrictions@);
        match rec {
            Some(r) => {
                let mut i: usize = 0;
                while i < self.restrictions.len()
                    invariant
                        i <= self.restrictions@.len(),
                        rec == Some(r),
                        rs == restrictions_v(self.restrictions@),
                        is_put,
                        node_key(self.nodes_prefix@, key@),
                        forall|j: int| 0 <= j < i ==> !meets(#[trigger] rs[j], *r),
                    decreases self.restrictions.len() - i,
                {
                    assert(rs[i as int] == self.restrictions@[i as int].v());
                    if self.restrictions[i].matches(r) {
                        assert(meets(rs[i as int], *r));
                        return true;
                    }
                    i = i + 1;
                }
                false
            },
            None => false,
        }
    }
}

/// A deletion conflicts with nothing, whatever is stored.
pub proof fn law_deletion_never_conflicts(
    prefix: Seq<u8>,
    rs: Seq<RestrictionV>,
    key: Seq<u8>,
    rec: Option<NodeRecord>,
)
    ensures
        !conflict(prefix, rs, key, false, rec),
{
}

/// More restrictions only bring more conflicts.
pub proof fn law_guard_is_monotone(
    prefix: Seq<u8>,
    a: Seq<RestrictionV>,
    b: Seq<RestrictionV>,
    key: Seq<u8>,
    is_put: bool,
    rec: Option<NodeRecord>,
)
    ensures
        conflict(prefix, a + b, key, is_put, rec) <==> conflict(prefix, a, key, is_put, rec)
            || conflict(prefix, b, key, is_put, rec),
{
    if let Some(r) = rec {
        let s = a + b;
        if exists|i: int| 0 <= i < s.len() && meets(#[trigger] s[i], r) {
            let i = choose|i: int| 0 <= i < s.len() && meets(#[trigger] s[i], r);
            if i < a.len() {
                assert(meets(a[i], r));
            } else {
                assert(meets(b[i - a.len()], r));
            }
        }
        if exists|i: int| 0 <= i < a.len() && meets(#[trigger] a[i], r) {
            let i = choose|i: int| 0 <= i < a.len() && meets(#[trigger] a[i], r);
            assert(meets(s[i], r));
        }
        if exists|i: int| 0 <= i < b.len() && meets(#[trigger] b[i], r) {
            let i = choose|i: int| 0 <= i < b.len() && meets(#[trigger] b[i], r);
            assert(meets(s[a.len() + i], r));
        }
    }
}

proof fn lemma_place_token(s: Seq<u32>, t: u32, x: u32)
    ensures
        place_token(s, t).contains(x) <==> s.contains(x) || x == t,
    decreases s.len(),
{
    if s.len() == 0 || s.last() <= t {
        seqs::lemma_push_contains(s, t, x);
    } else {
        lemma_place_token(s.drop_last(), t, x);
        seqs::lemma_push_contains(place_token(s.drop_last(), t), s.last(), x);
        seqs::lemma_push_contains(s.drop_last(), s.last(), x);
        assert(s =~= s.drop_last().push(s.last()));
    }
}

proof fn lemma_sort_tokens(s: Seq<u32>, x: u32)
    ensures
        sort_tokens(s).contains(x) <==> s.contains(x),
    decreases s.len(),
{
    if s.len() > 0 {
        lemma_sort_tokens(s.drop_last(), x);
        lemma_place_token(sort_tokens(s.drop_last()), s.last(), x);
        seqs::lemma_push_contains(s.drop_last(), s.last(), x);
        assert(s =~= s.drop_last().push(s.last()));
    }
}

proof fn lemma_place_prop(s: Seq<(u32, ValV)>, p: (u32, ValV), x: (u32, ValV))
    ensures
        place_prop(s, p).contains(x) <==> s.contains(x) || x == p,
    decreases s.len(),
{
    if s.len() == 0 || s.last().0 <= p.0 {
        seqs::lemma_push_contains(s, p, x);
    } else {
        lemma_place_prop(s.drop_last(), p, x);
        seqs::lemma_push_contains(place_prop(s.drop_last(), p), s.last(), x);
        seqs::lemma_push_contains(s.drop_last(), s.last(), x);
        assert(s =~= s.drop_last().push(s.last()));
    }
}

proof fn lemma_sort_props(s: Seq<(u32, ValV)>, x: (u32, ValV))
    ensures
        sort_props(s).contains(x) <==> s.contains(x),
    decreases s.len(),
{
    if s.len() > 0 {
        lemma_sort_props(s.drop_last(), x);
        lemma_place_prop(sort_props(s.drop_last()), s.last(), x);
        seqs::lemma_push_contains(s.drop_last(), s.last(), x);
        assert(s =~= s.drop_last().push(s.last()));
    }
}

/// A record meets the restriction of a pattern exactly when it carries every
/// label of the pattern and has every property of it: what the pattern asks is
/// neither widened nor narrowed.
pub proof fn law_restriction_is_pattern(p: NodeV, t: TokensV, vs: Values, rec: NodeRecord)
    requires
        restriction_of(p, t, vs) is Some,
    ensures
        meets(restriction_of(p, t, vs)->0, rec) <==> {
            &&& rec.labels matches Some(have) && forall|i: int|
                0 <= i < p.labels.len() ==> have@.contains(
                    token(t.labels, #[trigger] p.labels[i])->0,
                )
            &&& forall|i: int|
                0 <= i < entries_of(p.props, vs)->0.len() ==> holds_value(
                    rec,
                    token(t.props, (#[trigger] (entries_of(p.props, vs)->0)[i]).0)->0,
                    (entries_of(p.props, vs)->0)[i].1,
                )
        },
{
    let r = restriction_of(p, t, vs)->0;
    let f = |l: Seq<char>| token(t.labels, l);
    let g = |e: (Seq<char>, ValV)| prop_token(t, e);
    let es = entries_of(p.props, vs)->0;
    let ls = seqs::try_map(p.labels, f)->0;
    let ps = seqs::try_map(es, g)->0;
    assert(r.labels == sort_tokens(ls));
    assert(r.props == sort_props(ps));
    if rec.labels is Some {
        let have = rec.labels->0;
        if forall|i: int| 0 <= i < r.labels.len() ==> have@.contains(#[trigger] r.labels[i]) {
            assert forall|i: int| 0 <= i < p.labels.len() implies have@.contains(
                token(t.labels, #[trigger] p.labels[i])->0,
            ) by {
                assert(f(p.labels[i]) is Some);
                let x = ls[i];
                assert(x == token(t.labels, p.labels[i])->0);
                lemma_sort_tokens(ls, x);
                assert(ls.contains(x));
                let k = choose|k: int| 0 <= k < r.labels.len() && r.labels[k] == x;
                assert(have@.contains(r.labels[k]));
            }
        }
        if forall|i: int|
            0 <= i < p.labels.len() ==> have@.contains(
                token(t.labels, #[trigger] p.labels[i])->0,
            ) {
            assert forall|i: int| 0 <= i < r.labels.len() implies have@.contains(
                #[trigger] r.labels[i],
            ) by {
                let x = r.labels[i];
                assert(r.labels.contains(x));
                lemma_sort_tokens(ls, x);
                let k = choose|k: int| 0 <= k < ls.len() && ls[k] == x;
                assert(f(p.labels[k]) is Some);
                assert(x == token(t.labels, p.labels[k])->0);
            }
        }
    }
    if forall|i: int|
        0 <= i < r.props.len() ==> holds_value(rec, (#[trigger] r.props[i]).0, r.props[i].1) {
        assert forall|i: int| 0 <= i < es.len() implies holds_value(
            rec,
            token(t.props, (#[trigger] es[i]).0)->0,
            es[i].1,
        ) by {
            assert(g(es[i]) is Some);
            let x = ps[i];
            assert(x == (token(t.props, es[i].0)->0, es[i].1));
            lemma_sort_props(ps, x);
            assert(ps.contains(x));
            let k = choose|k: int| 0 <= k < r.props.len() && r.props[k] == x;
            assert(holds_value(rec, r.props[k].0, r.props[k].1));
        }
    }
    if forall|i: int|
        0 <= i < es.len() ==> holds_value(
            rec,
            token(t.props, (#[trigger] es[i]).0)->0,
            es[i].1,
        ) {
        assert forall|i: int| 0 <= i < r.props.len() implies holds_value(
            rec,
            (#[trigger] r.props[i]).0,
            r.props[i].1,
        ) by {
            let x = r.props[i];
            assert(r.props.contains(x));
            lemma_sort_props(ps, x);
            let k = choose|k: int| 0 <= k < ps.len() && ps[k] == x;
            assert(g(es[k]) is Some);
            assert(x == (token(t.props, es[k].0)->0, es[k].1));
        }
    }
}

} // verus!
