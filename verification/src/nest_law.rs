//! Sums over the nodes of several variables: neither the order of the variables
//! nor how they are numbered matters.

use vstd::prelude::*;

use crate::match_law;
use crate::match_law::node_sum;

verus! {

/// The sum over every way to give the variables of a list a node, of `n` nodes.
pub open spec fn nest(n: nat, vs: Seq<int>, bind: Seq<u64>, f: spec_fn(Seq<u64>) -> nat) -> nat
    decreases 2 * vs.len() + 1, 0nat,
{
    if vs.len() == 0 {
        f(bind)
    } else {
        nest_over(n, vs[0], vs.skip(1), bind, f, n)
    }
}

/// [`nest`] with the first `m` nodes for the first variable.
pub open spec fn nest_over(
    n: nat,
    v: int,
    rest: Seq<int>,
    bind: Seq<u64>,
    f: spec_fn(Seq<u64>) -> nat,
    m: nat,
) -> nat
    decreases 2 * rest.len() + 2, m,
{
    if m == 0 {
        0
    } else {
        nest_over(n, v, rest, bind, f, (m - 1) as nat) + nest(
            n,
            rest,
            bind.update(v, (m - 1) as u64),
            f,
        )
    }
}

/// [`nest_over`] is a sum over nodes.
pub proof fn lemma_nest_sum(
    n: nat,
    v: int,
    rest: Seq<int>,
    bind: Seq<u64>,
    f: spec_fn(Seq<u64>) -> nat,
    m: nat,
    each: spec_fn(u64) -> nat,
)
    requires
        forall|x: u64| #[trigger] each(x) == nest(n, rest, bind.update(v, x), f),
    ensures
        nest_over(n, v, rest, bind, f, m) == node_sum(m, each),
    decreases m,
{
    if m > 0 {
        lemma_nest_sum(n, v, rest, bind, f, (m - 1) as nat, each);
        assert(each((m - 1) as u64) == nest(n, rest, bind.update(v, (m - 1) as u64), f));
    }
}

/// Two sums may be taken in either order.
proof fn lemma_swap(n: nat, m: nat, f: spec_fn(u64, u64) -> nat, a: spec_fn(u64) -> nat, b: spec_fn(u64) -> nat)
    requires
        forall|x: u64| #[trigger] a(x) == node_sum(m, |y: u64| f(x, y)),
        forall|y: u64| #[trigger] b(y) == node_sum(n, |x: u64| f(x, y)),
    ensures
        node_sum(n, a) == node_sum(m, b),
    decreases n,
{
    if n == 0 {
        assert forall|y: u64| #[trigger] b(y) == 0 by {}
        match_law::lemma_nodes_zero(m, b);
    } else {
        let k = (n - 1) as nat;
        let x = k as u64;
        let less = |y: u64| node_sum(k, |x: u64| f(x, y));
        lemma_swap(k, m, f, a, less);
        let last = |y: u64| f(x, y);
        let both = |y: u64| less(y) + last(y);
        assert forall|y: u64| #[trigger] b(y) == both(y) by {
            let g = |x: u64| f(x, y);
            assert(node_sum(n, g) == node_sum(k, g) + g(x));
        }
        match_law::lemma_nodes_same(m, b, both);
        match_law::lemma_nodes_add(m, less, last);
        assert(a(x) == node_sum(m, last));
    }
}

/// The variables of a list are apart and within a binding.
pub open spec fn apart(vs: Seq<int>, width: nat) -> bool {
    vs.no_duplicates() && forall|i: int| 0 <= i < vs.len() ==> 0 <= #[trigger] vs[i] < width
}

/// Any variable may be taken first.
proof fn lemma_front(n: nat, vs: Seq<int>, i: int, bind: Seq<u64>, f: spec_fn(Seq<u64>) -> nat)
    requires
        apart(vs, bind.len()),
        0 <= i < vs.len(),
    ensures
        nest(n, vs, bind, f) == nest(n, seq![vs[i]] + vs.remove(i), bind, f),
    decreases i,
{
    let all = seq![vs[i]] + vs.remove(i);
    if i == 0 {
        assert(all =~= vs);
    } else {
        let a = vs[0];
        let v = vs[i];
        let rest = vs.skip(1);
        let less = rest.remove(i - 1);
        assert(rest[i - 1] == v);
        assert(all.skip(1) =~= seq![a] + less);
        assert(all[0] == v);
        assert(a != v);
        let deep = |x: u64, y: u64| nest(n, less, bind.update(a, x).update(v, y), f);
        let there = |x: u64| nest(n, rest, bind.update(a, x), f);
        lemma_nest_sum(n, a, rest, bind, f, n, there);
        assert forall|x: u64| #[trigger] there(x) == node_sum(n, |y: u64| deep(x, y)) by {
            let b = bind.update(a, x);
            assert forall|j: int| 0 <= j < rest.len() implies 0 <= #[trigger] rest[j] < b.len() by {
                assert(rest[j] == vs[j + 1]);
            }
            assert(rest.no_duplicates()) by {
                assert forall|j: int, k: int|
                    0 <= j < rest.len() && 0 <= k < rest.len() && j != k implies rest[j] != rest[k] by {
                    assert(vs[j + 1] != vs[k + 1]);
                }
            }
            lemma_front(n, rest, i - 1, b, f);
            let s = seq![v] + less;
            assert(s[0] == v && s.skip(1) =~= less);
            lemma_nest_sum(n, v, less, b, f, n, |y: u64| deep(x, y));
        }
        let back = |y: u64| nest(n, seq![a] + less, bind.update(v, y), f);
        lemma_nest_sum(n, v, all.skip(1), bind, f, n, back);
        assert forall|y: u64| #[trigger] back(y) == node_sum(n, |x: u64| deep(x, y)) by {
            let b = bind.update(v, y);
            let s = seq![a] + less;
            assert(s[0] == a && s.skip(1) =~= less);
            let g = |x: u64| deep(x, y);
            assert forall|x: u64| #[trigger] g(x) == nest(n, less, b.update(a, x), f) by {
                assert(bind.update(a, x).update(v, y) =~= bind.update(v, y).update(a, x));
            }
            lemma_nest_sum(n, a, less, b, f, n, g);
        }
        lemma_swap(n, n, deep, there, back);
    }
}

/// The order of the variables does not matter.
pub proof fn lemma_any_order(
    n: nat,
    vs: Seq<int>,
    ws: Seq<int>,
    bind: Seq<u64>,
    f: spec_fn(Seq<u64>) -> nat,
)
    requires
        apart(vs, bind.len()),
        apart(ws, bind.len()),
        forall|v: int| #[trigger] vs.contains(v) <==> ws.contains(v),
    ensures
        nest(n, vs, bind, f) == nest(n, ws, bind, f),
    decreases vs.len(),
{
    if vs.len() == 0 {
        assert(ws.len() == 0) by {
            if ws.len() > 0 {
                assert(ws.contains(ws[0]));
                assert(vs.contains(ws[0]));
            }
        }
    } else {
        let v = vs[0];
        assert(vs.contains(v));
        let i = choose|i: int| 0 <= i < ws.len() && ws[i] == v;
        lemma_front(n, ws, i, bind, f);
        let s = seq![v] + ws.remove(i);
        let less = ws.remove(i);
        let rest = vs.skip(1);
        assert(s[0] == v && s.skip(1) =~= less);
        assert(rest.no_duplicates()) by {
            assert forall|j: int, k: int|
                0 <= j < rest.len() && 0 <= k < rest.len() && j != k implies rest[j] != rest[k] by {
                assert(vs[j + 1] != vs[k + 1]);
            }
        }
        assert(less.no_duplicates()) by {
            assert forall|j: int, k: int|
                0 <= j < less.len() && 0 <= k < less.len() && j != k implies less[j] != less[k] by {
                let jj = if j < i { j } else { j + 1 };
                let kk = if k < i { k } else { k + 1 };
                assert(ws[jj] != ws[kk]);
            }
        }
        assert forall|u: int| #[trigger] rest.contains(u) <==> less.contains(u) by {
            if rest.contains(u) {
                let j = choose|j: int| 0 <= j < rest.len() && rest[j] == u;
                assert(vs[j + 1] == u && vs[j + 1] != vs[0]);
                assert(vs.contains(u));
                let k = choose|k: int| 0 <= k < ws.len() && ws[k] == u;
                let kk = if k < i { k } else { k - 1 };
                assert(less[kk] == u);
            }
            if less.contains(u) {
                let j = choose|j: int| 0 <= j < less.len() && less[j] == u;
                let jj = if j < i { j } else { j + 1 };
                assert(ws[jj] == u && ws[jj] != ws[i]);
                assert(ws.contains(u));
                assert(vs.contains(u));
                let k = choose|k: int| 0 <= k < vs.len() && vs[k] == u;
                assert(rest[k - 1] == u);
            }
        }
        let x1 = |x: u64| nest(n, rest, bind.update(v, x), f);
        let x2 = |x: u64| nest(n, less, bind.update(v, x), f);
        assert forall|x: u64| #[trigger] x1(x) == x2(x) by {
            let b = bind.update(v, x);
            assert forall|j: int| 0 <= j < rest.len() implies 0 <= #[trigger] rest[j] < b.len() by {
                assert(rest[j] == vs[j + 1]);
            }
            assert forall|j: int| 0 <= j < less.len() implies 0 <= #[trigger] less[j] < b.len() by {
                let jj = if j < i { j } else { j + 1 };
                assert(less[j] == ws[jj]);
            }
            lemma_any_order(n, rest, less, b, f);
        }
        match_law::lemma_nodes_same(n, x1, x2);
        lemma_nest_sum(n, v, rest, bind, f, n, x1);
        lemma_nest_sum(n, v, less, bind, f, n, x2);
    }
}

/// Bindings give the first `k` variables of two lists the same nodes.
pub open spec fn same_nodes(vs: Seq<int>, ws: Seq<int>, k: int, b: Seq<u64>, c: Seq<u64>) -> bool {
    forall|i: int| 0 <= i < k ==> b[#[trigger] vs[i]] == c[ws[i]]
}

/// How the variables are numbered does not matter.
pub proof fn lemma_renumbered(
    n: nat,
    vs: Seq<int>,
    ws: Seq<int>,
    k: int,
    b: Seq<u64>,
    c: Seq<u64>,
    f: spec_fn(Seq<u64>) -> nat,
    h: spec_fn(Seq<u64>) -> nat,
)
    requires
        vs.len() == ws.len(),
        apart(vs, b.len()),
        apart(ws, c.len()),
        0 <= k <= vs.len(),
        same_nodes(vs, ws, k, b, c),
        forall|x: Seq<u64>, y: Seq<u64>|
            x.len() == b.len() && y.len() == c.len() && same_nodes(vs, ws, vs.len() as int, x, y)
                ==> #[trigger] f(x) == #[trigger] h(y),
    ensures
        nest(n, vs.skip(k), b, f) == nest(n, ws.skip(k), c, h),
    decreases vs.len() - k,
{
    if k == vs.len() {
        assert(f(b) == h(c));
    } else {
        let v = vs[k];
        let w = ws[k];
        assert(vs.skip(k)[0] == v && ws.skip(k)[0] == w);
        assert(vs.skip(k).skip(1) =~= vs.skip(k + 1));
        assert(ws.skip(k).skip(1) =~= ws.skip(k + 1));
        let x1 = |x: u64| nest(n, vs.skip(k + 1), b.update(v, x), f);
        let x2 = |x: u64| nest(n, ws.skip(k + 1), c.update(w, x), h);
        assert forall|x: u64| #[trigger] x1(x) == x2(x) by {
            let b1 = b.update(v, x);
            let c1 = c.update(w, x);
            assert forall|i: int| 0 <= i < k + 1 implies b1[#[trigger] vs[i]] == c1[ws[i]] by {
                if i < k {
                    assert(vs[i] != vs[k] && ws[i] != ws[k]);
                }
            }
            lemma_renumbered(n, vs, ws, k + 1, b1, c1, f, h);
        }
        match_law::lemma_nodes_same(n, x1, x2);
        lemma_nest_sum(n, v, vs.skip(k + 1), b, f, n, x1);
        lemma_nest_sum(n, w, ws.skip(k + 1), c, h, n, x2);
    }
}

} // verus!
