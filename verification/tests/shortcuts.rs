use std::collections::{BTreeMap, BTreeSet};

use engram_graph::chunk::DataChunk;
use engram_graph::graph::{Dir, Graph, RunError};
use engram_graph::located::{find_rels, nodes_at};
use engram_graph::morsels::morsel_size;
use engram_graph::ordered::{all_numbered, creator_sorted_messages, try_ic2_ordered, Msg};
use engram_graph::topk::{KeyCol, TopKAcc};
use engram_graph::window::{span_of, window_chunk, DateOp};

fn s(x: &str) -> String {
    x.to_string()
}

fn ss(xs: &[&str]) -> Vec<String> {
    xs.iter().map(|x| s(x)).collect()
}

fn nodes(n: usize) -> Graph {
    let mut g = Graph::new();
    for _ in 0..n {
        g.create_node(ss(&["N"]));
    }
    g
}

fn out(g: &Graph, c: DataChunk, src: usize, typ: &str, var: &str, dir: Dir) -> DataChunk {
    let t = g.type_tokens_peek(&ss(&[typ]));
    c.expand(g, src, &s(var), None, dir, &t, None, true, false).expect("rows")
}

fn distinct(rows: Vec<Vec<u64>>) -> Vec<Vec<u64>> {
    let mut seen: Vec<Vec<u64>> = Vec::new();
    for r in rows {
        if !seen.contains(&r) {
            seen.push(r);
        }
    }
    seen
}

#[test]
fn workers_expand_what_one_expands() {
    let n: usize = 3000;
    let mut g = nodes(n);
    for i in 0..n as u64 {
        for k in 1..(i % 4) {
            g.create_rel(i, &s("R"), (i * 7 + k) % n as u64);
        }
    }
    let t = g.type_tokens_peek(&ss(&["R"]));
    let seed = || DataChunk::seed("a", (0..n as u64).collect());
    let one = |g: &Graph| {
        seed().expand(g, 0, &s("b"), Some(&s("r")), Dir::Both, &t, None, true, false)
    };
    let many = |g: &Graph, w: usize| {
        seed().expand_parallel(g, w, 0, &s("b"), Some(&s("r")), Dir::Both, &t, None, true, false)
    };
    let want = one(&g).expect("rows");
    assert!(morsel_size(n, 4) < n, "there is more than one share");
    for w in [0, 1, 2, 3, 4, 8, 5000] {
        let got = many(&g, w).expect("rows");
        assert_eq!(got.vars, want.vars);
        assert_eq!(got.var_kinds, want.var_kinds);
        assert_eq!(got.live_rows(), want.live_rows());
        assert_eq!(got.used_rels, want.used_rels);
    }
    // The rows of all shares count against one budget.
    let rows = want.live();
    g.row_budget = Some(rows);
    assert!(many(&g, 4).is_ok());
    g.row_budget = Some(rows - 1);
    assert!(matches!(one(&g), Err(RunError::RowBudget)));
    assert!(matches!(many(&g, 4), Err(RunError::RowBudget)));
}

#[test]
fn the_rows_kept_are_the_first_of_a_stable_sort() {
    let ids: Vec<u64> = (0..9).collect();
    let keys: Vec<Vec<u8>> = [4u8, 1, 4, 2, 9, 1, 4, 2, 9].iter().map(|k| vec![*k]).collect();
    for down in [false, true] {
        let mut all = ids.clone();
        all.sort_by(|a, b| {
            let (x, y) = (&keys[*a as usize], &keys[*b as usize]);
            if down { y.cmp(x) } else { x.cmp(y) }
        });
        for cap in [0, 1, 2, 5, 9, 20, usize::MAX] {
            let mut acc = TopKAcc::new(cap, vec![down]);
            for part in [&ids[..4], &ids[4..5], &ids[5..]] {
                let ks = part.iter().map(|i| keys[*i as usize].clone()).collect();
                let chunk = DataChunk::seed("n", part.to_vec());
                acc.push_chunk(&chunk, &vec![KeyCol::Var(0, part.to_vec(), ks)]);
            }
            let want: Vec<Vec<u64>> = all.iter().take(cap).map(|i| vec![*i]).collect();
            assert_eq!(acc.finish(), want);
        }
    }
}

// Owners 1 and 2 of start 0; 3, 4 and 5 are theirs, and 5 is of both.
fn owners() -> Graph {
    let mut g = nodes(6);
    g.create_rel(0, &s("KNOWS"), 1);
    g.create_rel(0, &s("KNOWS"), 2);
    g.create_rel(0, &s("KNOWS"), 2);
    g.create_rel(3, &s("MADE_BY"), 1);
    g.create_rel(4, &s("MADE_BY"), 2);
    g.create_rel(5, &s("MADE_BY"), 1);
    g.create_rel(5, &s("MADE_BY"), 2);
    g
}

fn dates() -> BTreeMap<u64, i64> {
    BTreeMap::from([(3, 30), (4, 20), (5, 25)])
}

fn index(g: &Graph) -> BTreeMap<u64, Vec<Msg>> {
    let t = g.type_tokens_peek(&ss(&["MADE_BY"]));
    let of = vec![Some(30), Some(20), Some(25)];
    let ids = vec![Some(7), Some(8), Some(9)];
    assert!(all_numbered(&of, &ids));
    creator_sorted_messages(g, &t, &vec![3, 4, 5], &of, &ids)
}

#[test]
fn an_entry_of_two_owners_is_listed_for_both() {
    let g = owners();
    let at = |x: u64| index(&g)[&x].iter().map(|m| m.node).collect::<Vec<u64>>();
    assert_eq!(at(1), vec![3, 5]);
    assert_eq!(at(2), vec![5, 4]);
    assert!(!all_numbered(&vec![None, Some(1)], &vec![None, None]));
    assert!(all_numbered(&vec![None, Some(1)], &vec![None, Some(1)]));
}

#[test]
fn a_window_has_the_rows_of_an_expand_that_every_bound_keeps() {
    let g = owners();
    let driving = out(&g, DataChunk::seed("a", vec![0]), 0, "KNOWS", "b", Dir::Out);
    let all = out(&g, driving.driving_slice(0, driving.live()), 1, "MADE_BY", "m", Dir::In);
    for (lo, hi) in [(20, 30), (21, 30), (20, 25), (26, 29)] {
        let ops = vec![DateOp::Ge, DateOp::Lt];
        let span = span_of(&ops, &vec![Some(lo), Some(hi)]).expect("bounded on either side");
        let mut got = window_chunk(&index(&g), &driving, 1, &span, &s("m")).live_rows();
        let mut want = all.live_rows();
        want.retain(|r| lo <= dates()[&r[2]] && dates()[&r[2]] < hi);
        got.sort();
        want.sort();
        assert_eq!(got, want);
    }
}

#[test]
fn an_ordered_read_gives_the_first_of_the_ordinary_rows() {
    let g = owners();
    let driving = out(&g, DataChunk::seed("a", vec![0]), 0, "KNOWS", "b", Dir::Out);
    let all = out(&g, driving.driving_slice(0, driving.live()), 1, "MADE_BY", "m", Dir::In);
    let ends: Vec<u64> = driving.live_rows().iter().map(|r| r[1]).collect();
    for bound in [19, 20, 25, 30] {
        let mut rows: Vec<Vec<u64>> = all.live_rows();
        rows.retain(|r| dates()[&r[2]] <= bound);
        rows.sort_by_key(|r| (-dates()[&r[2]], r[2]));
        for cap in 0..7 {
            let got = try_ic2_ordered(&index(&g), &ends, bound, cap);
            let want: Vec<u64> = rows.iter().take(cap).map(|r| r[2]).collect();
            assert_eq!(got.iter().map(|m| m.node).collect::<Vec<u64>>(), want);
        }
    }
}

#[test]
fn a_located_read_finds_the_rows_of_both_steps() {
    let mut g = nodes(6);
    g.create_rel(0, &s("WORK_AT"), 2);
    g.create_rel(0, &s("WORK_AT"), 2);
    g.create_rel(0, &s("WORK_AT"), 3);
    g.create_rel(1, &s("WORK_AT"), 2);
    g.create_rel(2, &s("IN"), 4);
    g.create_rel(2, &s("IN"), 4);
    g.create_rel(3, &s("IN"), 5);
    g.create_rel(3, &s("IN"), 4);
    let (work, at) = (g.type_tokens_peek(&ss(&["WORK_AT"])), g.type_tokens_peek(&ss(&["IN"])));
    let set: BTreeSet<u64> = nodes_at(&g, &at, &vec![4, 5], &vec![true, false], None);
    assert_eq!(set, BTreeSet::from([2, 3]));
    let starts = vec![1, 0, 1];
    let found = find_rels(&g, Dir::Out, &work, &at, &set, 4, &starts);
    let mut got: Vec<Vec<u64>> = found.iter().map(|f| vec![f.start, f.node, f.rel]).collect();
    let one = DataChunk::seed("f", starts)
        .expand(&g, 0, &s("c"), Some(&s("w")), Dir::Out, &work, None, true, false)
        .expect("rows");
    let both = out(&g, one, 1, "IN", "k", Dir::Out);
    let mut want: Vec<Vec<u64>> =
        both.live_rows().iter().filter(|r| r[3] == 4).map(|r| r[..3].to_vec()).collect();
    got.sort();
    want.sort();
    assert_eq!(got.len(), 9);
    assert_eq!(got, want);
}

#[test]
fn a_split_match_has_the_distinct_rows_of_the_match() {
    // 0 and 1 know 2 twice and 3; 2 and 3 like 4, 5; 4 and 5 are in 6.
    let mut g = nodes(7);
    for (a, t, b) in [
        (0, "KNOWS", 2),
        (0, "KNOWS", 2),
        (0, "KNOWS", 3),
        (1, "KNOWS", 2),
        (2, "LIKES", 4),
        (2, "LIKES", 5),
        (3, "LIKES", 5),
        (4, "IN", 6),
        (5, "IN", 6),
        (5, "IN", 6),
    ] {
        g.create_rel(a, &s(t), b);
    }
    let first = out(&g, DataChunk::seed("a", vec![0, 1]), 0, "KNOWS", "b", Dir::Out);
    let mut starts: Vec<u64> = Vec::new();
    for r in first.live_rows() {
        if !starts.contains(&r[1]) {
            starts.push(r[1]);
        }
    }
    assert_eq!((first.live(), starts.len()), (4, 2));
    let whole = out(&g, out(&g, first, 1, "LIKES", "c", Dir::Out), 2, "IN", "d", Dir::Out);
    let parts = DataChunk::seed("b", starts);
    let parts = out(&g, out(&g, parts, 0, "LIKES", "c", Dir::Out), 1, "IN", "d", Dir::Out);
    assert!(parts.live() < whole.live());
    // All of the second part, or some of its columns, under a condition on it.
    let ends: Vec<Vec<u64>> = whole.live_rows().iter().map(|r| r[1..].to_vec()).collect();
    assert_eq!(distinct(ends.clone()), distinct(parts.live_rows()));
    let some = |rows: Vec<Vec<u64>>| {
        distinct(rows.iter().filter(|r| r[1] != 4).map(|r| vec![r[0], r[2]]).collect())
    };
    assert_eq!(some(ends), some(parts.live_rows()));
    assert_eq!(some(parts.live_rows()).len(), 2);
}
