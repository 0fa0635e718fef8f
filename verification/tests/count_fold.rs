use std::collections::BTreeSet;

use engram_graph::chain_rows::build_chunk_from_ids;
use engram_graph::chunk::DataChunk;
use engram_graph::fold::{FoldPlan, InlinePreds};
use engram_graph::fold_build::{memo_ok_for, types_disjoint};
use engram_graph::fold_run::{fold_rows, fold_tail, run_hop_folded};
use engram_graph::graph::{Dir, Graph, RunError, NULL_ID};
use engram_graph::hop::Hop;
use engram_graph::levers::{
    count_fold_enabled, count_fold_memo_enabled, count_only_reorder_enabled,
    order_peak_search_enabled, set_count_fold, set_count_fold_memo, set_count_only_reorder,
    set_order_peak_search, Levers,
};
use engram_graph::reduce::{fold_row, fold_row_weighted, SiteAcc, SiteArgVal, Val};

fn s(x: &str) -> String {
    x.to_string()
}

fn two_walk_fold() -> (Graph, Vec<Hop>, u64) {
    let mut g = Graph::new();
    let a = g.create_node(vec![s("A")]);
    let b1 = g.create_node(vec![s("B")]);
    let b2 = g.create_node(vec![s("B")]);
    g.create_rel(a, &s("R"), b1);
    g.create_rel(a, &s("R"), b2);
    let hops = vec![Hop {
        src: 0,
        dir: Dir::Out,
        types: vec!["R".to_string()],
        labels: Vec::new(),
        var: "b".to_string(),
        rel_var: None,
        track: false,
        reset: false,
        tgt: None,
        varlen: None,
        end_vi: Some(1),
        fold: true,
        inline: Vec::new(),
    }];
    (g, hops, a)
}

fn is_overflow_refusal(e: &RunError) -> bool {
    matches!(e, RunError::Semantic(m) if m.contains("overflow"))
}

#[test]
fn fold_tail_counts_two_walks_and_refuses_past_i64() {
    let (g, hops, a) = two_walk_fold();
    let members: Vec<Option<BTreeSet<u64>>> = vec![None];
    let tokens = vec![g.type_tokens_peek(&hops[0].types)];
    let plan = FoldPlan::new(&g, &hops, &members, &tokens, 0, None, true);
    assert!(plan.root[0], "a folded hop off the seed is a root");

    let mut reached: u64 = 0;
    let chunk = DataChunk::seed("a", vec![a]);
    let out = fold_tail(chunk, &plan, 0, &mut reached).expect("2 walks fit");
    assert_eq!(out.weights, vec![2]);
    assert_eq!(out.selection, vec![0]);

    let mut chunk = DataChunk::seed("a", vec![a]);
    chunk.weights = vec![i64::MAX as u64];
    let Err(err) = fold_tail(chunk, &plan, 0, &mut reached) else {
        panic!("a count past i64 must refuse");
    };
    assert!(is_overflow_refusal(&err), "{err:?}");
    let mut chunk = DataChunk::seed("a", vec![a]);
    chunk.weights = vec![u64::MAX / 2 + 1];
    let Err(err) = fold_tail(chunk, &plan, 0, &mut reached) else {
        panic!("a product past u64 must refuse");
    };
    assert!(is_overflow_refusal(&err), "{err:?}");
    let mut chunk = DataChunk::seed("a", vec![a]);
    chunk.weights = vec![(i64::MAX as u64) / 2];
    let out = fold_tail(chunk, &plan, 0, &mut reached).expect("fits");
    assert_eq!(out.weights, vec![(i64::MAX as u64) / 2 * 2]);
}

#[test]
fn weighted_count_star_refuses_past_i64_in_the_reducer() {
    let (g, _hops, a) = two_walk_fold();
    let mut chunk = DataChunk::seed("a", vec![a]);
    chunk.weights = vec![i64::MAX as u64];
    let mut accs = vec![SiteAcc::CountStar(1)];
    let arg_vals: Vec<SiteArgVal> = vec![SiteArgVal::Star];
    let err = fold_row_weighted(&mut accs, &arg_vals, &chunk, 0)
        .expect_err("a total past i64 must refuse");
    assert!(is_overflow_refusal(&err), "{err:?}");
    let mut over = DataChunk::seed("a", vec![a]);
    over.weights = vec![i64::MAX as u64 + 1];
    let mut accs = vec![SiteAcc::CountStar(0)];
    let err = fold_row_weighted(&mut accs, &arg_vals, &over, 0)
        .expect_err("a weight past i64 must refuse");
    assert!(is_overflow_refusal(&err), "{err:?}");
    let mut accs = vec![SiteAcc::CountStar(0)];
    assert!(fold_row_weighted(&mut accs, &arg_vals, &chunk, 0)
        .expect("no error")
        .is_some());
    let SiteAcc::CountStar(n) = accs[0] else {
        panic!("count star");
    };
    assert_eq!(n, i64::MAX);
    let _ = g;
}

#[test]
fn an_untyped_tracked_hop_is_disjoint_from_nothing() {
    let mk = |types: &[&str], src: usize, end: usize, track: bool| Hop {
        src,
        dir: Dir::Out,
        types: types.iter().map(|t| (*t).to_string()).collect(),
        labels: Vec::new(),
        var: format!("v{end}"),
        rel_var: None,
        track,
        reset: false,
        tgt: None,
        varlen: None,
        end_vi: Some(end),
        fold: true,
        inline: Vec::new(),
    };
    let memo_ok = |t0: &[&str], t1: &[&str]| {
        let hops = vec![mk(t0, 0, 1, true), mk(t1, 1, 2, true)];
        let children = vec![vec![0usize], vec![1usize], Vec::new()];
        let preds: Vec<InlinePreds> = vec![Vec::new(), Vec::new()];
        let path_id = vec![0usize, 0usize];
        memo_ok_for(1, &hops, &children, &preds, &path_id)
    };
    assert!(memo_ok(&["K"], &["M"]), "K and M share no type");
    assert!(!memo_ok(&["K"], &["K"]), "K and K share K");
    assert!(!memo_ok(&["K", "M"], &["M"]), "K|M and M share M");
    assert!(!memo_ok(&[], &["K"]), "an untyped hop overlaps :K");
    assert!(!memo_ok(&["K"], &[]), "an untyped TRACKED hop overlaps :K");
    assert!(!memo_ok(&[], &[]), "two untyped hops overlap each other");
}

#[test]
fn a_weight_meets_only_count_star() {
    let mut chunk = DataChunk::seed("a", vec![4]);
    chunk.weights = vec![3];
    let mut accs = vec![SiteAcc::Fed(Vec::new())];
    let args = vec![SiteArgVal::Const(Val::Int(7))];
    assert!(fold_row_weighted(&mut accs, &args, &chunk, 0).expect("no error").is_none());
    assert!(fold_row(&mut accs, &args, &chunk, 0).expect("no error").is_some());
    assert!(matches!(&accs[0], SiteAcc::Fed(v) if v.len() == 1));
}

#[test]
fn type_lists_share_a_type_unless_disjoint() {
    assert!(types_disjoint(&vec![s("K")], &vec![s("M")]));
    assert!(!types_disjoint(&vec![s("K"), s("M")], &vec![s("M")]));
    assert!(!types_disjoint(&Vec::new(), &vec![s("M")]));
}

#[test]
fn a_folded_chain_counts_what_it_would_expand() {
    // a -R-> b1, b2; each b -S-> c1, c2: four walks from a.
    let mut g = Graph::new();
    let a = g.create_node(vec![s("A")]);
    let b1 = g.create_node(vec![s("B")]);
    let b2 = g.create_node(vec![s("B")]);
    let c1 = g.create_node(vec![s("C")]);
    let c2 = g.create_node(vec![s("C")]);
    g.create_rel(a, &s("R"), b1);
    g.create_rel(a, &s("R"), b2);
    for b in [b1, b2] {
        for c in [c1, c2] {
            g.create_rel(b, &s("S"), c);
        }
    }
    let hop = |typ: &str, src: usize, end: usize, fold: bool| Hop {
        src,
        dir: Dir::Out,
        types: vec![s(typ)],
        labels: Vec::new(),
        var: format!("v{end}"),
        rel_var: None,
        track: true,
        reset: false,
        tgt: None,
        varlen: None,
        end_vi: Some(end),
        fold,
        inline: Vec::new(),
    };
    let plain = vec![hop("R", 0, 1, false), hop("S", 1, 2, false)];
    let folded = vec![hop("R", 0, 1, true), hop("S", 1, 2, true)];
    let rows = build_chunk_from_ids(&g, &s("a"), vec![a], &plain, &Vec::new(), None, true)
        .expect("rows")
        .expect("no condition declines");
    assert_eq!(rows.live(), 4);
    for memo in [true, false] {
        let counted = build_chunk_from_ids(&g, &s("a"), vec![a], &folded, &Vec::new(), None, memo)
            .expect("rows")
            .expect("no condition declines");
        assert_eq!(counted.live(), 1);
        assert_eq!(counted.weights[counted.selection[0]], 4);
    }
}

#[test]
fn slices_of_the_driving_rows_may_be_folded_apart() {
    let (g, hops, a) = two_walk_fold();
    let members: Vec<Option<BTreeSet<u64>>> = vec![None];
    let tokens = vec![g.type_tokens_peek(&hops[0].types)];
    let plan = FoldPlan::new(&g, &hops, &members, &tokens, 0, None, true);
    let chunk = DataChunk::seed("a", vec![a, a, 1]);
    let mut reached: u64 = 0;
    let whole = fold_rows(&plan, 0, &chunk, &vec![0, 1, 2], &mut reached).expect("fits");
    let mut parts = fold_rows(&plan, 0, &chunk, &vec![0], &mut reached).expect("fits");
    parts.extend(fold_rows(&plan, 0, &chunk, &vec![1, 2], &mut reached).expect("fits"));
    assert_eq!(whole, parts);
    assert_eq!(whole, vec![(0, 2), (1, 2)]);
}

#[test]
fn a_cap_stops_the_fold_once_it_is_reached() {
    let (g, hops, a) = two_walk_fold();
    let members: Vec<Option<BTreeSet<u64>>> = vec![None];
    let tokens = vec![g.type_tokens_peek(&hops[0].types)];
    let plan = FoldPlan::new(&g, &hops, &members, &tokens, 0, Some(2), true);
    let mut reached: u64 = 0;
    let chunk = DataChunk::seed("a", vec![a, a, a]);
    let out = fold_tail(chunk, &plan, 0, &mut reached).expect("fits");
    assert_eq!(reached, 2);
    assert_eq!(out.live(), 1);
}

#[test]
fn levers_turn_one_thing_each() {
    let mut l = Levers::new();
    assert!(count_fold_enabled(&l));
    set_count_fold(&mut l, false);
    assert!(!count_fold_enabled(&l) && count_fold_memo_enabled(&l));
    set_count_fold_memo(&mut l, false);
    assert!(!count_fold_memo_enabled(&l) && count_only_reorder_enabled(&l));
    set_count_only_reorder(&mut l, false);
    assert!(!count_only_reorder_enabled(&l) && order_peak_search_enabled(&l));
    set_order_peak_search(&mut l, false);
    assert!(!order_peak_search_enabled(&l));
    set_count_fold(&mut l, true);
    assert!(count_fold_enabled(&l) && !order_peak_search_enabled(&l));
}

#[test]
fn a_cap_waits_for_the_last_count_of_a_chain() {
    let mut g = Graph::new();
    let a = g.create_node(vec![s("A")]);
    let barren = g.create_node(vec![s("A")]);
    let b = g.create_node(vec![s("B")]);
    let c = g.create_node(vec![s("C")]);
    g.create_rel(barren, &s("R"), b);
    g.create_rel(a, &s("R"), b);
    g.create_rel(a, &s("S"), c);
    let leg = |typ: &str, var: &str, end: usize, reset: bool| Hop {
        src: 0,
        dir: Dir::Out,
        types: vec![s(typ)],
        labels: Vec::new(),
        var: s(var),
        rel_var: None,
        track: false,
        reset,
        tgt: None,
        varlen: None,
        end_vi: Some(end),
        fold: true,
        inline: Vec::new(),
    };
    let hops = vec![leg("R", "b", 1, false), leg("S", "c", 2, true)];
    // The first start passes the first count and fails the second.
    let rows = build_chunk_from_ids(&g, &s("a"), vec![barren, a], &hops, &Vec::new(), Some(1), true)
        .expect("rows")
        .expect("no condition declines");
    let total: u64 = rows.selection.iter().map(|r| rows.weights[*r]).sum();
    assert_eq!(total, 1);
}

#[test]
fn a_counted_hop_leaves_the_columns_as_they_are() {
    let (g, hops, a) = two_walk_fold();
    let members: Vec<Option<BTreeSet<u64>>> = vec![None];
    let tokens = vec![g.type_tokens_peek(&hops[0].types)];
    let plan = FoldPlan::new(&g, &hops, &members, &tokens, 0, None, true);
    let mut reached: u64 = 0;
    let chunk = DataChunk::seed("a", vec![a, 1]);
    let out = run_hop_folded(chunk, &hops[0], 0, &plan, &mut reached).expect("fits");
    assert_eq!(out.ids[0], vec![a, 1]);
    assert_eq!(out.ids[1], vec![NULL_ID, NULL_ID]);
    assert_eq!(out.selection, vec![0], "a row without a match is dropped");
    assert_eq!(out.weights[0], 2);
}
