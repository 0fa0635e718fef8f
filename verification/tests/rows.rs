use std::collections::{BTreeMap, BTreeSet};

use engram_graph::batch::{
    batch_end, expand_last_stage_batch, key_of_group, merge_group_key_cols, BatchGroups, KeyColumn,
};
use engram_graph::batched::batched_agg_last_stage;
use engram_graph::chain_rows::{build_chunk, build_chunk_from_ids, Start};
use engram_graph::chunk::{expand_row_slice, DataChunk};
use engram_graph::graph::{Dir, Graph, RunError, VarKind, NULL_ID};
use engram_graph::hop::{hops_have_varlen, run_hop, Hop};
use engram_graph::join::hash_join_chunks;
use engram_graph::member_posts::zero_fill;
use engram_graph::optional::left_join_null_extend;
use engram_graph::plan::AggSite;
use engram_graph::reduce::{reduce_agg_groups, Group, KeyVal, SiteAcc, SiteArgVal, Val};
use engram_graph::runs::{frontier_allows, run_join, run_pipeline, run_stage, JoinSide};
use engram_graph::seeds::{anchored_seed_ids, hop_table_seed, scan_ids};
use engram_graph::select::{Filter, Verdict};
use engram_graph::sizes::{label_set_count, smallest_label_name, whole_label_worth};
use engram_graph::stages::PipeStage;

fn s(x: &str) -> String {
    x.to_string()
}

fn ss(xs: &[&str]) -> Vec<String> {
    xs.iter().map(|x| s(x)).collect()
}

// 0:A -R-> 1:B, 2:B; 1, 2 -S-> 3:C.
fn diamond() -> Graph {
    let mut g = Graph::new();
    g.create_node(ss(&["A"]));
    g.create_node(ss(&["B"]));
    g.create_node(ss(&["B"]));
    g.create_node(ss(&["C"]));
    g.create_rel(0, &s("R"), 1);
    g.create_rel(0, &s("R"), 2);
    g.create_rel(1, &s("S"), 3);
    g.create_rel(2, &s("S"), 3);
    g
}

fn hop(src: usize, dir: Dir, typ: &str, var: &str, end: usize) -> Hop {
    Hop {
        src,
        dir,
        types: ss(&[typ]),
        labels: Vec::new(),
        var: s(var),
        rel_var: None,
        track: true,
        reset: false,
        tgt: None,
        varlen: None,
        end_vi: Some(end),
        fold: false,
        inline: Vec::new(),
    }
}

fn verdicts(var: &str, of: &[(u64, Verdict)]) -> Filter {
    let mut m = BTreeMap::new();
    for (id, v) in of {
        m.insert(*id, *v);
    }
    Filter::Property { var: s(var), verdicts: m }
}

fn names_of(c: &DataChunk) -> Vec<String> {
    c.vars.clone()
}

#[test]
fn an_expand_binds_the_end_of_each_relationship_from_last_to_first() {
    let g = diamond();
    let t = g.type_tokens_peek(&ss(&["R"]));
    let c = DataChunk::seed("a", vec![0]);
    let d = c.expand(&g, 0, &s("b"), Some(&s("r")), Dir::Out, &t, None, true, false).expect("rows");
    assert_eq!(d.live_rows(), vec![vec![0, 2, 1], vec![0, 1, 0]]);
    assert_eq!(names_of(&d), ss(&["a", "b", "r"]));
    assert_eq!(d.var_kinds, vec![VarKind::Node, VarKind::Node, VarKind::Rel]);
    assert_eq!(d.used_rels, vec![vec![1], vec![0]]);
}

#[test]
fn an_expand_keeps_to_members_and_types() {
    let g = diamond();
    let only: BTreeSet<u64> = [1].into_iter().collect();
    let t = g.type_tokens_peek(&ss(&["R"]));
    let c = DataChunk::seed("a", vec![0]);
    let d = c.expand(&g, 0, &s("b"), None, Dir::Out, &t, Some(&only), false, false).expect("rows");
    assert_eq!(d.live_rows(), vec![vec![0, 1]]);
    let none = g.type_tokens_peek(&ss(&["NEVER"]));
    let c = DataChunk::seed("a", vec![0]);
    let d = c.expand(&g, 0, &s("b"), None, Dir::Out, &none, None, false, false).expect("rows");
    assert_eq!(d.live(), 0);
    assert_eq!(d.vars.len(), 2);
}

#[test]
fn a_path_takes_no_relationship_twice_until_it_resets() {
    let g = diamond();
    let t = g.type_tokens_peek(&ss(&["R"]));
    let first = |track: bool| {
        DataChunk::seed("x", vec![1])
            .expand(&g, 0, &s("a"), None, Dir::Both, &t, None, track, false)
            .expect("rows")
    };
    let kept = first(true).expand(&g, 1, &s("y"), None, Dir::Both, &t, None, true, false).expect("rows");
    assert_eq!(kept.live_rows(), vec![vec![1, 0, 2]]);
    let reset = first(true).expand(&g, 1, &s("y"), None, Dir::Both, &t, None, true, true).expect("rows");
    assert_eq!(reset.live_rows(), vec![vec![1, 0, 2], vec![1, 0, 1]]);
}

#[test]
fn an_undirected_hop_meets_a_self_loop_once() {
    let mut g = Graph::new();
    g.create_node(ss(&["A"]));
    g.create_rel(0, &s("R"), 0);
    let t = g.type_tokens_peek(&ss(&["R"]));
    assert_eq!(g.adjacent(0, Dir::Both, &t).len(), 1);
    assert_eq!(g.adjacent(0, Dir::Out, &t).len(), 1);
    assert_eq!(g.adjacent(0, Dir::In, &t).len(), 1);
    assert_eq!(g.edge_count_slim(0, Dir::Both, &t, 0), 1);
}

#[test]
fn an_edge_is_counted_the_same_from_either_end() {
    let g = diamond();
    let t = g.type_tokens_peek(&ss(&["S"]));
    assert_eq!(g.edge_count_slim(1, Dir::Out, &t, 3), g.edge_count_slim(3, Dir::In, &t, 1));
    assert_eq!(g.edge_count_slim(1, Dir::In, &t, 3), 0);
}

#[test]
fn a_close_keeps_the_pairs_with_a_relationship() {
    let g = diamond();
    let t = g.type_tokens_peek(&ss(&["R"]));
    let c = DataChunk::from_columns(
        ss(&["a", "b"]),
        vec![VarKind::Node, VarKind::Node],
        vec![vec![0, 0, 1], vec![1, 3, 2]],
    );
    let d = c.semijoin(&g, 0, 1, None, Dir::Out, &t, false, false).expect("rows");
    assert_eq!(d.live_rows(), vec![vec![0, 1]]);
}

#[test]
fn a_variable_length_step_reaches_each_node_once() {
    let mut g = diamond();
    g.create_rel(3, &s("R"), 1);
    let t = g.type_tokens_peek(&ss(&["R", "S"]));
    let reach = |max: u64| {
        let c = DataChunk::seed("a", vec![0]);
        let d = c.expand_var_length_bfs(&g, 0, &s("b"), Dir::Out, &t, None, max).expect("rows");
        let mut ends: Vec<u64> = d.live_rows().iter().map(|r| r[1]).collect();
        ends.sort();
        ends
    };
    assert_eq!(reach(1), vec![1, 2]);
    assert_eq!(reach(2), vec![1, 2, 3]);
    assert_eq!(reach(5), vec![1, 2, 3]);
}

#[test]
fn more_rows_than_the_budget_are_refused() {
    let mut g = diamond();
    g.row_budget = Some(1);
    let h = hop(0, Dir::Out, "R", "b", 1);
    let t = g.type_tokens_peek(&h.types);
    let e = run_hop(&g, DataChunk::seed("a", vec![0]), &h, None, &t).expect_err("two rows");
    assert!(matches!(e, RunError::RowBudget));
    assert!(g.budget_check(1).is_ok() && g.budget_check(2).is_err());
}

#[test]
fn a_filter_keeps_the_rows_that_pass_and_declines_what_it_cannot_answer() {
    let g = diamond();
    let chunk = || {
        DataChunk::from_columns(
            ss(&["a", "b"]),
            vec![VarKind::Node, VarKind::Node],
            vec![vec![0, 0, 1], vec![1, 2, 1]],
        )
    };
    let mut c = chunk();
    assert!(c.filter(&g, &verdicts("b", &[(1, Verdict::Pass), (2, Verdict::Drop)])).is_some());
    assert_eq!(c.live_rows(), vec![vec![0, 1], vec![1, 1]]);
    let mut c = chunk();
    assert!(c.filter(&g, &verdicts("b", &[(1, Verdict::Pass)])).is_none());
    assert_eq!(c.live(), 3);
    let mut c = chunk();
    assert!(c.filter(&g, &verdicts("b", &[(1, Verdict::Pass), (2, Verdict::NotBoolean)])).is_none());
    let mut c = chunk();
    let same = Filter::Identity { var: s("a"), other: s("b"), ne: false };
    assert!(c.filter(&g, &same).is_some());
    assert_eq!(c.live_rows(), vec![vec![1, 1]]);
    let mut c = chunk();
    let edge = |negate: bool| Filter::Edge {
        src: s("a"),
        dst: s("b"),
        dir: Dir::Out,
        types: ss(&["R"]),
        negate,
    };
    assert!(c.filter(&g, &edge(false)).is_some());
    assert_eq!(c.live_rows(), vec![vec![0, 1], vec![0, 2]]);
    let mut c = chunk();
    assert!(c.filter(&g, &edge(true)).is_some());
    assert_eq!(c.live_rows(), vec![vec![1, 1]]);
}

#[test]
fn filtering_before_an_expand_is_filtering_after_it() {
    let g = diamond();
    let t = g.type_tokens_peek(&ss(&["S"]));
    let keep = verdicts("x", &[(1, Verdict::Pass), (2, Verdict::Drop)]);
    let mut early = DataChunk::seed("x", vec![1, 2]);
    assert!(early.filter(&g, &keep).is_some());
    let early = early.expand(&g, 0, &s("y"), None, Dir::Out, &t, None, false, false).expect("rows");
    let mut late = DataChunk::seed("x", vec![1, 2])
        .expand(&g, 0, &s("y"), None, Dir::Out, &t, None, false, false)
        .expect("rows");
    assert!(late.filter(&g, &keep).is_some());
    assert_eq!(early.live_rows(), late.live_rows());
    assert_eq!(early.live_rows(), vec![vec![1, 3]]);
}

#[test]
fn a_boundary_keeps_the_carried_columns_and_the_first_of_repeats() {
    let g = diamond();
    let c = DataChunk::from_columns(
        ss(&["a", "b"]),
        vec![VarKind::Node, VarKind::Rel],
        vec![vec![2, 1, 2], vec![7, 8, 9]],
    );
    let all = c.project_carried(&g, &vec![0], false).expect("rows");
    assert_eq!(all.live_rows(), vec![vec![2], vec![1], vec![2]]);
    let once = c.project_carried(&g, &vec![0], true).expect("rows");
    assert_eq!(once.live_rows(), vec![vec![2], vec![1]]);
    let again = once.project_carried(&g, &vec![0], true).expect("rows");
    assert_eq!(again.live_rows(), once.live_rows());
    let swapped = c.project_carried(&g, &vec![1, 0], false).expect("rows");
    assert_eq!(swapped.var_kinds, vec![VarKind::Rel, VarKind::Node]);
    assert_eq!(c.distinct_ids(0), vec![1, 2]);
}

#[test]
fn slices_expand_apart_and_join_in_order() {
    let g = diamond();
    let t = g.type_tokens_peek(&ss(&["S"]));
    let c = DataChunk::seed("x", vec![1, 2, 0]);
    let part = |a: usize, b: usize, made: usize, budget: usize| {
        expand_row_slice(&g, &c, a, b, 0, Dir::Out, &t, None, false, false, false, made, budget)
    };
    let rows = |a: usize, b: usize| part(a, b, 0, 10).expect("within the budget").ids;
    assert_eq!(rows(0, 3), vec![vec![1, 2], vec![3, 3]]);
    assert_eq!(rows(0, 1), vec![vec![1], vec![3]]);
    assert_eq!(rows(1, 3), vec![vec![2], vec![3]]);
    assert!(part(0, 1, 1, 1).is_none());
    assert!(part(2, 3, 5, 1).is_some(), "a slice that adds nothing refuses nothing");
    let d = c.driving_slice(1, 3);
    assert_eq!(d.live_rows(), vec![vec![2], vec![0]]);
}

#[test]
fn a_null_column_holds_no_entity() {
    let mut c = DataChunk::seed("a", vec![4, 5]);
    c.null_extend("b", VarKind::Node);
    assert_eq!(c.live_rows(), vec![vec![4, NULL_ID], vec![5, NULL_ID]]);
    assert_eq!(c.var_index(&s("b")), 1);
    assert_eq!(c.row_count(), 2);
}

#[test]
fn a_join_pairs_the_rows_that_agree() {
    let g = diamond();
    let a = DataChunk::from_columns(
        ss(&["x", "y"]),
        vec![VarKind::Node, VarKind::Node],
        vec![vec![1, 1, 2], vec![5, 6, 7]],
    );
    let b = DataChunk::from_columns(
        ss(&["z", "x"]),
        vec![VarKind::Node, VarKind::Node],
        vec![vec![8, 9], vec![1, 3]],
    );
    let j = hash_join_chunks(&g, &a, &b).expect("rows");
    assert_eq!(names_of(&j), ss(&["x", "y", "z"]));
    let mut rows = j.live_rows();
    rows.sort();
    assert_eq!(rows, vec![vec![1, 5, 8], vec![1, 6, 8]]);
}

#[test]
fn a_left_join_keeps_every_outer_row() {
    let g = diamond();
    let h = vec![hop(0, Dir::Out, "S", "c", 1)];
    let tokens = vec![g.type_tokens_peek(&h[0].types)];
    let members = vec![None];
    let outer = DataChunk::seed("b", vec![0, 1, 2]);
    let vars = ss(&["b", "c"]);
    let kinds = vec![VarKind::Node, VarKind::Node];
    let out = left_join_null_extend(&g, outer, &h, &tokens, &members, None, &vars, &kinds)
        .expect("rows")
        .expect("no condition declines");
    assert_eq!(out.live_rows(), vec![vec![0, NULL_ID], vec![1, 3], vec![2, 3]]);
    let outer = DataChunk::seed("b", vec![1, 2]);
    let drop = verdicts("c", &[(3, Verdict::Drop)]);
    let out = left_join_null_extend(&g, outer, &h, &tokens, &members, Some(&drop), &vars, &kinds)
        .expect("rows")
        .expect("no condition declines");
    assert_eq!(out.live_rows(), vec![vec![1, NULL_ID], vec![2, NULL_ID]]);
}

#[test]
fn a_chain_applies_each_condition_once_it_is_bound() {
    let g = diamond();
    let hops = vec![hop(0, Dir::Out, "R", "b", 1), hop(1, Dir::Out, "S", "c", 2)];
    let filters = vec![
        verdicts("c", &[(3, Verdict::Pass)]),
        verdicts("b", &[(1, Verdict::Pass), (2, Verdict::Drop)]),
    ];
    let c = build_chunk_from_ids(&g, &s("a"), vec![0], &hops, &filters, None, true)
        .expect("rows")
        .expect("no condition declines");
    assert_eq!(c.live_rows(), vec![vec![0, 1, 3]]);
    let bad = vec![verdicts("b", &[(1, Verdict::Pass)])];
    assert!(build_chunk_from_ids(&g, &s("a"), vec![0], &hops, &bad, None, true)
        .expect("no error")
        .is_none());
    let never = vec![hop(0, Dir::Out, "NEVER", "b", 1)];
    let c = build_chunk_from_ids(&g, &s("a"), vec![0], &never, &Vec::new(), None, true)
        .expect("rows")
        .expect("no condition declines");
    assert_eq!((c.live(), c.vars.len()), (0, 2));
}

#[test]
fn stages_hand_rows_on() {
    let g = diamond();
    let c = DataChunk::from_columns(
        ss(&["a", "b"]),
        vec![VarKind::Node, VarKind::Node],
        vec![vec![0, 0, 0], vec![1, 2, 1]],
    );
    let stage = PipeStage {
        carried: vec![1],
        distinct: true,
        hops: vec![hop(0, Dir::Out, "S", "c", 1)],
        wheres: Vec::new(),
    };
    let d = run_stage(&g, &c, &stage, &Vec::new()).expect("rows").expect("no condition declines");
    assert_eq!(d.live_rows(), vec![vec![1, 3], vec![2, 3]]);
    let back = PipeStage {
        carried: vec![1],
        distinct: true,
        hops: vec![hop(0, Dir::In, "S", "d", 1)],
        wheres: Vec::new(),
    };
    let stages = vec![stage, back];
    let out = run_pipeline(&g, c, &stages, &vec![Vec::new(), Vec::new()])
        .expect("rows")
        .expect("no condition declines");
    assert_eq!(out.live_rows(), vec![vec![3, 2], vec![3, 1]]);
}

#[test]
fn a_join_starts_its_second_side_where_the_first_ends() {
    let g = diamond();
    let a_hops = vec![hop(0, Dir::Out, "R", "b", 1)];
    let b_hops = vec![hop(0, Dir::Out, "S", "c", 1)];
    let none = Vec::new();
    let av = s("a");
    let bv = s("b");
    let a = JoinSide { var: &av, hops: &a_hops, filters: &none };
    let b = JoinSide { var: &bv, hops: &b_hops, filters: &none };
    let j = run_join(&g, &a, vec![0], 1, &b).expect("rows").expect("no condition declines");
    let mut rows = j.live_rows();
    rows.sort();
    assert_eq!(rows, vec![vec![0, 1, 3], vec![0, 2, 3]]);
    assert_eq!(names_of(&j), ss(&["a", "b", "c"]));
}

#[test]
fn a_batch_runs_its_steps_and_then_its_conditions() {
    let g = diamond();
    let hops = vec![hop(0, Dir::Out, "S", "c", 1)];
    let keep = vec![verdicts("x", &[(1, Verdict::Pass), (2, Verdict::Drop)])];
    let d = expand_last_stage_batch(&g, DataChunk::seed("x", vec![1, 2]), &hops, &keep)
        .expect("rows")
        .expect("no condition declines");
    assert_eq!(d.live_rows(), vec![vec![1, 3]]);
    assert_eq!(batch_end(0, 10), 10);
    assert_eq!(batch_end(0, 3000), 1024);
    assert_eq!(batch_end(2048, 3000), 3000);
}

#[test]
fn batches_of_groups_join_unless_a_group_spans_two() {
    let group = |id: u64, n: i64| Group { ids: vec![id], accs: vec![SiteAcc::CountStar(n)] };
    let ks = vec![KeyVal::Col(0, vec![1, 2, 3], vec![Val::Int(5), Val::Int(6), Val::Int(5)])];
    let kinds = vec![VarKind::Node];
    let key = |id: u64| key_of_group(&ks, &kinds, &vec![id]);
    let mut all = BatchGroups::new();
    assert!(all.absorb(vec![key(1)], vec![group(1, 2)]));
    assert!(all.absorb(vec![key(2)], vec![group(2, 3)]));
    assert_eq!(all.groups.len(), 2);
    // Another node with the value of the first: the group spans two batches.
    assert!(!all.absorb(vec![key(3)], vec![group(3, 1)]));
    assert_eq!(all.groups.len(), 2);
}

#[test]
fn key_columns_merge_by_id() {
    let mut a = KeyColumn { ids: vec![2, 5], vals: vec![Val::Int(20), Val::Int(50)] };
    let b = KeyColumn { ids: vec![1, 5, 9], vals: vec![Val::Int(10), Val::Int(51), Val::Int(90)] };
    merge_group_key_cols(&mut a, &b);
    assert_eq!(a.ids, vec![1, 2, 5, 9]);
    let got: Vec<i64> = a.vals.iter().map(|v| if let Val::Int(i) = v { *i } else { -1 }).collect();
    assert_eq!(got, vec![10, 20, 50, 90]);
}

#[test]
fn a_scan_lists_the_nodes_of_its_labels() {
    let g = diamond();
    assert_eq!(scan_ids(&g, &ss(&["B"])), vec![1, 2]);
    assert_eq!(scan_ids(&g, &ss(&["B", "C"])), Vec::<u64>::new());
    assert_eq!(scan_ids(&g, &Vec::new()), vec![0, 1, 2, 3]);
    assert_eq!(anchored_seed_ids(&g, &ss(&["B"]), Some(&vec![0, 2, 3])), vec![2]);
    assert_eq!(anchored_seed_ids(&g, &ss(&["B"]), None), vec![1, 2]);
}

#[test]
fn a_sparse_first_step_seeds_the_chain() {
    let mut g = Graph::new();
    for _ in 0..40 {
        g.create_node(ss(&["A"]));
    }
    let end = g.create_node(ss(&["B"]));
    g.create_rel(7, &s("R"), end);
    g.create_rel(9, &s("R"), end);
    let a = ss(&["A"]);
    let hops = vec![hop(0, Dir::Out, "R", "b", 1)];
    assert_eq!(hop_table_seed(&g, &a, &hops, true), Some(vec![7, 9]));
    assert_eq!(hop_table_seed(&g, &a, &hops, false), None);
    let never = vec![hop(0, Dir::Out, "NEVER", "b", 1)];
    assert_eq!(hop_table_seed(&g, &a, &never, true), Some(Vec::new()));
    let both = vec![hop(0, Dir::Both, "R", "b", 1)];
    assert_eq!(hop_table_seed(&g, &a, &both, true), None);
    g.create_rel(11, &s("R"), end);
    assert_eq!(hop_table_seed(&g, &a, &hops, true), None, "3 x 16 is not below 40");
    // The rows are those of the whole scan.
    let rows = |ids: Vec<u64>| {
        build_chunk_from_ids(&g, &s("a"), ids, &hops, &Vec::new(), None, true)
            .expect("rows")
            .expect("no condition declines")
            .live_rows()
    };
    assert_eq!(rows(vec![7, 9, 11]), rows(scan_ids(&g, &a)));
}

#[test]
fn the_smallest_label_is_the_first_of_the_fewest() {
    let g = diamond();
    assert_eq!(smallest_label_name(&g, &ss(&["B", "C", "A"])), Some(s("C")));
    assert_eq!(smallest_label_name(&g, &Vec::new()), None);
    assert_eq!(label_set_count(&g, &ss(&["B", "C"])), 1);
    assert_eq!(label_set_count(&g, &Vec::new()), 4);
}

#[test]
fn a_column_is_read_whole_when_the_label_is_small_or_mostly_asked_for() {
    assert!(whole_label_worth(1, 4096));
    assert!(!whole_label_worth(1, 4097));
    assert!(whole_label_worth(513, 4104));
    assert!(!whole_label_worth(512, 4104));
}

#[test]
fn variable_length_steps_wait_for_their_switch() {
    let mut h = hop(0, Dir::Out, "R", "b", 1);
    assert!(frontier_allows(&vec![h.copy()], false));
    h.varlen = Some(2);
    assert!(hops_have_varlen(&vec![h.copy()]));
    assert!(!frontier_allows(&vec![h.copy()], false));
    assert!(frontier_allows(&vec![h], true));
}

#[test]
fn a_group_without_a_row_gets_an_empty_one() {
    let kinds = vec![VarKind::Node, VarKind::Node];
    let joined = DataChunk::from_columns(
        ss(&["g", "m", "p"]),
        vec![VarKind::Node, VarKind::Node, VarKind::Node],
        vec![vec![1], vec![5], vec![8]],
    );
    let pairs = DataChunk::from_columns(ss(&["g", "m"]), kinds, vec![vec![1, 2, 2], vec![5, 6, 7]]);
    let out = zero_fill(joined, &pairs, 0);
    let empty = |id: u64| vec![id, NULL_ID, NULL_ID];
    assert_eq!(out.live_rows(), vec![vec![1, 5, 8], empty(2)]);
}

#[test]
fn a_chain_starts_at_a_sparse_step_or_a_look_up_or_a_scan() {
    let g = diamond();
    let (a, labels, found) = (s("x"), ss(&["B"]), vec![2, 3]);
    let hops = vec![hop(0, Dir::Out, "S", "y", 1)];
    let start = |found| Start { labels: &labels, var: &a, found, tables: true };
    let rows = |found| {
        build_chunk(&g, &start(found), &hops, &Vec::new(), None, true)
            .expect("rows")
            .expect("no condition declines")
            .live_rows()
    };
    assert_eq!(rows(None), vec![vec![1, 3], vec![2, 3]]);
    // What a look-up found is cut to the labels.
    assert_eq!(rows(Some(&found)), vec![vec![2, 3]]);
    // A first step that nothing takes starts nowhere.
    let never = vec![hop(0, Dir::Out, "NEVER", "y", 1)];
    let c = build_chunk(&g, &start(None), &never, &Vec::new(), None, true)
        .expect("rows")
        .expect("no condition declines");
    assert_eq!((c.live(), c.vars.len()), (0, 2));
}

fn row_count(g: &Graph, ids: Vec<u64>, hops: &Vec<Hop>) -> usize {
    build_chunk_from_ids(g, &s("a"), ids, hops, &Vec::new(), None, true)
        .expect("rows")
        .expect("no condition declines")
        .live_rows()
        .len()
}

#[test]
fn a_path_has_as_many_rows_from_either_end() {
    let g = diamond();
    let every: Vec<u64> = vec![0, 1, 2, 3];
    let there = vec![hop(0, Dir::Both, "R", "b", 1), hop(1, Dir::Out, "S", "c", 2)];
    let back = vec![hop(0, Dir::In, "S", "b", 1), hop(1, Dir::Both, "R", "c", 2)];
    assert_eq!(row_count(&g, every.clone(), &there), 2);
    assert_eq!(row_count(&g, every, &back), 2);
}

#[test]
fn paths_may_be_walked_in_any_order() {
    let mut g = diamond();
    g.create_rel(1, &s("T"), 0);
    let on = |mut h: Hop| {
        h.reset = true;
        h
    };
    let every: Vec<u64> = vec![0, 1, 2, 3];
    // (a)-R->(b), (b)-S->(c), (b)-T->(a)
    let mut close = on(hop(1, Dir::Out, "T", "a", 0));
    close.tgt = Some(0);
    close.end_vi = None;
    let first = vec![
        on(hop(0, Dir::Out, "R", "b", 1)),
        on(hop(1, Dir::Out, "S", "c", 2)),
        close,
    ];
    // (b)-T->(a), (a)-R->(b), (b)-S->(c)
    let mut shut = on(hop(1, Dir::Out, "R", "b", 0));
    shut.tgt = Some(0);
    shut.end_vi = None;
    let second = vec![
        on(hop(0, Dir::Out, "T", "b", 1)),
        shut,
        on(hop(0, Dir::Out, "S", "c", 2)),
    ];
    assert_eq!(row_count(&g, every.clone(), &first), 1);
    assert_eq!(row_count(&g, every, &second), 1);
}

#[test]
fn steps_that_do_not_read_each_other_commute() {
    let g = diamond();
    let r = g.type_tokens_peek(&ss(&["R"]));
    let t = g.type_tokens_peek(&ss(&["S"]));
    let seed = || DataChunk::seed("x", vec![1, 2]);
    let mut one = seed()
        .expand(&g, 0, &s("a"), None, Dir::In, &r, None, true, true)
        .expect("rows")
        .expand(&g, 0, &s("c"), None, Dir::Out, &t, None, true, true)
        .expect("rows")
        .live_rows();
    let mut two: Vec<Vec<u64>> = seed()
        .expand(&g, 0, &s("c"), None, Dir::Out, &t, None, true, true)
        .expect("rows")
        .expand(&g, 0, &s("a"), None, Dir::In, &r, None, true, true)
        .expect("rows")
        .live_rows()
        .into_iter()
        .map(|x| vec![x[0], x[2], x[1]])
        .collect();
    one.sort();
    two.sort();
    assert_eq!(one, vec![vec![1, 0, 3], vec![2, 0, 3]]);
    assert_eq!(one, two);
}

#[test]
fn a_filter_keeps_the_order_of_what_it_selects() {
    let g = diamond();
    let mut c = DataChunk::seed("b", vec![2, 1, 0, 1]);
    let pass = [(0, Verdict::Drop), (1, Verdict::Pass), (2, Verdict::Pass)];
    assert!(c.filter(&g, &verdicts("b", &pass)).is_some());
    assert_eq!(c.selection, vec![0, 1, 3]);
    assert_eq!(c.ids[0], vec![2, 1, 0, 1], "the columns stay as they are");
}

#[test]
fn a_driving_slice_has_used_nothing_yet() {
    let g = diamond();
    let t = g.type_tokens_peek(&ss(&["R"]));
    let c = DataChunk::seed("a", vec![0])
        .expand(&g, 0, &s("b"), None, Dir::Out, &t, None, true, false)
        .expect("rows");
    assert!(c.used_rels.iter().all(|u| u.len() == 1));
    let halves: Vec<Vec<Vec<u64>>> =
        (0..2).map(|i| c.driving_slice(i, i + 1).live_rows()).collect();
    assert_eq!(halves.concat(), c.live_rows());
    let d = c.driving_slice(0, 2);
    assert!(d.used_rels.len() == 2 && d.used_rels.iter().all(|u| u.is_empty()));
    assert!(d.weights.is_empty() && d.prov.is_empty());
}

fn count_site() -> AggSite {
    AggSite { name: s("count"), distinct: false, star: true, args: Vec::new() }
}

fn counts(groups: &[Group]) -> Vec<i64> {
    groups
        .iter()
        .map(|g| match &g.accs[0] {
            SiteAcc::CountStar(n) => *n,
            other => panic!("{other:?}"),
        })
        .collect()
}

#[test]
fn batches_of_driving_rows_make_the_groups_of_one_pass() {
    let mut g = Graph::new();
    let n: u64 = 1500;
    for _ in 0..n {
        g.create_node(ss(&["A"]));
    }
    for i in 0..n {
        g.create_rel(i, &s("R"), i);
    }
    let driving = DataChunk::seed("a", (0..n).collect());
    let hops = vec![hop(0, Dir::Out, "R", "b", 1)];
    let none: Vec<Filter> = Vec::new();
    let sites = vec![count_site()];
    let by_node = vec![KeyVal::Node(0)];
    let batched = batched_agg_last_stage(
        &g, &driving, &hops, &none, &by_node, &vec![SiteArgVal::Star], &sites,
    )
    .expect("no error")
    .expect("each group is in one batch");
    let all = expand_last_stage_batch(&g, driving.driving_slice(0, 1500), &hops, &none)
        .expect("rows")
        .expect("no condition declines");
    let single = reduce_agg_groups(&g, &all, &by_node, &vec![SiteArgVal::Star], &sites)
        .expect("no error")
        .expect("groups");
    assert_eq!(batched.len(), 1500);
    assert_eq!(counts(&batched), counts(&single));
    assert_eq!(
        batched.iter().map(|x| x.ids.clone()).collect::<Vec<_>>(),
        single.iter().map(|x| x.ids.clone()).collect::<Vec<_>>()
    );
    // One value for a row of each batch: its group spans two.
    let ids: Vec<u64> = (0..n).collect();
    let vals: Vec<Val> = (0..n as i64).map(|i| Val::Int(if i == 1499 { 0 } else { i })).collect();
    let spans = vec![KeyVal::Col(0, ids, vals)];
    let r = batched_agg_last_stage(
        &g, &driving, &hops, &none, &spans, &vec![SiteArgVal::Star], &sites,
    );
    assert!(r.expect("no error").is_none());
    // A column without a value for some row.
    let short = vec![KeyVal::Col(0, vec![0], vec![Val::Int(1)])];
    let r = batched_agg_last_stage(
        &g, &driving, &hops, &none, &short, &vec![SiteArgVal::Star], &sites,
    );
    assert!(r.expect("no error").is_none());
    // Without keys and without rows there is one group that counts nothing.
    let empty = DataChunk::seed("a", Vec::new());
    let one = batched_agg_last_stage(
        &g, &empty, &hops, &none, &Vec::new(), &vec![SiteArgVal::Star], &sites,
    )
    .expect("no error")
    .expect("one group");
    assert_eq!(counts(&one), vec![0]);
}
