use std::collections::{BTreeMap, BTreeSet};

use engram_graph::aggregate::recognise_aggregate;
use engram_graph::ast::{Expr, Function, Head, Op};
use engram_graph::chunk::DataChunk;
use engram_graph::degree::{
    degree_counts, degree_shape, keep_page, keep_top, merge_by_value, orders_largest_first,
    rollup_counts, rollup_shape, try_bi7_rollup, try_degree_aggregate,
};
use engram_graph::graph::{Dir, Graph, RunError, VarKind, NULL_ID};
use engram_graph::group::{reduce_needs, run_aggregate_over_chunk, Supply};
use engram_graph::hop::Hop;
use engram_graph::index_topk::{carried_set, recognise_index_topk, scan_budget, try_index_topk};
use engram_graph::levers::Levers;
use engram_graph::located::{find_rels, located_shape, nodes_at, try_ic11_semijoin};
use engram_graph::multistage::recognise_multistage;
use engram_graph::ordered::{
    creator_sorted_messages, entry_rows, ordered_shape, try_ic2_ordered, Msg,
};
use engram_graph::plan::{recognise_core, AggSite};
use engram_graph::query::{
    Clause, NodePattern, OrderItem, PathPattern, Pattern, ProjItem, Projection, RelDir,
    RelPattern, SingleQuery, VarLength,
};
use engram_graph::reduce::{reduce_agg_groups, Group, KeyVal, SiteAcc, SiteArgVal, Val};
use engram_graph::tally::{all_ends_of, tally_ends, tally_two_hops, Walk};
use engram_graph::topk::{topk_cap, KeyCol, TopKAcc};
use engram_graph::window::{span_of, try_ic3_datewindow, window_chunk, DateOp};

fn s(x: &str) -> String {
    x.to_string()
}

fn ss(xs: &[&str]) -> Vec<String> {
    xs.iter().map(|x| s(x)).collect()
}

fn lit(head: Head) -> Expr {
    Expr { head, args: Vec::new() }
}

fn var(x: &str) -> Expr {
    Expr::var(&s(x))
}

fn prop(x: &str, k: &str) -> Expr {
    Expr::prop(var(x), &s(k))
}

fn call(name: &str, args: Vec<Expr>, star: bool, aggregate: bool) -> Expr {
    let f = Function { name: s(name), distinct: false, star, aggregate, columnar: !aggregate };
    Expr { head: Head::Call(f), args }
}

fn node(x: &str, labels: &[&str]) -> NodePattern {
    let var = if x.is_empty() { None } else { Some(s(x)) };
    NodePattern { var, labels: ss(labels), props: None }
}

fn rel(typ: &str, dir: RelDir) -> RelPattern {
    RelPattern { var: None, types: ss(&[typ]), dir, props: None, length: None }
}

fn path(start: NodePattern, hops: Vec<(RelPattern, NodePattern)>) -> PathPattern {
    PathPattern { var: None, shortest: false, start, hops }
}

fn matches_of(paths: Vec<PathPattern>, where_: Option<Expr>) -> Clause {
    Clause::Match { optional: false, pattern: Pattern { paths }, where_ }
}

fn item(expr: Expr, alias: &str) -> ProjItem {
    let alias = if alias.is_empty() { None } else { Some(s(alias)) };
    let default_name = match &expr.head {
        Head::Var(x) => x.clone(),
        _ => s("expr"),
    };
    ProjItem { expr, alias, text: None, default_name }
}

fn proj(items: Vec<ProjItem>) -> Projection {
    Projection {
        distinct: false,
        star: false,
        items,
        order: Vec::new(),
        skip: None,
        limit: None,
        distinct_vars: Vec::new(),
    }
}

fn by(expr: Expr, descending: bool) -> OrderItem {
    OrderItem { expr, descending }
}

fn query(clauses: Vec<Clause>) -> SingleQuery {
    SingleQuery { clauses }
}

fn count_of(g: &Group) -> i64 {
    match &g.accs[0] {
        SiteAcc::CountStar(n) => *n,
        SiteAcc::Fed(v) => v.len() as i64,
    }
}

#[test]
fn rows_group_by_value_in_the_order_they_are_first_seen() {
    let g = Graph::new();
    let chunk = DataChunk::seed("n", vec![4, 5, 6, 4]);
    let ks = vec![KeyVal::Col(0, vec![4, 5, 6], vec![Val::Int(1), Val::Str(s("x")), Val::Int(1)])];
    let sites = vec![AggSite { name: s("count"), distinct: false, star: true, args: Vec::new() }];
    let groups = reduce_agg_groups(&g, &chunk, &ks, &vec![SiteArgVal::Star], &sites)
        .expect("no error")
        .expect("no decline");
    assert_eq!(groups.iter().map(|x| x.ids.clone()).collect::<Vec<_>>(), vec![vec![4], vec![5]]);
    assert_eq!(groups.iter().map(count_of).collect::<Vec<i64>>(), vec![3, 1]);
    assert_eq!(groups.iter().map(count_of).sum::<i64>(), 4);
}

#[test]
fn a_nan_groups_with_nothing() {
    let g = Graph::new();
    let chunk = DataChunk::seed("n", vec![4, 5]);
    let ks = vec![KeyVal::Col(0, vec![4, 5], vec![Val::Nan, Val::Nan])];
    let sites = vec![AggSite { name: s("count"), distinct: false, star: true, args: Vec::new() }];
    let groups = reduce_agg_groups(&g, &chunk, &ks, &vec![SiteArgVal::Star], &sites)
        .expect("no error")
        .expect("no decline");
    assert_eq!(groups.len(), 2);
}

#[test]
fn more_groups_than_the_budget_are_refused() {
    let mut g = Graph::new();
    g.row_budget = Some(1);
    let chunk = DataChunk::seed("n", vec![4, 5]);
    let ks = vec![KeyVal::Node(0)];
    let e = reduce_agg_groups(&g, &chunk, &ks, &Vec::new(), &Vec::new()).expect_err("two groups");
    assert!(matches!(e, RunError::RowBudget));
}

#[test]
fn the_order_of_rows_does_not_change_a_count() {
    let g = Graph::new();
    let ks = vec![KeyVal::Node(0)];
    let sites = vec![AggSite { name: s("count"), distinct: false, star: true, args: Vec::new() }];
    let counts = |ids: Vec<u64>| {
        let chunk = DataChunk::seed("n", ids);
        let mut r: Vec<(u64, i64)> =
            reduce_agg_groups(&g, &chunk, &ks, &vec![SiteArgVal::Star], &sites)
                .expect("no error")
                .expect("no decline")
                .iter()
                .map(|x| (x.ids[0], count_of(x)))
                .collect();
        r.sort();
        r
    };
    assert_eq!(counts(vec![1, 2, 1, 3]), counts(vec![3, 1, 1, 2]));
    assert_eq!(counts(vec![1, 2, 1, 3]), vec![(1, 2), (2, 1), (3, 1)]);
}

// count(a) by b.name over (a:A)-[:R]->(b:B).
fn by_name() -> SingleQuery {
    let mut p = proj(vec![
        item(prop("b", "name"), "name"),
        item(call("count", vec![var("a")], false, true), "n"),
    ]);
    p.order = vec![by(var("n"), true)];
    p.limit = Some(lit(Head::Int(1)));
    query(vec![
        matches_of(
            vec![path(node("a", &["A"]), vec![(rel("R", RelDir::Out), node("b", &["B"]))])],
            None,
        ),
        Clause::Return { proj: p },
    ])
}

fn three_to_two() -> Graph {
    let mut g = Graph::new();
    for _ in 0..3 {
        g.create_node(ss(&["A"]));
    }
    g.create_node(ss(&["B"]));
    g.create_node(ss(&["B"]));
    g.create_rel(0, &s("R"), 3);
    g.create_rel(1, &s("R"), 3);
    g.create_rel(2, &s("R"), 3);
    g.create_rel(2, &s("R"), 4);
    g
}

#[test]
fn a_degree_count_reads_off_the_ends_of_a_hop() {
    let g = three_to_two();
    let plan = recognise_aggregate(&by_name(), &Levers::new()).expect("groups");
    let shape = degree_shape(&plan).expect("counts sources by a property of the end");
    assert_eq!((shape.prop.as_str(), shape.start, shape.end), ("name", 0, 1));
    let ns = degree_counts(&g, &plan);
    assert_eq!(ns, vec![(3, 3), (4, 1)]);
    assert_eq!(ns.iter().map(|p| p.1).sum::<i64>(), 4);
    let names = |a: &str, b: &str| vec![Val::Str(s(a)), Val::Str(s(b))];
    let all = try_degree_aggregate(&plan, &shape, &ns, &names("x", "y"), None).expect("groups");
    assert_eq!(all.iter().map(count_of).collect::<Vec<i64>>(), vec![3, 1]);
    assert_eq!(all[0].ids, vec![NULL_ID, 3]);
    let top = try_degree_aggregate(&plan, &shape, &ns, &names("x", "y"), Some((0, 1))).expect("groups");
    assert_eq!(top.iter().map(count_of).collect::<Vec<i64>>(), vec![3]);
    let one = try_degree_aggregate(&plan, &shape, &ns, &names("x", "x"), None).expect("groups");
    assert_eq!(one.iter().map(count_of).collect::<Vec<i64>>(), vec![4]);
    let nan = vec![Val::Nan, Val::Int(1)];
    assert!(try_degree_aggregate(&plan, &shape, &ns, &nan, None).is_none());
}

#[test]
fn a_degree_count_is_what_grouping_the_rows_counts() {
    let g = three_to_two();
    let plan = recognise_aggregate(&by_name(), &Levers::new()).expect("groups");
    let t = g.type_tokens_peek(&ss(&["R"]));
    let chunk = DataChunk::seed("a", vec![0, 1, 2])
        .expand(&g, 0, &s("b"), None, Dir::Out, &t, None, false, false)
        .expect("rows");
    let needs = reduce_needs(&plan, &chunk);
    assert_eq!(needs.ids[1], vec![3, 4]);
    assert_eq!(needs.props[1], ss(&["name"]));
    let x = Supply { keys: vec![Some(vec![Val::Str(s("x")), Val::Str(s("y"))])], args: vec![None] };
    let groups = run_aggregate_over_chunk(&g, &plan, &chunk, &needs, &x)
        .expect("no error")
        .expect("no decline");
    let got: Vec<(u64, i64)> = groups.iter().map(|x| (x.ids[1], count_of(x))).collect();
    assert_eq!(got, degree_counts(&g, &plan));
}

#[test]
fn counts_merge_by_value_and_only_the_largest_reach_a_page() {
    let ns = vec![(7, 2), (8, 5), (9, 3)];
    let vals = vec![Val::Int(1), Val::Int(2), Val::Int(1)];
    assert_eq!(merge_by_value(&vals, &ns), Some(vec![(7, 5), (8, 5)]));
    assert_eq!(keep_top(&vec![(1, 4), (2, 9), (3, 4), (4, 1)], 2), vec![(1, 4), (2, 9), (3, 4)]);
    assert_eq!(keep_top(&vec![(1, 4), (2, 9), (3, 4), (4, 1)], 1), vec![(2, 9)]);
}

#[test]
fn a_page_is_cut_by_the_count_itself_alone() {
    let count = || call("count", vec![var("a")], false, true);
    let page = |e: Expr| {
        let mut p = proj(vec![item(prop("b", "name"), "name"), item(e, "n")]);
        p.order = vec![by(var("n"), true)];
        p
    };
    let ns = || vec![(1, 4), (2, 9), (3, 4), (4, 1)];
    let bare = page(count());
    assert!(orders_largest_first(&bare));
    assert_eq!(keep_page(&bare, Some((1, 1)), ns()), vec![(1, 4), (2, 9), (3, 4)]);
    assert_eq!(keep_page(&bare, None, ns()), ns());
    // The largest difference belongs to the smallest count.
    let less = page(Expr::bin(Op::Minus, lit(Head::Int(0)), count()));
    assert!(!orders_largest_first(&less));
    assert_eq!(keep_page(&less, Some((1, 1)), ns()), ns());
}

#[test]
fn a_rollup_counts_every_pair_of_relationships() {
    let mut g = Graph::new();
    g.create_node(ss(&["A"]));
    g.create_node(ss(&["A"]));
    g.create_node(ss(&["B"]));
    g.create_node(ss(&["B"]));
    g.create_node(ss(&["C"]));
    for (a, b) in [(0, 2), (0, 3), (1, 2)] {
        g.create_rel(a, &s("R"), b);
    }
    g.create_rel(2, &s("S"), 4);
    g.create_rel(3, &s("S"), 4);
    let mut p = proj(vec![
        item(prop("c", "name"), "name"),
        item(call("count", vec![var("a")], false, true), "n"),
    ]);
    p.order = vec![by(var("n"), true), by(var("name"), false)];
    p.limit = Some(lit(Head::Int(5)));
    let q = query(vec![
        matches_of(
            vec![path(
                node("a", &["A"]),
                vec![
                    (rel("R", RelDir::Out), node("b", &["B"])),
                    (rel("S", RelDir::Out), node("c", &["C"])),
                ],
            )],
            None,
        ),
        Clause::Return { proj: p },
    ]);
    let plan = recognise_aggregate(&q, &Levers::new()).expect("groups");
    let shape = rollup_shape(&plan).expect("counts over two hops");
    assert!(degree_shape(&plan).is_none());
    let ns = rollup_counts(&g, &plan);
    assert_eq!(ns, vec![(4, 3)]);
    let groups = try_bi7_rollup(&plan, &shape, &ns, &vec![Val::Str(s("c"))]).expect("groups");
    assert_eq!(groups.iter().map(count_of).collect::<Vec<i64>>(), vec![3]);
    assert!(try_bi7_rollup(&plan, &shape, &ns, &vec![Val::Nan]).is_none());
}

#[test]
fn tallies_count_ends_and_roll_up() {
    let g = three_to_two();
    let walk = |dir: Dir, backwards: bool| Walk {
        dir,
        tokens: g.type_tokens_peek(&ss(&["R"])),
        members: None,
        backwards,
    };
    assert_eq!(all_ends_of(&g, &walk(Dir::Out, true), &vec![2, 0]), vec![4, 3, 3]);
    assert_eq!(all_ends_of(&g, &walk(Dir::Out, false), &vec![2, 0]), vec![3, 4, 3]);
    let t = tally_ends(&g, &walk(Dir::Out, false), &vec![2, 0]);
    assert_eq!(t.seen, vec![3, 4]);
    assert_eq!((t.count[&3], t.count[&4]), (2, 1));
    // Out and back: 3 is met three times and leads back to 0, 1 and 2.
    let (_, mids, far) =
        tally_two_hops(&g, &walk(Dir::Out, false), &walk(Dir::In, false), &vec![0, 1, 2]);
    assert_eq!(mids, vec![3, 4]);
    assert_eq!(far.seen, vec![0, 1, 2]);
    assert_eq!(far.counts, vec![3, 3, 4]);
}

#[test]
fn the_first_rows_of_an_order_are_kept_batch_by_batch() {
    let keys = |ks: &[u8]| ks.iter().map(|k| vec![*k]).collect::<Vec<Vec<u8>>>();
    let col = KeyCol::Var(0, vec![1, 2, 3, 4], keys(&[9, 5, 5, 7]));
    let whole = DataChunk::seed("n", vec![1, 2, 3, 4]);
    let mut all = TopKAcc::new(2, vec![false]);
    all.push_chunk(&whole, &vec![col]);
    assert_eq!(all.finish(), vec![vec![2], vec![3]]);
    let mut parts = TopKAcc::new(2, vec![false]);
    for (ids, ks) in [(vec![1, 2], keys(&[9, 5])), (vec![3, 4], keys(&[5, 7]))] {
        let chunk = DataChunk::seed("n", ids.clone());
        parts.push_chunk(&chunk, &vec![KeyCol::Var(0, ids, ks)]);
    }
    assert_eq!(parts.finish(), vec![vec![2], vec![3]]);
    let mut down = TopKAcc::new(1, vec![true]);
    down.push_chunk(&whole, &vec![KeyCol::Var(0, vec![1, 2, 3, 4], keys(&[9, 5, 5, 7]))]);
    assert_eq!(down.finish(), vec![vec![1]]);
    assert_eq!(topk_cap(10, Some(5)), 15);
    assert_eq!(topk_cap(usize::MAX, Some(5)), usize::MAX);
}

fn msg(date: i64, id: i64, owner: u64, node: u64) -> Msg {
    Msg { date, id, owner, node }
}

#[test]
fn entries_are_kept_newest_first_by_owner() {
    let mut g = Graph::new();
    for _ in 0..2 {
        g.create_node(ss(&["P"]));
    }
    for _ in 0..4 {
        g.create_node(ss(&["M"]));
    }
    g.create_rel(2, &s("HAS_CREATOR"), 0);
    g.create_rel(3, &s("HAS_CREATOR"), 0);
    g.create_rel(4, &s("HAS_CREATOR"), 1);
    let t = g.type_tokens_peek(&ss(&["HAS_CREATOR"]));
    let index = creator_sorted_messages(
        &g,
        &t,
        &vec![2, 3, 4, 5],
        &vec![Some(10), Some(20), Some(15), Some(99)],
        &vec![Some(1), None, Some(3), Some(4)],
    );
    assert_eq!(index[&0], vec![msg(20, 3, 0, 3), msg(10, 1, 0, 2)]);
    assert_eq!(index[&1], vec![msg(15, 3, 1, 4)]);
    assert!(!index.contains_key(&5), "an entry without an owner is in no list");
    let got = try_ic2_ordered(&index, &vec![0, 1], 15, 2);
    assert_eq!(got, vec![msg(15, 3, 1, 4), msg(10, 1, 0, 2)]);
    // An owner that is met twice brings its entries twice.
    let twice = try_ic2_ordered(&index, &vec![0, 0], 99, 3);
    assert_eq!(twice.iter().map(|m| m.node).collect::<Vec<u64>>(), vec![3, 3, 2]);
}

#[test]
fn the_newest_of_each_list_are_enough() {
    let mut index: BTreeMap<u64, Vec<Msg>> = BTreeMap::new();
    index.insert(1, vec![msg(9, 1, 1, 11), msg(7, 1, 1, 12), msg(5, 1, 1, 13)]);
    index.insert(2, vec![msg(8, 1, 2, 21), msg(7, 0, 2, 22)]);
    for cap in 0..6 {
        let got = try_ic2_ordered(&index, &vec![1, 2], 9, cap);
        let all = vec![11, 21, 22, 12, 13];
        let want: Vec<u64> = all.into_iter().take(cap).collect();
        assert_eq!(got.iter().map(|m| m.node).collect::<Vec<u64>>(), want);
    }
}

#[test]
fn a_read_of_recent_entries_is_recognised() {
    let mut start = node("p", &["Person"]);
    start.props = Some(Expr { head: Head::MapOf(ss(&["id"])), args: vec![lit(Head::Int(7))] });
    let mut p = proj(vec![item(prop("m", "id"), "mid"), item(prop("m", "date"), "at")]);
    p.order = vec![by(var("at"), true), by(var("mid"), false)];
    p.limit = Some(lit(Head::Int(20)));
    let read = |where_: Expr, order: usize| {
        let mut p = p.copy();
        p.order.truncate(order);
        let hops = vec![
            (rel("KNOWS", RelDir::Undirected), node("f", &["Person"])),
            (rel("HAS_CREATOR", RelDir::In), node("m", &["Message"])),
        ];
        let q = query(vec![
            matches_of(vec![path(start.copy(), hops)], Some(where_)),
            Clause::Return { proj: p },
        ]);
        recognise_core(&q).expect("plain rows")
    };
    let until = || Expr::bin(Op::Le, prop("m", "date"), lit(Head::Param(s("t"))));
    let plan = read(until(), 2);
    // A further condition, or an order that leaves ties open, is not read so.
    let named = Expr::bin(Op::Eq, prop("f", "name"), lit(Head::Str(s("X"))));
    assert!(ordered_shape(&read(Expr::bin(Op::And, until(), named), 2)).is_none());
    assert!(ordered_shape(&read(until(), 1)).is_none());
    let o = ordered_shape(&plan).expect("newest first");
    assert_eq!((o.start, o.owner, o.entry), (0, 1, 2));
    assert_eq!(o.prop, "date");
    assert!(matches!(&o.bound.head, Head::Param(x) if x == "t"));
    let rows = entry_rows(3, &o, 5, &vec![msg(1, 1, 8, 9)]);
    assert_eq!(rows, vec![vec![5, 8, 9]]);
}

// (p)-[:KNOWS*1..2]-(f) WITH DISTINCT f, then one more match from f.
fn friends(second: PathPattern, where_: Option<Expr>, last: Projection) -> SingleQuery {
    let mut start = node("p", &["Person"]);
    start.props = Some(Expr { head: Head::MapOf(ss(&["id"])), args: vec![lit(Head::Int(7))] });
    let mut knows = rel("KNOWS", RelDir::Undirected);
    knows.length = Some(VarLength { min: Some(1), max: Some(2) });
    let mut carry = proj(vec![item(var("f"), "")]);
    carry.distinct = true;
    carry.distinct_vars = ss(&["f"]);
    query(vec![
        matches_of(vec![path(start, vec![(knows, node("f", &["Person"]))])], None),
        Clause::With { proj: carry, where_: None },
        matches_of(vec![second], where_),
        Clause::Return { proj: last },
    ])
}

#[test]
fn a_read_that_ends_at_a_known_place_is_found_from_there() {
    let mut work = rel("WORK_AT", RelDir::Out);
    work.var = Some(s("w"));
    let mut country = node("k", &["Country"]);
    country.props =
        Some(Expr { head: Head::MapOf(ss(&["name"])), args: vec![lit(Head::Str(s("X")))] });
    let second = path(
        node("f", &[]),
        vec![(work, node("c", &["Company"])), (rel("IS_LOCATED_IN", RelDir::Out), country)],
    );
    let where_ = Expr::bin(Op::Lt, prop("w", "from"), lit(Head::Int(2015)));
    let mut last = proj(vec![item(prop("f", "id"), "fid")]);
    last.order = vec![by(var("fid"), false)];
    last.limit = Some(lit(Head::Int(10)));
    let q = friends(second, Some(where_), last);
    let plan = recognise_multistage(&q).expect("two stages");
    let l = located_shape(&plan).expect("ends at a known place");
    assert_eq!((l.rel.as_str(), l.place.0.as_str(), l.below.0.as_str()), ("w", "name", "from"));
    // A third condition is not read so.
    let mut more = recognise_multistage(&q).expect("two stages");
    let again = recognise_multistage(&q).expect("two stages");
    more.s2_wheres.extend(again.s2_wheres.into_iter().take(1));
    assert!(located_shape(&more).is_none());

    let mut g = Graph::new();
    g.create_node(ss(&["Person"]));
    g.create_node(ss(&["Company"]));
    g.create_node(ss(&["Company"]));
    g.create_node(ss(&["Country"]));
    g.create_node(ss(&["Country"]));
    g.create_rel(0, &s("WORK_AT"), 1);
    g.create_rel(0, &s("WORK_AT"), 2);
    g.create_rel(1, &s("IS_LOCATED_IN"), 3);
    g.create_rel(2, &s("IS_LOCATED_IN"), 4);
    let located = g.type_tokens_peek(&ss(&["IS_LOCATED_IN"]));
    let at = nodes_at(&g, &located, &vec![3, 4], &vec![true, false], None);
    assert_eq!(at.iter().copied().collect::<Vec<u64>>(), vec![1]);
    let work = g.type_tokens_peek(&ss(&["WORK_AT"]));
    let found = find_rels(&g, Dir::Out, &work, &located, &at, 3, &vec![0]);
    assert_eq!((found.len(), found[0].rel, found[0].node), (1, 0, 1));
    // A node that is located there twice is found twice.
    g.create_rel(1, &s("IS_LOCATED_IN"), 3);
    assert_eq!(find_rels(&g, Dir::Out, &work, &located, &at, 3, &vec![0]).len(), 2);
    let rows = try_ic11_semijoin(&plan, &l, 3, &found, &vec![Some(2010)], 2015).expect("columns");
    assert_eq!(rows.len(), 1);
    assert!(rows[0].contains(&0) && rows[0].contains(&1) && rows[0].contains(&3));
    let late = try_ic11_semijoin(&plan, &l, 3, &found, &vec![Some(2015)], 2015).expect("columns");
    assert!(late.is_empty());
    let unknown = try_ic11_semijoin(&plan, &l, 3, &found, &vec![None], 2015).expect("columns");
    assert!(unknown.is_empty());
}

#[test]
fn the_newest_ends_are_read_off_an_index() {
    let second = path(node("f", &[]), vec![(rel("HAS_CREATOR", RelDir::In), node("m", &["Message"]))]);
    let where_ = Expr::bin(Op::Lt, prop("m", "date"), lit(Head::Param(s("t"))));
    let mut last = proj(vec![item(prop("m", "id"), "mid"), item(prop("m", "date"), "at")]);
    last.order = vec![by(var("at"), true), by(var("mid"), false)];
    last.limit = Some(lit(Head::Int(20)));
    let plan = recognise_multistage(&friends(second, Some(where_), last)).expect("two stages");
    let k = recognise_index_topk(&plan).expect("an index orders the ends");
    assert_eq!((k.order_prop.as_str(), k.tie_prop.as_str()), ("date", "id"));
    assert_eq!(k.dir, Dir::Out);
    assert_eq!(scan_budget(100, 1), 800);
    assert_eq!(scan_budget(1, 20), 1280);
    assert_eq!(scan_budget(usize::MAX, 1), usize::MAX);

    let mut g = Graph::new();
    for _ in 0..4 {
        g.create_node(ss(&["N"]));
    }
    g.create_rel(2, &s("HAS_CREATOR"), 0);
    g.create_rel(3, &s("HAS_CREATOR"), 1);
    let t = g.type_tokens_peek(&ss(&["HAS_CREATOR"]));
    let set = carried_set(&DataChunk::seed("f", vec![1, 0, 1]), 0);
    assert_eq!(set.len(), 2);
    let kinds = vec![VarKind::Node, VarKind::Node];
    let c = try_index_topk(&g, k.dir, &t, None, &set, &vec![3, 2], ss(&["f", "m"]), kinds);
    assert_eq!(c.live_rows(), vec![vec![1, 3], vec![0, 2]]);
    // An end with two carried nodes has a row with each, if it has the labels.
    g.create_rel(2, &s("HAS_CREATOR"), 1);
    let only = BTreeSet::from([2]);
    let kinds = vec![VarKind::Node, VarKind::Node];
    let c = try_index_topk(&g, k.dir, &t, Some(&only), &set, &vec![3, 2], ss(&["f", "m"]), kinds);
    assert_eq!(c.live_rows(), vec![vec![0, 2], vec![1, 2]]);
}

#[test]
fn a_window_keeps_every_bound() {
    let second = path(
        node("f", &[]),
        vec![
            (rel("HAS_CREATOR", RelDir::In), node("m", &["Message"])),
            (rel("IS_LOCATED_IN", RelDir::Out), node("k", &["Country"])),
        ],
    );
    let where_ = Expr::bin(
        Op::And,
        Expr::bin(Op::Ge, prop("m", "date"), lit(Head::Param(s("a")))),
        Expr::bin(Op::Gt, lit(Head::Param(s("b"))), prop("m", "date")),
    );
    let mut last = proj(vec![item(prop("m", "id"), "mid")]);
    last.order = vec![by(var("mid"), false)];
    last.limit = Some(lit(Head::Int(20)));
    let plan = recognise_multistage(&friends(second, Some(where_), last)).expect("two stages");
    let w = try_ic3_datewindow(&plan.s2_hops, &plan.s2_wheres, 1).expect("a window");
    // A second hop of one path over the same type may not go back the way it came.
    let mut back: Vec<Hop> = plan.s2_hops.iter().map(|h| h.copy()).collect();
    back[1].types = ss(&["HAS_CREATOR"]);
    assert!(try_ic3_datewindow(&back, &plan.s2_wheres, 1).is_none());
    let ops: Vec<DateOp> = w.bounds.iter().map(|b| b.op).collect();
    assert_eq!(ops, vec![DateOp::Ge, DateOp::Lt]);
    assert!(w.others.is_empty());
    let span = span_of(&ops, &vec![Some(10), Some(20)]).expect("bounded on either side");
    let mut index: BTreeMap<u64, Vec<Msg>> = BTreeMap::new();
    index.insert(
        4,
        vec![msg(20, 1, 4, 51), msg(19, 1, 4, 52), msg(10, 1, 4, 53), msg(9, 1, 4, 54)],
    );
    let driving = DataChunk::seed("f", vec![4, 8]);
    let c = window_chunk(&index, &driving, 0, &span, &s("m"));
    assert_eq!(c.live_rows(), vec![vec![4, 52], vec![4, 53]]);
    assert!(span_of(&ops, &vec![Some(10), None]).is_none());
    assert!(span_of(&vec![DateOp::Ge], &vec![Some(1)]).is_none());
    // Of two lower bounds the tighter one decides, wherever it stands.
    let tight = span_of(
        &vec![DateOp::Gt, DateOp::Ge, DateOp::Le],
        &vec![Some(15), Some(10), Some(20)],
    )
    .expect("bounded on either side");
    assert_eq!((tight.lo, tight.lo_in, tight.hi, tight.hi_in), (15, false, 20, true));
}

#[test]
fn a_rollup_that_closes_a_cycle_is_declined() {
    let mut p = proj(vec![
        item(prop("a", "name"), "name"),
        item(call("count", vec![var("b")], false, true), "n"),
    ]);
    p.order = vec![by(var("name"), false)];
    let q = query(vec![
        matches_of(
            vec![path(
                node("a", &["A"]),
                vec![
                    (rel("R", RelDir::Out), node("b", &["B"])),
                    (rel("S", RelDir::Out), node("a", &[])),
                ],
            )],
            None,
        ),
        Clause::Return { proj: p },
    ]);
    let plan = recognise_aggregate(&q, &Levers::new()).expect("groups");
    assert!(rollup_shape(&plan).is_none());
}

#[test]
fn a_rollup_over_one_type_keeps_its_relationships_apart() {
    let mut p = proj(vec![
        item(prop("c", "name"), "name"),
        item(call("count", vec![var("a")], false, true), "n"),
    ]);
    p.order = vec![by(var("name"), false)];
    let q = query(vec![
        matches_of(
            vec![path(
                node("a", &["A"]),
                vec![
                    (rel("R", RelDir::Out), node("b", &["A"])),
                    (rel("R", RelDir::In), node("c", &["A"])),
                ],
            )],
            None,
        ),
        Clause::Return { proj: p },
    ]);
    let plan = recognise_aggregate(&q, &Levers::new()).expect("groups");
    assert!(rollup_shape(&plan).is_none(), "the second hop may not take the first one back");
}
