use engram_graph::aggregate::recognise_aggregate;
use engram_graph::ast::{Expr, Function, Head, Op};
use engram_graph::chain::{collect_hops, Allow};
use engram_graph::chain_rows::build_chunk_from_ids;
use engram_graph::graph::{Dir, Graph};
use engram_graph::levers::{set_count_fold, set_count_only_reorder, set_order_peak_search, Levers};
use engram_graph::ordering::{
    accept_reorder, first_least, greedy_pick, materialised_var_count, reorder_candidate,
    reorder_pattern, score_ordering, search_ordering, searches_all, CostStep, Greedy,
};
use engram_graph::query::{
    Clause, NodePattern, PathPattern, Pattern, ProjItem, Projection, RelDir, RelPattern,
    SingleQuery,
};
use engram_graph::reorder::{count_star_only_return, reorder_seed, stamp_labels};
use engram_graph::reroot::reverse_path;
use engram_graph::seeds::scan_ids;
use engram_graph::select::Filter;

fn s(x: &str) -> String {
    x.to_string()
}

fn ss(xs: &[&str]) -> Vec<String> {
    xs.iter().map(|x| s(x)).collect()
}

fn node(x: &str, labels: &[&str]) -> NodePattern {
    NodePattern { var: Some(s(x)), labels: ss(labels), props: None }
}

fn hop(typ: &str, dir: RelDir, to: NodePattern) -> (RelPattern, NodePattern) {
    (RelPattern { var: None, types: ss(&[typ]), dir, props: None, length: None }, to)
}

fn path(start: NodePattern, hops: Vec<(RelPattern, NodePattern)>) -> PathPattern {
    PathPattern { var: None, shortest: false, start, hops }
}

fn count_return() -> Projection {
    let f = Function { name: s("count"), distinct: false, star: true, aggregate: true, columnar: false };
    let expr = Expr { head: Head::Call(f), args: Vec::new() };
    Projection {
        distinct: false,
        star: false,
        items: vec![ProjItem { expr, alias: Some(s("n")), text: None, default_name: s("count(*)") }],
        order: Vec::new(),
        skip: None,
        limit: None,
        distinct_vars: Vec::new(),
    }
}

fn count(paths: Vec<PathPattern>) -> SingleQuery {
    SingleQuery {
        clauses: vec![
            Clause::Match { optional: false, pattern: Pattern { paths }, where_: None },
            Clause::Return { proj: count_return() },
        ],
    }
}

fn fanout(g: &Graph, c: &CostStep) -> f64 {
    let from = scan_ids(g, &c.from);
    let to = scan_ids(g, &c.to);
    let tokens = g.type_tokens_peek(&c.types);
    let mut edges: usize = 0;
    for n in &from {
        edges += g.adjacent(*n, c.dir, &tokens).iter().filter(|e| to.contains(&e.peer)).count();
    }
    edges as f64 / from.len().max(1) as f64
}

// The peak and the last row count of an ordering, as order-preserving bits.
fn cost(g: &Graph, seed: &String, rows: u64, ps: &Vec<PathPattern>) -> (u64, u64) {
    let mut rows = rows as f64;
    let mut peak = rows;
    for c in score_ordering(g, seed, ps).iter() {
        let f = fanout(g, c);
        let factor = match c.space {
            Some(space) => (f / space as f64).min(f),
            None => f,
        };
        rows *= factor;
        peak = peak.max(rows);
    }
    (peak.to_bits(), rows.to_bits())
}

fn reorder_for_count_only(g: &Graph, q: &SingleQuery, levers: &Levers) -> Option<SingleQuery> {
    let seeded = reorder_seed(g, reorder_candidate(q, levers)?)?;
    let mut pattern: Option<Pattern> = None;
    if searches_all(levers, seeded.kept.len()) {
        let all = search_ordering(&seeded.kept, &seeded.seed);
        let keys: Vec<(u64, u64)> =
            all.iter().map(|ps| cost(g, &seeded.seed, seeded.rows, ps)).collect();
        pattern = reorder_pattern(&seeded.kept, &seeded.seed, &keys);
    }
    if pattern.is_none() {
        let n = seeded.kept.len();
        let mut walk = Greedy::new(seeded.kept, &seeded.seed);
        for _ in 0..n {
            let mut cs = walk.choices();
            let costs: Vec<u64> = cs
                .iter()
                .map(|c| cost(g, &seeded.seed, 1, &vec![c.path.copy()]).1)
                .collect();
            let i = greedy_pick(&cs, &costs)?;
            walk.take(cs.remove(i));
        }
        pattern = Some(Pattern { paths: walk.out });
    }
    accept_reorder(q, pattern?, levers)
}

fn world() -> Graph {
    let mut g = Graph::new();
    let country = g.create_node(ss(&["Country"]));
    let city = g.create_node(ss(&["City"]));
    let p1 = g.create_node(ss(&["Person"]));
    let p2 = g.create_node(ss(&["Person"]));
    g.create_rel(city, &s("IS_PART_OF"), country);
    g.create_rel(p1, &s("IS_LOCATED_IN"), city);
    g.create_rel(p2, &s("IS_LOCATED_IN"), city);
    g.create_rel(p1, &s("KNOWS"), p2);
    g
}

fn four_paths() -> Vec<PathPattern> {
    let lives = |p: &str, c: &str| {
        path(
            node(p, &["Person"]),
            vec![
                hop("IS_LOCATED_IN", RelDir::Out, node(c, &["City"])),
                hop("IS_PART_OF", RelDir::Out, node("country", &[])),
            ],
        )
    };
    vec![
        path(node("country", &["Country"]), Vec::new()),
        lives("person1", "city1"),
        lives("person2", "city2"),
        path(node("person1", &[]), vec![hop("KNOWS", RelDir::Undirected, node("person2", &[]))]),
    ]
}

#[test]
fn the_reorder_declines_its_own_output() {
    let g = world();
    let q = count(four_paths());
    let levers = Levers::new();
    let once = reorder_for_count_only(&g, &q, &levers).expect("the bare path is dropped");
    assert!(
        reorder_for_count_only(&g, &once, &levers).is_none(),
        "the pass must decline its own output, or the re-plan recurses"
    );
}

#[test]
fn the_greedy_walk_declines_its_own_output() {
    let g = world();
    let q = count(four_paths());
    let mut levers = Levers::new();
    set_order_peak_search(&mut levers, false);
    let once = reorder_for_count_only(&g, &q, &levers).expect("the bare path is dropped");
    assert!(reorder_for_count_only(&g, &once, &levers).is_none());
}

#[test]
fn a_reorder_keeps_fewer_columns() {
    let g = world();
    let q = count(four_paths());
    let levers = Levers::new();
    let once = reorder_for_count_only(&g, &q, &levers).expect("the bare path is dropped");
    let after = materialised_var_count(&once, &levers).expect("recognised");
    assert!(materialised_var_count(&q, &levers).is_none_or(|before| after < before));
    let mut off = Levers::new();
    set_count_only_reorder(&mut off, false);
    assert!(reorder_candidate(&q, &off).is_none());
}

#[test]
fn the_same_pattern_is_declined() {
    let levers = Levers::new();
    let q = count(vec![path(node("a", &["A"]), vec![hop("R", RelDir::Out, node("b", &["B"]))])]);
    let same = match &q.clauses[0] {
        Clause::Match { pattern, .. } => pattern.copy(),
        other => panic!("{other:?}"),
    };
    assert!(accept_reorder(&q, same, &levers).is_none());
    assert!(count_star_only_return(&count_return()));
}

#[test]
fn labels_are_restated_at_every_occurrence() {
    let ps = stamp_labels(&four_paths());
    assert_eq!(ps[1].hops[1].1.labels, ss(&["Country"]));
    assert_eq!(ps[3].start.labels, ss(&["Person"]));
    assert_eq!(ps[3].hops[0].1.labels, ss(&["Person"]));
}

#[test]
fn a_walk_starts_at_the_rarest_end() {
    let g = world();
    let seeded = reorder_seed(&g, &Pattern { paths: four_paths() }).expect("walkable");
    assert_eq!((seeded.seed.as_str(), seeded.rows, seeded.kept.len()), ("country", 1, 3));
    assert_eq!(first_least(&vec![(2, 1), (1, 9), (1, 3), (1, 3)]), Some(2));
    assert_eq!(first_least(&Vec::new()), None);
    assert!(!searches_all(&Levers::new(), 7) && searches_all(&Levers::new(), 6));
    assert_eq!(Dir::Out.flipped(), Dir::In);
}

#[test]
fn an_ordering_holds_each_path_once() {
    let g = world();
    let seeded = reorder_seed(&g, &Pattern { paths: four_paths() }).expect("walkable");
    let all = search_ordering(&seeded.kept, &seeded.seed);
    assert!(!all.is_empty());
    for ps in &all {
        assert_eq!(ps.len(), seeded.kept.len());
        for k in &seeded.kept {
            let turned = reverse_path(k);
            assert_eq!(ps.iter().filter(|p| p.same(k) || p.same(&turned)).count(), 1);
        }
    }
    // The first of the least costs is taken, and as many costs as orderings are needed.
    let mut keys = vec![(2, 0); all.len()];
    let last = all.len() - 1;
    keys[last] = (1, 5);
    let p = reorder_pattern(&seeded.kept, &seeded.seed, &keys).expect("an ordering");
    assert!(p.same(&Pattern { paths: all[last].iter().map(|x| x.copy()).collect() }));
    assert!(reorder_pattern(&seeded.kept, &seeded.seed, &Vec::new()).is_none());
}

fn matches_of(g: &Graph, p: &Pattern) -> Option<usize> {
    let h = collect_hops(p, None, Allow { hopless: true, start: false, node: false })?;
    let ids = scan_ids(g, &h.a_labels);
    let c = build_chunk_from_ids(g, &h.a_var, ids, &h.hops, &Vec::new(), None, true)
        .expect("rows")
        .expect("no condition declines");
    Some(c.live_rows().len())
}

#[test]
fn every_ordering_finds_the_same_matches() {
    let mut g = world();
    let other = g.create_node(ss(&["Person"]));
    g.create_rel(2, &s("KNOWS"), other);
    let seeded = reorder_seed(&g, &Pattern { paths: four_paths() }).expect("a walk");
    let all = search_ordering(&seeded.kept, &seeded.seed);
    assert!(all.len() > 1);
    for ps in all {
        assert_eq!(matches_of(&g, &Pattern { paths: ps }), Some(2));
    }
    // The same paths, written so that each one starts at a bound variable.
    let written = vec![
        path(
            node("country", &["Country"]),
            vec![
                hop("IS_PART_OF", RelDir::In, node("city1", &["City"])),
                hop("IS_LOCATED_IN", RelDir::In, node("person1", &["Person"])),
            ],
        ),
        path(node("person1", &[]), vec![hop("KNOWS", RelDir::Undirected, node("person2", &["Person"]))]),
        path(
            node("person2", &["Person"]),
            vec![
                hop("IS_LOCATED_IN", RelDir::Out, node("city2", &["City"])),
                hop("IS_PART_OF", RelDir::Out, node("country", &[])),
            ],
        ),
    ];
    assert_eq!(matches_of(&g, &Pattern { paths: written }), Some(2));
}

fn differ(x: &str, y: &str) -> Expr {
    Expr { head: Head::Op(Op::Neq), args: vec![Expr::var(&s(x)), Expr::var(&s(y))] }
}

fn passing(g: &Graph, q: &SingleQuery, levers: &Levers) -> u64 {
    let plan = recognise_aggregate(q, levers).expect("a count");
    let c = &plan.chain;
    let filters: Vec<Filter> = c
        .wheres
        .iter()
        .map(|w| match &w.id_other {
            Some((y, ne)) => Filter::Identity { var: w.var.clone(), other: y.clone(), ne: *ne },
            None => panic!("{w:?}"),
        })
        .collect();
    let ids = scan_ids(g, &c.a_labels);
    let rows = build_chunk_from_ids(g, &c.a_var, ids, &c.hops, &filters, None, true)
        .expect("rows")
        .expect("no condition declines");
    rows.selection.iter().map(|r| if rows.weights.is_empty() { 1 } else { rows.weights[*r] }).sum()
}

#[test]
fn a_reordered_count_passes_the_same_matches() {
    let mut g = Graph::new();
    let hub = g.create_node(ss(&["Hub"]));
    for i in 0..3 {
        let p = g.create_node(ss(&["P"]));
        g.create_rel(p, &s("R"), hub);
        for _ in 0..=i {
            let leaf = g.create_node(ss(&["L"]));
            g.create_rel(p, &s("S"), leaf);
        }
    }
    let written = vec![
        path(node("h", &["Hub"]), vec![hop("R", RelDir::In, node("x", &["P"]))]),
        path(node("h", &["Hub"]), vec![hop("R", RelDir::In, node("y", &["P"]))]),
        path(node("x", &["P"]), vec![hop("S", RelDir::Out, node("l", &["L"]))]),
    ];
    let other = vec![
        path(node("l", &["L"]), vec![hop("S", RelDir::In, node("x", &["P"]))]),
        path(node("x", &["P"]), vec![hop("R", RelDir::Out, node("h", &["Hub"]))]),
        path(node("h", &["Hub"]), vec![hop("R", RelDir::In, node("y", &["P"]))]),
    ];
    let asked = |paths: Vec<PathPattern>| SingleQuery {
        clauses: vec![
            Clause::Match {
                optional: false,
                pattern: Pattern { paths },
                where_: Some(differ("x", "y")),
            },
            Clause::Return { proj: count_return() },
        ],
    };
    let on = Levers::new();
    let mut off = Levers::new();
    set_count_fold(&mut off, false);
    // Each of the 1 + 2 + 3 leaves, with each of the two other nodes of its kind.
    for levers in [&on, &off] {
        assert_eq!(passing(&g, &asked(written.iter().map(|p| p.copy()).collect()), levers), 12);
        assert_eq!(passing(&g, &asked(other.iter().map(|p| p.copy()).collect()), levers), 12);
    }
}
