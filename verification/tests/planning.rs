use engram_graph::aggregate::recognise_aggregate;
use engram_graph::ast::{
    classify_key, conjuncts_of, contains_opaque, expr_has_aggregate, EdgeNode, EdgePattern,
    EdgeStep, Expr, Function, Head, KeyRef, Op,
};
use engram_graph::carry::StageTail;
use engram_graph::chain::{anon_text, collect_hops, Allow};
use engram_graph::constant::{
    constant_only_items, constant_projection_over_count, count_cap, count_cap_from, count_query,
    rows_of_page,
};
use engram_graph::dispatch::{plan_columnar, Planned};
use engram_graph::fold_plan::plan_count_fold;
use engram_graph::fuse::{recognise_projected_aggregate, substitute_aliases, ExprMap};
use engram_graph::graph::{Dir, Graph, VarKind};
use engram_graph::hierarchy::{prop_eq_of, try_anchored_hierarchy_prelude};
use engram_graph::join_plan::{recognise_join, recognise_multistage_join};
use engram_graph::legs::recognise_optional;
use engram_graph::levers::{set_count_fold, Levers};
use engram_graph::member_posts::recognise_ic5;
use engram_graph::multistage::recognise_multistage;
use engram_graph::plan::{recognise_core, AggForm, SingleVar, SiteArgPlan};
use engram_graph::preds::edge_pred_of;
use engram_graph::prelude::{
    drop_dead_const_with_items, scalar_prelude, scalar_prelude_rewrite, value_to_literal_expr,
    Bound, Scalar,
};
use engram_graph::query::{
    Clause, NodePattern, OrderItem, PathPattern, Pattern, ProjItem, Projection, RelDir,
    RelPattern, SingleQuery, VarLength,
};
use engram_graph::readset::agg_tail_read_set;
use engram_graph::reroot::{reroot_to_selective_end, reverse_path};
use engram_graph::rewrite::{normalise_renamed_unwind, rename_ident, rename_var_clauses};
use engram_graph::seeds::{agg_var_labels, core_var_labels};
use engram_graph::split::{
    normalise_seekable_end_first, normalise_shape, normalise_varlen_then_fixed,
    normalise_where_first_tail, turnable_path,
};
use engram_graph::stages::recognise_pipeline;

fn s(x: &str) -> String {
    x.to_string()
}

fn ss(xs: &[&str]) -> Vec<String> {
    xs.iter().map(|x| s(x)).collect()
}

fn lit(head: Head) -> Expr {
    Expr { head, args: Vec::new() }
}

fn num(i: i64) -> Expr {
    lit(Head::Int(i))
}

fn var(x: &str) -> Expr {
    Expr::var(&s(x))
}

fn prop(x: &str, k: &str) -> Expr {
    Expr::prop(var(x), &s(k))
}

fn call(name: &str, args: Vec<Expr>, star: bool) -> Expr {
    let aggregate = name == "count" || name == "collect" || name == "sum";
    let f = Function { name: s(name), distinct: false, star, aggregate, columnar: !aggregate };
    Expr { head: Head::Call(f), args }
}

fn count_star() -> Expr {
    call("count", Vec::new(), true)
}

fn collect_distinct(x: &str) -> Expr {
    let f = Function {
        name: s("collect"),
        distinct: true,
        star: false,
        aggregate: true,
        columnar: false,
    };
    Expr { head: Head::Call(f), args: vec![var(x)] }
}

fn node(x: &str, labels: &[&str]) -> NodePattern {
    let var = if x.is_empty() { None } else { Some(s(x)) };
    NodePattern { var, labels: ss(labels), props: None }
}

fn anchored(x: &str, labels: &[&str], k: &str, v: Expr) -> NodePattern {
    let mut n = node(x, labels);
    n.props = Some(Expr { head: Head::MapOf(ss(&[k])), args: vec![v] });
    n
}

fn rel(typ: &str, dir: RelDir) -> RelPattern {
    RelPattern { var: None, types: ss(&[typ]), dir, props: None, length: None }
}

fn varlen(typ: &str, min: Option<u64>, max: Option<u64>) -> RelPattern {
    let mut r = rel(typ, RelDir::Undirected);
    r.length = Some(VarLength { min, max });
    r
}

fn path(start: NodePattern, hops: Vec<(RelPattern, NodePattern)>) -> PathPattern {
    PathPattern { var: None, shortest: false, start, hops }
}

fn out(typ: &str, to: NodePattern) -> (RelPattern, NodePattern) {
    (rel(typ, RelDir::Out), to)
}

fn m(paths: Vec<PathPattern>, where_: Option<Expr>) -> Clause {
    Clause::Match { optional: false, pattern: Pattern { paths }, where_ }
}

fn opt(paths: Vec<PathPattern>) -> Clause {
    Clause::Match { optional: true, pattern: Pattern { paths }, where_: None }
}

fn item(expr: Expr, alias: &str) -> ProjItem {
    let alias = if alias.is_empty() { None } else { Some(s(alias)) };
    let default_name = match &expr.head {
        Head::Var(x) => x.clone(),
        _ => s("expr"),
    };
    ProjItem { expr, alias, text: None, default_name }
}

fn proj(items: Vec<ProjItem>) -> Projection {
    Projection {
        distinct: false,
        star: false,
        items,
        order: Vec::new(),
        skip: None,
        limit: None,
        distinct_vars: Vec::new(),
    }
}

fn distinct(xs: &[&str]) -> Projection {
    let mut p = proj(xs.iter().map(|x| item(var(x), "")).collect());
    p.distinct = true;
    p.distinct_vars = ss(xs);
    p
}

fn ordered(items: Vec<ProjItem>, by: Expr, descending: bool, limit: i64) -> Projection {
    let mut p = proj(items);
    p.order = vec![OrderItem { expr: by, descending }];
    p.limit = Some(num(limit));
    p
}

fn ret(proj: Projection) -> Clause {
    Clause::Return { proj }
}

fn with(proj: Projection) -> Clause {
    Clause::With { proj, where_: None }
}

fn q(clauses: Vec<Clause>) -> SingleQuery {
    SingleQuery { clauses }
}

fn text<A: std::fmt::Debug>(a: &A) -> String {
    format!("{a:?}")
}

fn chain_abc() -> PathPattern {
    path(node("a", &["A"]), vec![out("R", node("b", &["B"])), out("S", node("c", &["C"]))])
}

#[test]
fn expressions_say_what_they_read() {
    let e = Expr::bin(Op::And, Expr::bin(Op::Eq, prop("a", "k"), num(1)), var("b"));
    let mut cs = Vec::new();
    conjuncts_of(&e, &mut cs);
    assert_eq!(cs.len(), 2);
    assert!(matches!(classify_key(&prop("b", "k"), &ss(&["a", "b"])), Some(KeyRef::Var(1))));
    assert!(matches!(classify_key(&num(4), &ss(&["a"])), Some(KeyRef::Const)));
    assert!(classify_key(&e, &ss(&["a", "b"])).is_none());
    assert!(expr_has_aggregate(&Expr::bin(Op::Plus, count_star(), num(1))));
    assert!(!contains_opaque(&e) && contains_opaque(&lit(Head::Opaque(0))));
}

#[test]
fn a_path_becomes_steps() {
    let allow = Allow { hopless: false, start: false, node: false };
    let h = collect_hops(&Pattern { paths: vec![chain_abc()] }, None, allow).expect("a chain");
    assert_eq!(h.vars, ss(&["a", "b", "c"]));
    assert_eq!(h.hops.len(), 2);
    assert_eq!((h.hops[1].src, h.hops[1].end_vi, h.hops[1].tgt), (1, Some(2), None));
    // A path that returns to a bound node closes onto it.
    let triangle = path(
        node("a", &["A"]),
        vec![out("R", node("b", &["B"])), out("S", node("a", &[]))],
    );
    let h = collect_hops(&Pattern { paths: vec![triangle] }, None, allow).expect("a chain");
    assert_eq!(h.hops[1].tgt, Some(0));
    assert_eq!(h.vars, ss(&["a", "b"]));
    assert_eq!(anon_text(12), "__pipe_anon_12");
}

#[test]
fn a_plain_read_is_a_core_plan() {
    let query = q(vec![m(vec![chain_abc()], None), ret(proj(vec![item(prop("c", "k"), "k")]))]);
    let p = recognise_core(&query).expect("plain rows");
    assert_eq!(p.chain.vars, ss(&["a", "b", "c"]));
    assert_eq!(core_var_labels(&p, &s("b")), Some(ss(&["B"])));
    assert_eq!(core_var_labels(&p, &s("z")), None);
    assert!(matches!(plan_columnar(&query, &Levers::new()), Some(Planned::Core(_))));
    // An order without a limit is no core plan.
    let mut sorted = proj(vec![item(prop("c", "k"), "k")]);
    sorted.order = vec![OrderItem { expr: var("k"), descending: false }];
    assert!(recognise_core(&q(vec![m(vec![chain_abc()], None), ret(sorted)])).is_none());
}

#[test]
fn a_count_that_nobody_reads_row_by_row_is_folded() {
    let query = q(vec![m(vec![chain_abc()], None), ret(proj(vec![item(count_star(), "n")]))]);
    let on = recognise_aggregate(&query, &Levers::new()).expect("groups");
    assert!(on.chain.hops.iter().all(|h| h.fold));
    let mut levers = Levers::new();
    set_count_fold(&mut levers, false);
    let mut off = recognise_aggregate(&query, &levers).expect("groups");
    assert!(off.chain.hops.iter().all(|h| !h.fold));
    plan_count_fold(&mut off, &Levers::new());
    assert_eq!(text(&on), text(&off));
    // A key that reads b keeps b.
    let keyed = q(vec![
        m(vec![chain_abc()], None),
        ret(proj(vec![item(prop("b", "k"), "k"), item(count_star(), "n")])),
    ]);
    let p = recognise_aggregate(&keyed, &Levers::new()).expect("groups");
    assert_eq!(p.chain.hops.iter().map(|h| h.fold).collect::<Vec<bool>>(), vec![false, true]);
    assert_eq!(agg_tail_read_set(&p), vec![false, true, false]);
    assert_eq!(agg_var_labels(&p)[2], Some(ss(&["C"])));
}

#[test]
fn a_condition_between_folded_ends_moves_into_the_fold() {
    let where_ = Expr::bin(Op::Neq, var("b"), var("c"));
    let two = path(node("a", &["A"]), vec![out("R", node("b", &["B"])), out("R", node("c", &["B"]))]);
    let query = q(vec![m(vec![two], Some(where_)), ret(proj(vec![item(count_star(), "n")]))]);
    let p = recognise_aggregate(&query, &Levers::new()).expect("groups");
    let inline: usize = p.chain.hops.iter().map(|h| h.inline.len()).sum();
    assert_eq!(p.chain.wheres.len() + inline, 1, "the condition is kept once");
    assert_eq!(inline, 1);
}

#[test]
fn distinct_rows_are_groups_without_aggregates() {
    let query = q(vec![m(vec![chain_abc()], None), ret(distinct(&["b"]))]);
    match plan_columnar(&query, &Levers::new()) {
        Some(Planned::Distinct(p)) => {
            assert!(p.sites.is_empty() && p.group_keys.len() == 1);
            assert!(matches!(p.form, AggForm::Return(_)));
        },
        other => panic!("{other:?}"),
    }
}

#[test]
fn an_optional_match_is_a_left_join() {
    let query = q(vec![
        m(vec![path(node("a", &["A"]), vec![out("R", node("b", &["B"]))])], None),
        opt(vec![path(node("b", &[]), vec![out("S", node("c", &["C"]))])]),
        ret(proj(vec![item(count_star(), "n")])),
    ]);
    let p = recognise_optional(&query, &Levers::new()).expect("a left join");
    assert_eq!(p.stages.len(), 1);
    assert!(matches!(plan_columnar(&query, &Levers::new()), Some(Planned::Optional(_))));
}

#[test]
fn two_stages_hand_variables_on() {
    let query = q(vec![
        m(vec![path(node("a", &["A"]), vec![out("R", node("b", &["B"]))])], None),
        with(distinct(&["b"])),
        m(vec![path(node("b", &[]), vec![out("S", node("c", &["C"]))])], None),
        ret(proj(vec![item(prop("c", "k"), "k")])),
    ]);
    let p = recognise_multistage(&query).expect("two stages");
    assert_eq!((p.carried.clone(), p.distinct), (vec![1], true));
    assert!(matches!(plan_columnar(&query, &Levers::new()), Some(Planned::MultiStage(_))));
    assert!(recognise_join(&query).is_none() && recognise_pipeline(&query).is_none());
    assert!(recognise_ic5(&query).is_none() && recognise_multistage_join(&query).is_none());
}

#[test]
fn three_stages_are_a_pipeline() {
    let query = q(vec![
        m(vec![path(node("a", &["A"]), vec![out("R", node("b", &["B"]))])], None),
        with(distinct(&["b"])),
        m(vec![path(node("b", &[]), vec![out("S", node("c", &["C"]))])], None),
        with(distinct(&["c"])),
        m(vec![path(node("c", &[]), vec![out("T", node("d", &["D"]))])], None),
        ret(proj(vec![item(prop("d", "k"), "k")])),
    ]);
    let p = recognise_pipeline(&query).expect("three stages");
    assert_eq!(p.stages.len(), 2);
    assert!(matches!(plan_columnar(&query, &Levers::new()), Some(Planned::Pipeline(_))));
}

#[test]
fn two_matches_that_share_a_variable_are_a_join() {
    let mut tail = proj(vec![item(var("b"), ""), item(call("count", vec![var("c")], false), "n")]);
    tail.order = vec![
        OrderItem { expr: var("n"), descending: true },
        OrderItem { expr: prop("b", "id"), descending: false },
    ];
    let query = q(vec![
        m(vec![path(node("a", &["A"]), vec![out("R", node("b", &["B"]))])], None),
        m(vec![path(node("b", &[]), vec![out("S", node("c", &["C"]))])], None),
        ret(tail),
    ]);
    let p = recognise_join(&query).expect("a join");
    assert_eq!(p.b.seed_var, "b");
    assert!(matches!(plan_columnar(&query, &Levers::new()), Some(Planned::Join(_))));
}

#[test]
fn a_path_reversed_twice_is_itself() {
    let p = chain_abc();
    let r = reverse_path(&p);
    assert_eq!(r.start.var, Some(s("c")));
    assert!(r.hops.iter().all(|h| h.0.dir == RelDir::In));
    assert!(reverse_path(&r).same(&p));
}

#[test]
fn a_scan_is_driven_from_the_selective_end() {
    let mut g = Graph::new();
    for _ in 0..4 {
        g.create_node(ss(&["A"]));
    }
    g.create_node(ss(&["B"]));
    let make = |end: NodePattern| {
        q(vec![
            m(vec![path(node("a", &["A"]), vec![out("R", end)])], None),
            ret(proj(vec![item(count_star(), "n")])),
        ])
    };
    let query = make(anchored("b", &["B"], "id", num(3)));
    let r = reroot_to_selective_end(&g, &query, true).expect("the end is anchored");
    match &r.clauses[0] {
        Clause::Match { pattern, .. } => {
            assert_eq!(pattern.paths[0].start.var, Some(s("b")));
        },
        other => panic!("{other:?}"),
    }
    assert!(reroot_to_selective_end(&g, &r, true).is_none(), "not again");
    assert!(reroot_to_selective_end(&g, &query, false).is_none());
}

#[test]
fn names_are_replaced_where_they_are_read() {
    let mut map = ExprMap::new();
    map.learn(s("x"), prop("a", "k"));
    let e = Expr::bin(Op::Plus, var("x"), prop("x", "j"));
    let r = substitute_aliases(&e, &map);
    assert!(r.args[0].same(&prop("a", "k")));
    let unread = Expr::bin(Op::Plus, var("y"), num(1));
    assert!(substitute_aliases(&unread, &map).same(&unread));
    assert_eq!(rename_ident(&s("x"), &s("x"), &s("y")), "y");
    assert_eq!(rename_ident(&s("z"), &s("x"), &s("y")), "z");
    let cs = vec![ret(proj(vec![item(prop("b", "k"), "k")]))];
    let same = rename_var_clauses(&cs, 0, &s("x"), &s("y")).expect("nothing stands in the way");
    assert_eq!(text(&same), text(&cs), "a name that is not there changes nothing");
}

#[test]
fn a_renamed_list_is_unwound_under_its_own_name() {
    let query = q(vec![
        m(vec![path(node("a", &["A"]), vec![out("R", node("b", &["B"]))])], None),
        with(proj(vec![item(collect_distinct("b"), "bs")])),
        Clause::Unwind { expr: var("bs"), alias: s("x") },
        m(vec![path(node("x", &[]), vec![out("S", node("c", &["C"]))])], None),
        ret(proj(vec![item(prop("x", "k"), "k")])),
    ]);
    let r = normalise_renamed_unwind(&query).expect("renamed");
    assert!(normalise_renamed_unwind(&r).is_none());
    assert!(!text(&r).contains("\"x\""));
    // A column that is answered under the name keeps the query as it is, and so
    // does a column of the other name.
    let tail = |last: Projection| {
        let mut cs: Vec<Clause> = query.clauses.iter().map(|c| c.copy()).collect();
        cs.pop();
        cs.push(ret(last));
        normalise_renamed_unwind(&q(cs))
    };
    assert!(tail(proj(vec![item(prop("x", "k"), "k")])).is_some());
    assert!(tail(proj(vec![item(prop("x", "k"), "x")])).is_none());
    assert!(tail(proj(vec![item(prop("x", "k"), "b")])).is_none());
    let hidden = Expr { head: Head::Opaque(0), args: vec![var("x")] };
    assert!(tail(proj(vec![item(hidden, "k")])).is_none());
}

#[test]
fn a_leading_match_of_one_row_becomes_constants() {
    let query = q(vec![
        m(vec![path(anchored("t", &["Tag"], "name", lit(Head::Str(s("x")))), Vec::new())], None),
        with(proj(vec![item(prop("t", "id"), "tid")])),
        m(vec![path(node("a", &["A"]), vec![out("R", node("b", &["B"]))])],
            Some(Expr::bin(Op::Eq, prop("b", "id"), var("tid")))),
        ret(proj(vec![item(prop("a", "k"), "k"), item(var("tid"), "")])),
    ]);
    let probe = scalar_prelude(&query).expect("a leading match of constants");
    assert_eq!(probe.clauses.len(), 2);
    let cols = ss(&["tid"]);
    let one = vec![vec![Bound::Literal(value_to_literal_expr(&Scalar::Int(5)))]];
    let (r, params) = scalar_prelude_rewrite(&query, &cols, &one).expect("one row");
    assert!(params.is_empty());
    assert_eq!(r.clauses.len(), 2);
    match (&r.clauses[0], &r.clauses[1]) {
        (Clause::Match { where_: Some(w), .. }, Clause::Return { proj }) => {
            assert!(w.same(&Expr::bin(Op::Eq, prop("b", "id"), num(5))));
            assert_eq!(proj.items[1].column(), "tid", "a constant keeps its column");
        },
        other => panic!("{other:?}"),
    }
    let list = vec![vec![Bound::List]];
    let (_, params) = scalar_prelude_rewrite(&query, &cols, &list).expect("one row");
    assert_eq!(params, vec![(s("\0__prelude_tid"), 0)]);
    assert!(scalar_prelude_rewrite(&query, &cols, &vec![vec![Bound::Other]]).is_none());
    assert!(scalar_prelude_rewrite(&query, &cols, &Vec::new()).is_none(), "no row");
}

#[test]
fn an_entity_that_starts_a_path_stays_bound() {
    let mut carry = proj(vec![item(var("p"), "")]);
    carry.limit = Some(num(1));
    let query = q(vec![
        m(vec![path(anchored("p", &["Person"], "id", num(1)), Vec::new())], None),
        with(carry),
        m(vec![path(node("p", &[]), vec![out("R", node("b", &["B"]))])], None),
        ret(proj(vec![item(prop("b", "k"), "k")])),
    ]);
    assert!(scalar_prelude(&query).is_some());
    let rows = vec![vec![Bound::Entity]];
    let (r, params) = scalar_prelude_rewrite(&query, &ss(&["p"]), &rows).expect("one row");
    assert_eq!(params, vec![(s("\0__prelude_p"), 0)]);
    match &r.clauses[0] {
        Clause::Match { pattern, where_: Some(w), .. } => {
            assert_eq!(pattern.paths[0].start.labels, ss(&["Person"]));
            assert!(w.same(&Expr::bin(Op::Eq, var("p"), Expr::param(&s("\0__prelude_p")))));
        },
        other => panic!("{other:?}"),
    }
}

#[test]
fn constants_that_nothing_reads_are_dropped() {
    let cs = vec![
        with(proj(vec![item(num(1), "one"), item(var("a"), ""), item(num(2), "two")])),
        ret(proj(vec![item(var("a"), ""), item(var("two"), "")])),
    ];
    let r = drop_dead_const_with_items(&cs);
    match &r[0] {
        Clause::With { proj, .. } => {
            let names: Vec<String> = proj.items.iter().map(|i| i.column()).collect();
            assert_eq!(names, ss(&["a", "two"]));
        },
        other => panic!("{other:?}"),
    }
}

#[test]
fn a_variable_length_hop_splits_off_where_ends_are_distinct() {
    let long = path(
        node("p", &["Person"]),
        vec![
            (varlen("KNOWS", None, Some(2)), node("f", &["Person"])),
            out("IS_LOCATED_IN", node("c", &["City"])),
        ],
    );
    let where_ = Expr::bin(
        Op::And,
        Expr::bin(Op::Neq, var("p"), var("f")),
        Expr::bin(Op::Eq, prop("c", "id"), num(1)),
    );
    let query = q(vec![m(vec![long], Some(where_)), with(distinct(&["f"])), ret(distinct(&["f"]))]);
    let r = normalise_varlen_then_fixed(&query).expect("splits");
    assert_eq!(r.clauses.len(), 5);
    assert_eq!(text(&normalise_shape(&query).expect("splits")), text(&r));
    assert!(normalise_varlen_then_fixed(&r).is_none(), "not again");
    match (&r.clauses[0], &r.clauses[2]) {
        (
            Clause::Match { where_: Some(w1), pattern: p1, .. },
            Clause::Match { where_: Some(w2), pattern: p2, .. },
        ) => {
            assert!(w1.same(&Expr::bin(Op::Neq, var("p"), var("f"))));
            assert!(w2.same(&Expr::bin(Op::Eq, prop("c", "id"), num(1))));
            assert_eq!((p1.paths[0].hops.len(), p2.paths[0].hops.len()), (1, 1));
            assert_eq!(p2.paths[0].start.var, Some(s("f")));
        },
        other => panic!("{other:?}"),
    }
}

#[test]
fn the_last_projection_takes_the_page_of_the_one_before() {
    let mut page = proj(Vec::new());
    page.star = true;
    page.limit = Some(num(5));
    let query = q(vec![
        m(vec![chain_abc()], None),
        with(proj(vec![item(var("b"), ""), item(count_star(), "n")])),
        with(page),
        ret(proj(vec![item(prop("b", "k"), "k")])),
    ]);
    let r = normalise_where_first_tail(&query).expect("fuses");
    assert_eq!(r.clauses.len(), 3);
    assert!(normalise_where_first_tail(&r).is_none(), "not again");
    // An order by a name that the last projection gives to something else stays.
    let mut sorted = proj(Vec::new());
    sorted.star = true;
    sorted.order = vec![OrderItem { expr: var("n"), descending: false }];
    let taken = |alias: &str| {
        normalise_where_first_tail(&q(vec![
            m(vec![chain_abc()], None),
            with(proj(vec![item(var("b"), ""), item(count_star(), "n")])),
            with(sorted.copy()),
            ret(proj(vec![item(prop("b", "k"), alias)])),
        ]))
    };
    assert!(taken("k").is_some() && taken("n").is_none());
    match &r.clauses[2] {
        Clause::Return { proj } => assert!(proj.limit.is_some()),
        other => panic!("{other:?}"),
    }
}

#[test]
fn a_lone_first_path_may_be_turned() {
    let query = q(vec![m(vec![chain_abc()], None), ret(proj(vec![item(prop("a", "k"), "k")]))]);
    let turned = reverse_path(turnable_path(&query).expect("one path"));
    let r = normalise_seekable_end_first(&query, turned).expect("turned");
    match &r.clauses[0] {
        Clause::Match { pattern, .. } => assert_eq!(pattern.paths[0].start.var, Some(s("c"))),
        other => panic!("{other:?}"),
    }
    let mut bare = proj(vec![item(prop("a", "k"), "k")]);
    bare.limit = Some(num(1));
    let query = q(vec![m(vec![chain_abc()], None), ret(bare)]);
    assert!(turnable_path(&query).is_none(), "which rows a bare limit keeps is left alone");
}

#[test]
fn a_projection_of_constants_is_answered_from_a_count() {
    let mut p = proj(vec![item(num(1), "one")]);
    p.limit = Some(num(1));
    assert!(constant_only_items(&p));
    let query = q(vec![m(vec![chain_abc()], None), opt(vec![chain_abc()]), ret(p)]);
    let c = count_query(&query).expect("a projection of constants");
    assert_eq!(c.clauses.len(), 3);
    assert!(count_query(&c).is_none(), "a count is no constant");
    assert_eq!(count_cap(3, Some(4)), Some(7));
    assert_eq!(count_cap(3, None), None);
    assert_eq!((count_cap_from(Some(7)), count_cap_from(Some(0)), count_cap_from(None)), (Some(7), None, None));
    assert_eq!(rows_of_page(10, 3, Some(4)), 4);
    assert_eq!(rows_of_page(5, 3, Some(4)), 2);
    assert_eq!(rows_of_page(2, 3, None), 0);
    assert_eq!(rows_of_page(-1, 0, None), 0);
    // A capped count gives the page of the full one.
    assert_eq!(rows_of_page(7, 3, Some(4)), rows_of_page(1000, 3, Some(4)));
    let mut g = Graph::new();
    let r = constant_projection_over_count(&g, &query, 10, 3, Some(4)).expect("within the budget");
    match &r.clauses[0] {
        Clause::Unwind { expr, .. } => assert!(expr.args[1].same(&num(4))),
        other => panic!("{other:?}"),
    }
    g.row_budget = Some(3);
    assert!(constant_projection_over_count(&g, &query, 10, 3, Some(4)).is_none());
}

#[test]
fn a_collected_hierarchy_is_recognised() {
    let mut up = rel("SUB", RelDir::Out);
    up.length = Some(VarLength { min: Some(0), max: None });
    let p = Pattern { paths: vec![path(node("t", &["Tag"]), vec![(up, node("b", &["Class"]))])] };
    let eq = |x: &str| Expr::bin(Op::Eq, prop(x, "name"), lit(Head::Param(s("n"))));
    assert!(prop_eq_of(&eq("t")).is_some());
    let w = Some(Expr::bin(Op::Or, eq("b"), eq("t")));
    let items = vec![item(call("collect", vec![prop("t", "id")], false), "ids")];
    let h = try_anchored_hierarchy_prelude(&p, &w, &items).expect("a hierarchy");
    assert_eq!((h.a_label.as_str(), h.b_label.as_str()), ("Tag", "Class"));
    assert_eq!((h.prop.as_str(), h.collected.as_str(), h.column.as_str()), ("name", "id", "ids"));
    let mixed = Some(Expr::bin(Op::Or, eq("b"), Expr::bin(Op::Eq, prop("t", "id"), num(1))));
    assert!(try_anchored_hierarchy_prelude(&p, &mixed, &items).is_none());
}

#[test]
fn an_ordered_group_by_is_planned_as_groups() {
    let p = ordered(
        vec![item(prop("b", "k"), "k"), item(count_star(), "n")],
        var("n"),
        true,
        3,
    );
    let query = q(vec![m(vec![chain_abc()], None), ret(p)]);
    match plan_columnar(&query, &Levers::new()) {
        Some(Planned::Aggregate(a)) => {
            assert_eq!(a.sites.len(), 1);
            assert_eq!(a.chain.kinds, vec![VarKind::Node; 3]);
        },
        other => panic!("{other:?}"),
    }
}

#[test]
fn a_hop_back_to_the_first_part_is_not_split_off() {
    let loops = path(
        anchored("a", &["P"], "id", num(1)),
        vec![
            (varlen("K", Some(1), Some(2)), node("b", &["P"])),
            out("L", node("a", &[])),
        ],
    );
    let query = q(vec![m(vec![loops], None), with(distinct(&["b"])), ret(distinct(&["b"]))]);
    assert!(normalise_varlen_then_fixed(&query).is_none());
    // A later hop over the type of the first could take one of its relationships.
    let shared = path(
        node("a", &["P"]),
        vec![
            (varlen("K", Some(1), Some(2)), node("b", &["P"])),
            out("K", node("c", &["P"])),
        ],
    );
    let query = q(vec![m(vec![shared], None), with(distinct(&["b"])), ret(distinct(&["b"]))]);
    assert!(normalise_varlen_then_fixed(&query).is_none());
}

#[test]
fn swapped_names_stand_for_what_they_stood_for() {
    let query = q(vec![
        m(vec![path(node("a", &["A"]), vec![out("R", node("b", &["B"]))])], None),
        with(distinct(&["a", "b"])),
        with(proj(vec![item(var("b"), "a"), item(var("a"), "b")])),
        with(proj(vec![
            item(prop("a", "k"), "k"),
            item(call("sum", vec![prop("b", "v")], false), "s"),
        ])),
        ret(proj(vec![item(var("k"), ""), item(var("s"), "")])),
    ]);
    let p = recognise_projected_aggregate(&query).expect("one stage and groups");
    assert_eq!(p.carried, vec![0, 1]);
    assert!(p.s2_hops.is_empty());
    match &p.tail {
        StageTail::Agg(a) => {
            assert!(matches!(a.group_keys[0].kind, SingleVar::Col(1)));
            assert!(a.group_keys[0].expr.same(&prop("b", "k")));
            match &a.site_args[0] {
                SiteArgPlan::Col(0, e) => assert!(e.same(&prop("a", "v"))),
                other => panic!("{other:?}"),
            }
        },
        other => panic!("{other:?}"),
    }
}

#[test]
fn an_aggregate_is_no_constant() {
    let cs = vec![
        with(proj(vec![item(var("a"), ""), item(count_star(), "n"), item(num(1), "one")])),
        ret(proj(vec![item(var("a"), "")])),
    ];
    match &drop_dead_const_with_items(&cs)[0] {
        Clause::With { proj, .. } => {
            let names: Vec<String> = proj.items.iter().map(|i| i.column()).collect();
            assert_eq!(names, ss(&["a", "n"]), "without it the rows would not be grouped");
        },
        other => panic!("{other:?}"),
    }
    let mut all = proj(Vec::new());
    all.star = true;
    let cs = vec![with(proj(vec![item(var("a"), ""), item(num(1), "one")])), ret(all)];
    match &drop_dead_const_with_items(&cs)[0] {
        Clause::With { proj, .. } => assert_eq!(proj.items.len(), 2, "a star reads every column"),
        other => panic!("{other:?}"),
    }
}

#[test]
fn a_constant_whose_name_is_given_away_is_not_replaced() {
    let head = || {
        vec![
            m(vec![path(anchored("t", &["Tag"], "name", lit(Head::Str(s("x")))), Vec::new())], None),
            with(proj(vec![item(prop("t", "id"), "tid")])),
            m(vec![path(node("a", &["A"]), vec![out("R", node("b", &["B"]))])],
                Some(Expr::bin(Op::Eq, prop("b", "id"), var("tid")))),
        ]
    };
    let five = vec![vec![Bound::Literal(value_to_literal_expr(&Scalar::Int(5)))]];
    let cols = ss(&["tid"]);
    let rewrite = |tail: Vec<Clause>| {
        let mut cs = head();
        cs.extend(tail);
        scalar_prelude_rewrite(&q(cs), &cols, &five)
    };
    assert!(rewrite(vec![ret(proj(vec![item(var("tid"), "")]))]).is_some());
    let renewed = vec![
        with(proj(vec![item(prop("a", "k"), "tid")])),
        ret(proj(vec![item(var("tid"), "")])),
    ];
    assert!(rewrite(renewed).is_none());
    let unwound = vec![
        Clause::Unwind { expr: lit(Head::Param(s("xs"))), alias: s("tid") },
        ret(proj(vec![item(var("tid"), "")])),
    ];
    assert!(rewrite(unwound).is_none());
    let hidden = vec![ret(proj(vec![item(
        Expr { head: Head::Opaque(0), args: vec![var("tid")] },
        "k",
    )]))];
    assert!(rewrite(hidden).is_none(), "a form that binds names keeps the one it reads");
}

#[test]
fn an_entity_is_seeded_where_it_starts_a_plain_match() {
    let query = |start: Clause, between: Vec<Clause>| {
        let mut carry = proj(vec![item(var("p"), "")]);
        carry.limit = Some(num(1));
        let mut cs = vec![
            m(vec![path(anchored("p", &["Person"], "id", num(1)), Vec::new())], None),
            with(carry),
        ];
        cs.extend(between);
        cs.push(start);
        cs.push(ret(proj(vec![item(prop("b", "k"), "k")])));
        q(cs)
    };
    let starts = |labels: &[&str]| path(node("p", labels), vec![out("R", node("b", &["B"]))]);
    let rows = vec![vec![Bound::Entity]];
    let cols = ss(&["p"]);
    let (r, _) = scalar_prelude_rewrite(
        &query(m(vec![starts(&["Admin", "Person"])], None), Vec::new()),
        &cols,
        &rows,
    )
    .expect("one row");
    match &r.clauses[0] {
        Clause::Match { pattern, .. } => {
            assert_eq!(pattern.paths[0].start.labels, ss(&["Admin", "Person"]));
        },
        other => panic!("{other:?}"),
    }
    let optional = query(opt(vec![starts(&[])]), Vec::new());
    assert!(scalar_prelude_rewrite(&optional, &cols, &rows).is_none());
    // A projection on the way that reads it.
    let read = vec![with(proj(vec![item(var("p"), ""), item(prop("p", "x"), "x")]))];
    let query = query(m(vec![starts(&[])], None), read);
    assert!(scalar_prelude_rewrite(&query, &cols, &rows).is_none());
}

#[test]
fn only_a_bare_hop_is_an_edge_test() {
    let end = |x: &str| EdgeNode { var: Some(s(x)), labels: Vec::new(), props: false };
    let bare = || EdgePattern {
        var: None,
        shortest: false,
        start: end("a"),
        steps: vec![EdgeStep {
            var: None,
            types: ss(&["R"]),
            dir: RelDir::In,
            props: false,
            length: None,
            end: end("b"),
        }],
    };
    let test = |p: EdgePattern| Expr { head: Head::Pattern(p), args: vec![var("a"), var("b")] };
    let vars = ss(&["a", "b"]);
    let e = edge_pred_of(&test(bare()), &vars).expect("an edge test");
    assert_eq!((e.src.as_str(), e.dst.as_str(), e.dir, e.negate), ("a", "b", Dir::In, false));
    let not = Expr { head: Head::Op(Op::Not), args: vec![test(bare())] };
    assert!(edge_pred_of(&not, &vars).expect("its absence").negate);
    assert!(edge_pred_of(&test(bare()), &ss(&["a"])).is_none(), "an end that is not bound");
    let mut p = bare();
    p.steps[0].end.labels = ss(&["B"]);
    assert!(edge_pred_of(&test(p), &vars).is_none());
    let mut p = bare();
    p.start.props = true;
    assert!(edge_pred_of(&test(p), &vars).is_none());
    let mut p = bare();
    p.steps[0].length = Some(VarLength { min: Some(1), max: Some(1) });
    assert!(edge_pred_of(&test(p), &vars).is_none());
    let mut p = bare();
    p.steps[0].var = Some(s("r"));
    assert!(edge_pred_of(&test(p), &vars).is_none());
    let mut p = bare();
    let again = EdgeStep {
        var: None,
        types: ss(&["R"]),
        dir: RelDir::Out,
        props: false,
        length: None,
        end: end("b"),
    };
    p.steps.push(again);
    assert!(edge_pred_of(&test(p), &vars).is_none());
    let mut p = bare();
    p.shortest = true;
    assert!(edge_pred_of(&test(p), &vars).is_none());
}
