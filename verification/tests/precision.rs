use engram_graph::ast::{Expr, Head};
use engram_graph::precision::{NodeRecord, Param, PredicateGuard, Restriction, Tokens, Values};
use engram_graph::query::NodePattern;
use engram_graph::reduce::Val;

fn s(x: &str) -> String {
    x.to_string()
}

fn lit(head: Head) -> Expr {
    Expr { head, args: Vec::new() }
}

fn tokens() -> Tokens {
    Tokens { labels: vec![s("Person"), s("City")], props: vec![s("id"), s("name"), s("age")] }
}

fn values() -> Values {
    Values {
        params: vec![
            Param { name: s("who"), value: Val::Str(s("Ann")), entries: None },
            Param {
                name: s("all"),
                value: Val::Coded(9),
                entries: Some(vec![(s("name"), Val::Str(s("Ann"))), (s("id"), Val::Int(4))]),
            },
        ],
        floats: vec![(0x4000_0000_0000_0000, Val::Int(2))],
    }
}

fn node(labels: &[&str], props: Option<Expr>) -> NodePattern {
    NodePattern { var: Some(s("n")), labels: labels.iter().map(|l| s(l)).collect(), props }
}

fn map_of(entries: Vec<(&str, Expr)>) -> Expr {
    let mut keys = Vec::new();
    let mut args = Vec::new();
    for (k, v) in entries {
        keys.push(s(k));
        args.push(v);
    }
    Expr { head: Head::MapOf(keys), args }
}

fn record(labels: Option<Vec<u32>>, props: Vec<(u32, Option<Val>)>) -> NodeRecord {
    NodeRecord { labels, props }
}

fn ann() -> Restriction {
    let p = node(
        &["City", "Person"],
        Some(map_of(vec![("name", lit(Head::Param(s("who")))), ("id", lit(Head::Int(4)))])),
    );
    Restriction::extract(&p, &tokens(), &values()).expect("exact")
}

#[test]
fn a_pattern_becomes_sorted_tokens() {
    let r = ann();
    assert_eq!(r.labels, vec![0, 1]);
    assert_eq!(r.props.iter().map(|p| p.0).collect::<Vec<u32>>(), vec![0, 1]);
    assert!(matches!(r.props[0].1, Val::Int(4)));
    assert!(matches!(&r.props[1].1, Val::Str(x) if x == "Ann"));
}

#[test]
fn a_pattern_that_cannot_be_said_exactly_is_declined() {
    let t = tokens();
    let v = values();
    // A label that nothing carries yet.
    assert!(Restriction::extract(&node(&["Ship"], None), &t, &v).is_none());
    // A property that nothing has yet.
    let p = node(&[], Some(map_of(vec![("size", lit(Head::Int(1)))])));
    assert!(Restriction::extract(&p, &t, &v).is_none());
    // A null equals nothing.
    let p = node(&[], Some(map_of(vec![("id", lit(Head::Null))])));
    assert!(Restriction::extract(&p, &t, &v).is_none());
    // A value that reads the row.
    let p = node(&[], Some(map_of(vec![("id", lit(Head::Var(s("m"))))])));
    assert!(Restriction::extract(&p, &t, &v).is_none());
    // A parameter that is not there, and one that is no map.
    let p = node(&[], Some(lit(Head::Param(s("none")))));
    assert!(Restriction::extract(&p, &t, &v).is_none());
    let p = node(&[], Some(lit(Head::Param(s("who")))));
    assert!(Restriction::extract(&p, &t, &v).is_none());
    // No property map at all is fine.
    let r = Restriction::extract(&node(&["Person"], None), &t, &v).expect("exact");
    assert_eq!((r.labels.len(), r.props.len()), (1, 0));
}

#[test]
fn a_map_parameter_is_taken_entry_by_entry() {
    let p = node(&["Person"], Some(lit(Head::Param(s("all")))));
    let r = Restriction::extract(&p, &tokens(), &values()).expect("exact");
    assert_eq!(r.props.iter().map(|p| p.0).collect::<Vec<u32>>(), vec![0, 1]);
}

#[test]
fn a_float_literal_has_the_value_it_is_given() {
    let p = node(&[], Some(map_of(vec![("age", lit(Head::Float(0x4000_0000_0000_0000)))])));
    let r = Restriction::extract(&p, &tokens(), &values()).expect("exact");
    assert!(matches!(r.props[0], (2, Val::Int(2))));
    let p = node(&[], Some(map_of(vec![("age", lit(Head::Float(1)))])));
    assert!(Restriction::extract(&p, &tokens(), &values()).is_none());
}

#[test]
fn a_record_meets_a_restriction_with_every_label_and_property() {
    let r = ann();
    let whole = vec![(0, Some(Val::Int(4))), (1, Some(Val::Str(s("Ann"))))];
    assert!(r.matches(&record(Some(vec![1, 0, 7]), whole)));
    let one_label = vec![(0, Some(Val::Int(4))), (1, Some(Val::Str(s("Ann"))))];
    assert!(!r.matches(&record(Some(vec![0]), one_label)));
    let other = vec![(0, Some(Val::Int(5))), (1, Some(Val::Str(s("Ann"))))];
    assert!(!r.matches(&record(Some(vec![0, 1]), other)));
    let absent = vec![(0, Some(Val::Int(4)))];
    assert!(!r.matches(&record(Some(vec![0, 1]), absent)));
    let unreadable = vec![(0, Some(Val::Int(4))), (1, None)];
    assert!(!r.matches(&record(Some(vec![0, 1]), unreadable)));
    assert!(!r.matches(&record(None, Vec::new())));
}

#[test]
fn a_nan_equals_nothing() {
    let r = Restriction { labels: Vec::new(), props: vec![(0, Val::Nan)] };
    assert!(!r.matches(&record(Some(Vec::new()), vec![(0, Some(Val::Nan))])));
}

#[test]
fn only_a_put_of_a_node_that_matches_conflicts() {
    let g = PredicateGuard { nodes_prefix: vec![1, 2], restrictions: vec![ann()] };
    let key = vec![1, 2, 9, 9];
    let hit = record(
        Some(vec![0, 1]),
        vec![(0, Some(Val::Int(4))), (1, Some(Val::Str(s("Ann"))))],
    );
    let miss = record(Some(vec![0]), Vec::new());
    assert_eq!(g.node_of(&key, true), Some(vec![9, 9]));
    assert_eq!(g.node_of(&vec![1, 2], true), Some(Vec::new()));
    assert_eq!(g.node_of(&vec![1], true), None);
    assert_eq!(g.node_of(&vec![1, 3, 9], true), None);
    assert_eq!(g.node_of(&key, false), None);
    assert!(g.conflicts(&key, true, Some(&hit)));
    assert!(!g.conflicts(&key, false, Some(&hit)), "a deletion is no phantom");
    assert!(!g.conflicts(&vec![7, 7], true, Some(&hit)));
    assert!(!g.conflicts(&key, true, Some(&miss)));
    assert!(!g.conflicts(&key, true, None), "gone by the time it is read");
}

#[test]
fn more_restrictions_only_bring_more_conflicts() {
    let any = Restriction { labels: vec![0], props: Vec::new() };
    let one = PredicateGuard { nodes_prefix: vec![1], restrictions: vec![ann()] };
    let two = PredicateGuard { nodes_prefix: vec![1], restrictions: vec![ann(), any] };
    let rec = record(Some(vec![0]), Vec::new());
    assert!(!one.conflicts(&vec![1], true, Some(&rec)));
    assert!(two.conflicts(&vec![1], true, Some(&rec)));
}
