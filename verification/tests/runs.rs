use engram_graph::chain_rows::build_chunk_from_ids;
use engram_graph::chunk::DataChunk;
use engram_graph::graph::{Dir, Graph, VarKind, NULL_ID};
use engram_graph::hop::Hop;
use engram_graph::joins::{run_ic5, run_lead, run_multistage_join, Lead};
use engram_graph::layout::{can_extend, can_run, is_laid_out};
use engram_graph::legs::OptionalStage;
use engram_graph::optional_run::run_optional;
use engram_graph::runs::{run_multistage, JoinSide};
use engram_graph::select::Filter;
use engram_graph::stages::PipeStage;

fn s(x: &str) -> String {
    x.to_string()
}

fn ss(xs: &[&str]) -> Vec<String> {
    xs.iter().map(|x| s(x)).collect()
}

// 0:A -R-> 1:B, 2:B; 1, 2 -S-> 3:C.
fn diamond() -> Graph {
    let mut g = Graph::new();
    for l in ["A", "B", "B", "C"] {
        g.create_node(ss(&[l]));
    }
    g.create_rel(0, &s("R"), 1);
    g.create_rel(0, &s("R"), 2);
    g.create_rel(1, &s("S"), 3);
    g.create_rel(2, &s("S"), 3);
    g
}

fn hop(src: usize, dir: Dir, typ: &str, var: &str, end: usize) -> Hop {
    Hop {
        src,
        dir,
        types: ss(&[typ]),
        labels: Vec::new(),
        var: s(var),
        rel_var: None,
        track: false,
        reset: false,
        tgt: None,
        varlen: None,
        end_vi: Some(end),
        fold: false,
        inline: Vec::new(),
    }
}

fn weights(c: &DataChunk) -> Vec<u64> {
    c.selection.iter().map(|r| if c.weights.is_empty() { 1 } else { c.weights[*r] }).collect()
}

#[test]
fn a_chain_runs_when_its_steps_are_where_they_belong() {
    let plain = vec![hop(0, Dir::Out, "R", "b", 1), hop(1, Dir::Out, "S", "c", 2)];
    assert!(can_run(&plain));
    assert!(can_run(&Vec::new()));
    // A step that binds another variable than the next.
    assert!(!can_run(&vec![hop(0, Dir::Out, "R", "b", 2)]));
    // A step that reads what is not bound.
    assert!(!can_run(&vec![hop(1, Dir::Out, "R", "b", 1)]));
    // A step row by row out of a counted variable.
    let mut counted = hop(0, Dir::Out, "R", "b", 1);
    counted.fold = true;
    assert!(!can_run(&vec![counted, hop(1, Dir::Out, "S", "c", 2)]));
    // A step that goes on with a path that the one before it is not on.
    let mut on = hop(0, Dir::Out, "S", "c", 2);
    on.track = true;
    assert!(!can_run(&vec![hop(0, Dir::Out, "R", "b", 1), on]));
}

#[test]
fn an_optional_match_runs_after_what_is_bound() {
    let leg = |end: usize| vec![hop(1, Dir::Out, "S", "c", end)];
    assert!(is_laid_out(&leg(2), 2) && !is_laid_out(&leg(2), 1));
    assert!(can_extend(&leg(2), 2) && !can_extend(&leg(3), 2));
    let mut counted = hop(1, Dir::Out, "S", "c", 2);
    counted.fold = true;
    assert!(!can_extend(&vec![counted.copy()], 2), "a counted one starts a path of its own");
    counted.reset = true;
    assert!(can_extend(&vec![counted.copy()], 2));
    let rest = hop(2, Dir::Out, "T", "d", 3);
    assert!(!can_extend(&vec![counted, rest], 2), "counted in part");
}

#[test]
fn two_stages_run_one_after_the_other() {
    let g = diamond();
    let (a, hops, none) = (s("a"), vec![hop(0, Dir::Out, "R", "b", 1)], Vec::<Filter>::new());
    let first = JoinSide { var: &a, hops: &hops, filters: &none };
    let second = PipeStage {
        carried: vec![1],
        distinct: true,
        hops: vec![hop(0, Dir::Out, "S", "c", 1)],
        wheres: Vec::new(),
    };
    let c = run_multistage(&g, &first, vec![0], &second, &none, true).expect("rows").expect("rows");
    assert_eq!(c.live_rows(), vec![vec![2, 3], vec![1, 3]]);
    let mut long = hop(0, Dir::Out, "R", "b", 1);
    long.varlen = Some(2);
    let hops = vec![long];
    let first = JoinSide { var: &a, hops: &hops, filters: &none };
    let r = run_multistage(&g, &first, vec![0], &second, &none, false).expect("no error");
    assert!(r.is_none(), "steps of variable length wait for their switch");
}

#[test]
fn a_join_starts_where_the_first_stage_ends() {
    let g = diamond();
    let none = Vec::<Filter>::new();
    let (a, b, c) = (s("a"), s("b"), s("c"));
    let first = vec![hop(0, Dir::Out, "R", "b", 1)];
    let out = vec![hop(0, Dir::Out, "S", "c", 1)];
    let back = vec![hop(0, Dir::In, "S", "b", 1)];
    let lead = Lead {
        side: JoinSide { var: &a, hops: &first, filters: &none },
        carried: 1,
        distinct: true,
        on: true,
    };
    let led = run_lead(&g, &lead, vec![0]).expect("rows").expect("rows");
    assert_eq!(led.live_rows(), vec![vec![2], vec![1]]);
    let left = JoinSide { var: &b, hops: &out, filters: &none };
    let right = JoinSide { var: &c, hops: &back, filters: &none };
    let j = run_multistage_join(&g, &lead, vec![0], &left, Some(1), &right).expect("rows").expect("rows");
    assert_eq!(j.live_rows(), vec![vec![2, 3], vec![1, 3]]);
    // Starting the second side at what is handed on gives the same rows, in the
    // order of that side.
    let j = run_multistage_join(&g, &lead, vec![0], &left, None, &left).expect("rows").expect("rows");
    assert_eq!(j.live_rows(), vec![vec![1, 3], vec![2, 3]]);
}

#[test]
fn groups_without_a_match_are_counted_with_zero() {
    let g = diamond();
    let none = Vec::<Filter>::new();
    let (a, b) = (s("a"), s("b"));
    let first = vec![hop(0, Dir::Out, "R", "b", 1)];
    let out = vec![hop(0, Dir::Out, "S", "c", 1)];
    let lead = Lead {
        side: JoinSide { var: &a, hops: &first, filters: &none },
        carried: 1,
        distinct: true,
        on: true,
    };
    let side = JoinSide { var: &b, hops: &out, filters: &none };
    let r = run_ic5(&g, &lead, vec![0], &side, (0, 1), &side).expect("rows").expect("rows");
    // The one group has rows, so it gets no empty one.
    assert_eq!(r.live_rows(), vec![vec![1, 3], vec![2, 3]]);

    // Members 1 and 2 are in group 3, and 1 in group 4 too; 1 made 5 in group 3.
    let mut g = diamond();
    for l in ["C", "P"] {
        g.create_node(ss(&[l]));
    }
    g.create_rel(1, &s("S"), 4);
    g.create_rel(1, &s("P"), 5);
    g.create_rel(5, &s("IN"), 3);
    let posts = vec![hop(0, Dir::Out, "P", "p", 1), hop(1, Dir::Out, "IN", "c", 2)];
    let made = JoinSide { var: &b, hops: &posts, filters: &none };
    let r = run_ic5(&g, &lead, vec![0], &side, (0, 1), &made).expect("rows").expect("rows");
    assert_eq!(r.vars, ss(&["b", "c", "p"]));
    assert_eq!(r.live_rows(), vec![vec![1, 3, 5], vec![NULL_ID, 4, NULL_ID]]);
}

#[test]
fn optional_matches_extend_or_count() {
    let g = diamond();
    let stage = |hops: Vec<Hop>, outer_len: usize, vars_after: usize| OptionalStage {
        hops,
        where_: None,
        outer_len,
        vars_after,
    };
    let outer = || {
        build_chunk_from_ids(&g, &s("a"), vec![0, 3], &Vec::new(), &Vec::new(), None, true)
            .expect("rows")
            .expect("rows")
    };
    let vars = ss(&["a", "b", "c"]);
    let kinds = vec![VarKind::Node; 3];
    let legs = vec![
        stage(vec![hop(0, Dir::Out, "R", "b", 1)], 1, 2),
        stage(vec![hop(1, Dir::Out, "S", "c", 2)], 2, 3),
    ];
    let fs = vec![None, None];
    let c = run_optional(&g, outer(), &legs, &fs, &vars, &kinds, true).expect("rows").expect("rows");
    assert_eq!(c.live_rows(), vec![vec![0, 2, 3], vec![0, 1, 3], vec![3, NULL_ID, NULL_ID]]);
    // Counted, each row stands for as many matches, and for one without any.
    let mut first = hop(0, Dir::Out, "R", "b", 1);
    let mut second = hop(1, Dir::Out, "S", "c", 2);
    first.fold = true;
    first.reset = true;
    second.fold = true;
    let legs = vec![stage(vec![first, second], 1, 3)];
    let d = run_optional(&g, outer(), &legs, &vec![None], &vars, &kinds, true).expect("rows").expect("rows");
    assert_eq!(d.live_rows(), vec![vec![0, NULL_ID, NULL_ID], vec![3, NULL_ID, NULL_ID]]);
    assert_eq!(weights(&d), vec![2, 1]);
    assert_eq!(weights(&d).iter().sum::<u64>() as usize, c.live());
}
