use makefile_lsp::dep_graph::{is_graph_target, DependencyGraph};
use makefile_lsp::makefile::Makefile;

fn graph(text: &str) -> DependencyGraph {
    let parsed = Makefile::parse(text);
    DependencyGraph::from_makefile(&parsed.makefile)
}

#[test]
fn empty_makefile_has_no_edges() {
    let g = graph("");
    assert_eq!(g.targets().len(), 0);
    assert!(g.find_cycles().is_empty());
}

#[test]
fn prerequisites_only_include_defined_targets() {
    let g = graph("a: b missing\n\t@:\nb:\n\t@:\n");
    let prereqs = g.prerequisites("a");
    assert_eq!(prereqs, vec!["b"]);
}

#[test]
fn accumulates_prereqs_across_rules() {
    let g = graph("a: b\n\t@:\nb:\n\t@:\na: c\nc:\n\t@:\n");
    let mut prereqs = g.prerequisites("a");
    prereqs.sort();
    assert_eq!(prereqs, vec!["b", "c"]);
}

#[test]
fn pattern_rules_excluded() {
    let g = graph("%.o: %.c\n\t@:\nfoo.c:\n\t@:\n");
    let targets = g.targets();
    assert_eq!(targets, vec!["foo.c"]);
}

#[test]
fn special_targets_excluded() {
    let g = graph(".PHONY: clean\nclean:\n\t@:\n");
    let targets = g.targets();
    assert_eq!(targets, vec!["clean"]);
}

#[test]
fn referrers_lists_incoming_edges() {
    let g = graph("all: a b\n\t@:\na: b\n\t@:\nb:\n\t@:\n");
    let mut r = g.referrers("b");
    r.sort();
    assert_eq!(r, vec!["a", "all"]);
    assert_eq!(g.referrers("all").len(), 0);
    assert_eq!(g.referrers("missing").len(), 0);
}

#[test]
fn finds_two_node_cycle() {
    let g = graph("a: b\n\t@:\nb: a\n\t@:\n");
    let cycles = g.find_cycles();
    assert_eq!(cycles, vec![vec!["a".to_string(), "b".to_string()]]);
}

#[test]
fn finds_three_node_cycle() {
    let g = graph("a: b\n\t@:\nb: c\n\t@:\nc: a\n\t@:\n");
    let cycles = g.find_cycles();
    assert_eq!(cycles, vec![vec!["a".to_string(), "b".to_string(), "c".to_string()]]);
}

#[test]
fn ignores_self_loops() {
    let g = graph("a: a\n\t@:\n");
    assert!(g.find_cycles().is_empty());
}

#[test]
fn dedupes_cycle_rotations() {
    let g = graph("a: b\n\t@:\nb: c\n\t@:\nc: a\n\t@:\nentry: a b c\n\t@:\n");
    assert_eq!(g.find_cycles().len(), 1);
}

#[test]
fn finds_disjoint_cycles() {
    let g = graph("a: b\n\t@:\nb: a\n\t@:\nx: y\n\t@:\ny: x\n\t@:\n");
    assert_eq!(g.find_cycles().len(), 2);
}

#[test]
fn prerequisites_and_referrers_mirror() {
    let g = graph("all: a b\n\t@:\na: b\n\t@:\nb:\n\t@:\n");
    for t in g.targets() {
        for p in g.prerequisites(&t) {
            assert!(g.referrers(&p).contains(&t));
        }
    }
}

#[test]
fn longest_path_follows_the_deepest_chain() {
    let g = graph("a: b c\n\t@:\nb: c\n\t@:\nc: d\n\t@:\nd:\n\t@:\n");
    assert_eq!(g.longest_path_length("a"), 3);
    assert_eq!(g.longest_path_length("d"), 0);
    assert_eq!(g.longest_path_length("missing"), 0);
}

#[test]
fn graph_target_filter() {
    assert!(is_graph_target("all"));
    assert!(!is_graph_target("%.o"));
    assert!(!is_graph_target(".PHONY"));
    assert!(is_graph_target(".DEFAULT"));
}

#[test]
fn cycles_come_in_walk_order() {
    let g = graph("a: b\n\t@:\nb: a\n\t@:\nx: y\n\t@:\ny: x\n\t@:\n");
    assert_eq!(g.find_cycles(), vec![vec!["a".to_string(), "b".to_string()], vec!["x".to_string(), "y".to_string()]]);
    let g = graph("a: b c\n\t@:\nb: a c\n\t@:\nc: a\n\t@:\n");
    let expected: Vec<Vec<String>> = vec![
        vec!["a".into(), "b".into()],
        vec!["a".into(), "b".into(), "c".into()],
        vec!["a".into(), "c".into()],
    ];
    assert_eq!(g.find_cycles(), expected);
}
