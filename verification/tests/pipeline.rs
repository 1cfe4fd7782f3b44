use orphans::build_graph;
use orphans::find_orphans;
use orphans::mark_required;
use orphans::orphans as classify_orphans;
use orphans::CompilationUnit;

fn unit(name: &str, deps: &[&str]) -> CompilationUnit {
    CompilationUnit {
        name: name.to_string(),
        description: "<no description>".to_string(),
        dependencies: deps.iter().map(|d| d.to_string()).collect(),
        manifest: format!("{}/Cargo.toml", name),
    }
}

fn names(names: &[&str]) -> Vec<String> {
    names.iter().map(|n| n.to_string()).collect()
}

#[test]
fn simple_chain_orphans_one_unit() {
    // units {A -> [B], B -> [], C -> []}, entrypoints {A}:
    // required = {A, B}, orphan output = ["C"].
    let units = vec![unit("A", &["B"]), unit("B", &[]), unit("C", &[])];
    let entrypoints = names(&["A"]);
    let report = find_orphans(&units, &entrypoints);
    assert_eq!(report, names(&["C"]));
}

#[test]
fn simple_chain_marks_required_set() {
    let units = vec![unit("A", &["B"]), unit("B", &[]), unit("C", &[])];
    let entrypoints = names(&["A"]);
    let mut g = build_graph(&units, &entrypoints);
    mark_required(&mut g);
    let required: Vec<(String, bool)> =
        g.nodes.iter().map(|n| (n.name.clone(), n.required)).collect();
    assert_eq!(
        required,
        vec![
            ("A".to_string(), true),
            ("B".to_string(), true),
            ("C".to_string(), false),
        ]
    );
}

#[test]
fn unreachable_cycle_is_fully_orphaned() {
    // units {A -> [B], B -> [A]} (cycle), entrypoints {}:
    // orphan output = ["A", "B"].
    let units = vec![unit("A", &["B"]), unit("B", &["A"])];
    let entrypoints = names(&[]);
    let report = find_orphans(&units, &entrypoints);
    assert_eq!(report, names(&["A", "B"]));
}

#[test]
fn reachable_cycle_is_fully_required() {
    let units = vec![unit("A", &["B"]), unit("B", &["A"]), unit("C", &[])];
    let entrypoints = names(&["A"]);
    let report = find_orphans(&units, &entrypoints);
    assert_eq!(report, names(&["C"]));
}

#[test]
fn unknown_entrypoint_name_is_ignored() {
    // An entrypoint name not present among the units contributes no
    // reachable nodes and causes no failure.
    let units = vec![unit("A", &["B"]), unit("B", &[]), unit("C", &[])];
    let entrypoints = names(&["Z"]);
    let report = find_orphans(&units, &entrypoints);
    assert_eq!(report, names(&["A", "B", "C"]));
}

#[test]
fn unresolved_dependency_contributes_no_edge() {
    // "serde" names no collected unit: it is treated as an external
    // dependency, adds no edge and no node, and causes no failure.
    let units = vec![unit("A", &["serde", "B"]), unit("B", &[]), unit("C", &["serde"])];
    let entrypoints = names(&["A"]);
    let report = find_orphans(&units, &entrypoints);
    assert_eq!(report, names(&["C"]));
}

#[test]
fn orphan_output_is_sorted_lexicographically() {
    let units = vec![
        unit("zeta", &[]),
        unit("alpha", &[]),
        unit("Beta", &[]),
        unit("beta", &[]),
    ];
    let entrypoints = names(&[]);
    let report = find_orphans(&units, &entrypoints);
    // By code point: 'B' (0x42) comes before 'a' (0x61).
    assert_eq!(report, names(&["Beta", "alpha", "beta", "zeta"]));
}

#[test]
fn prefix_sorts_before_its_extension() {
    let units = vec![unit("alpha-extra", &[]), unit("alpha", &[]), unit("alp", &[])];
    let entrypoints = names(&[]);
    let report = find_orphans(&units, &entrypoints);
    assert_eq!(report, names(&["alp", "alpha", "alpha-extra"]));
}

#[test]
fn pipeline_is_deterministic_across_runs() {
    let units = vec![
        unit("core", &["util"]),
        unit("util", &[]),
        unit("cli", &["core"]),
        unit("old-experiment", &["util"]),
    ];
    let entrypoints = names(&["cli"]);
    let first = find_orphans(&units, &entrypoints);
    let second = find_orphans(&units, &entrypoints);
    assert_eq!(first, second);
    assert_eq!(first, names(&["old-experiment"]));
}

#[test]
fn sweep_is_idempotent() {
    let units = vec![unit("A", &["B"]), unit("B", &[]), unit("C", &["B"])];
    let entrypoints = names(&["A"]);
    let mut g = build_graph(&units, &entrypoints);
    mark_required(&mut g);
    let after_once: Vec<bool> = g.nodes.iter().map(|n| n.required).collect();
    mark_required(&mut g);
    let after_twice: Vec<bool> = g.nodes.iter().map(|n| n.required).collect();
    assert_eq!(after_once, after_twice);
}

#[test]
fn node_without_incoming_edges_is_orphaned() {
    // "top" is depended on by nothing and is not an entrypoint, so it is
    // orphaned whatever else is reachable.
    let units = vec![unit("top", &["mid"]), unit("mid", &["leaf"]), unit("leaf", &[])];
    let entrypoints = names(&["mid"]);
    let report = find_orphans(&units, &entrypoints);
    assert_eq!(report, names(&["top"]));
}

#[test]
fn empty_unit_set_gives_empty_report() {
    let units: Vec<CompilationUnit> = Vec::new();
    let entrypoints = names(&["A"]);
    let report = find_orphans(&units, &entrypoints);
    assert_eq!(report, names(&[]));
}

#[test]
fn every_unit_entrypoint_gives_empty_report() {
    let units = vec![unit("A", &[]), unit("B", &[]), unit("C", &[])];
    let entrypoints = names(&["A", "B", "C"]);
    let report = find_orphans(&units, &entrypoints);
    assert_eq!(report, names(&[]));
}

#[test]
fn diamond_dependencies_mark_all_branches() {
    let units = vec![
        unit("app", &["left", "right"]),
        unit("left", &["base"]),
        unit("right", &["base"]),
        unit("base", &[]),
        unit("stale", &["base"]),
    ];
    let entrypoints = names(&["app"]);
    let report = find_orphans(&units, &entrypoints);
    assert_eq!(report, names(&["stale"]));
}

#[test]
fn classification_reads_required_flags() {
    let units = vec![unit("A", &[]), unit("B", &[])];
    let entrypoints = names(&["B"]);
    let mut g = build_graph(&units, &entrypoints);
    mark_required(&mut g);
    let report = classify_orphans(&g);
    assert_eq!(report, names(&["A"]));
    // Classification is read-only: flags are unchanged after it.
    assert!(!g.nodes[0].required);
    assert!(g.nodes[1].required);
}
