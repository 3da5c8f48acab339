use dep_order::builder::{build_row, descriptor_path, resolve_member, DependencyDescriptor};
use dep_order::cycles::get_shortest_cycles;
use dep_order::errors::AnalysisError;
use dep_order::graph::{check_graph, new_empty_graph, set_row};
use dep_order::manifest::{get_depends, parse_scope, ManifestDeps, Scope};
use dep_order::order::{get_appendable_vertex, get_ordering};
use dep_order::registry::Registry;
use dep_order::text::{compare_names, manifest_path_of, names_equal, normalize_name, occurs_in,
    ends_with_str, NameOrder};
use dep_order::unused::find_unused;

fn strings(names: &[&str]) -> Vec<String> {
    names.iter().map(|s| s.to_string()).collect()
}

#[test]
fn registry_assigns_dense_indices() {
    let lines = strings(&["# tools to analyse", "alpha", "beta", "gamma"]);
    let reg = Registry::new(&lines).unwrap();
    assert_eq!(reg.len(), 3);
    assert_eq!(reg.index_of("alpha"), Some(0));
    assert_eq!(reg.index_of("beta"), Some(1));
    assert_eq!(reg.index_of("gamma"), Some(2));
    assert_eq!(reg.index_of("delta"), None);
    assert_eq!(reg.name_at(1).as_str(), "beta");
}

#[test]
fn registry_is_deterministic() {
    let lines = strings(&["# note", "alpha", "beta"]);
    let first = Registry::new(&lines).unwrap();
    let second = Registry::new(&lines).unwrap();
    assert_eq!(first.len(), second.len());
    for i in 0..first.len() {
        assert_eq!(first.name_at(i), second.name_at(i));
        assert_eq!(first.index_of(first.name_at(i).as_str()), Some(i));
    }
}

#[test]
fn registry_rejects_duplicates() {
    let lines = strings(&["alpha", "beta", "alpha"]);
    match Registry::new(&lines) {
        Ok(_) => panic!("duplicate names must be rejected"),
        Err(e) => assert_eq!(e, AnalysisError::DuplicatePackage),
    }
}

#[test]
fn ordering_for_chain_is_reverse() {
    // Packages [A, B, C] with edges A->B, B->C and none from C: the expected
    // ordering is [C, B, A] and there are no cycles.
    let digraph = vec![vec![1], vec![2], vec![]];
    assert!(check_graph(&digraph));
    assert_eq!(get_ordering(&digraph), Some(vec![2, 1, 0]));
    assert_eq!(get_shortest_cycles(&digraph).len(), 0);
}

#[test]
fn two_cycle_has_no_ordering_and_one_cycle() {
    // Packages [A, B] with edges A->B and B->A.
    let digraph = vec![vec![1], vec![0]];
    assert!(check_graph(&digraph));
    assert_eq!(get_ordering(&digraph), None);
    assert_eq!(get_shortest_cycles(&digraph), vec![vec![0, 1]]);
}

#[test]
fn edge_free_graph_gives_index_order_and_no_cycles() {
    let digraph = vec![vec![], vec![], vec![], vec![]];
    assert_eq!(get_ordering(&digraph), Some(vec![0, 1, 2, 3]));
    assert_eq!(get_shortest_cycles(&digraph).len(), 0);
}

#[test]
fn self_loop_is_a_cycle_of_one() {
    let digraph = vec![vec![0]];
    assert_eq!(get_ordering(&digraph), None);
    assert_eq!(get_shortest_cycles(&digraph), vec![vec![0]]);
}

#[test]
fn longer_cycles_are_anchored_at_their_minimum() {
    // 0 -> 1 -> 2 -> 0 plus the chord 2 -> 1.
    let digraph = vec![vec![1], vec![2], vec![0, 1]];
    assert_eq!(get_ordering(&digraph), None);
    let cycles = get_shortest_cycles(&digraph);
    assert_eq!(cycles, vec![vec![0, 1, 2], vec![1, 2]]);
    for c in &cycles {
        let first = c[0];
        for &v in c.iter().skip(1) {
            assert!(first < v);
        }
        let last = *c.last().unwrap();
        assert!(digraph[last].contains(&first));
    }
}

#[test]
fn closing_prefix_suppresses_longer_cycles() {
    // 0 -> 1, 1 -> 0, 1 -> 2, 2 -> 0: the path [0, 1] closes and is emitted,
    // so the longer simple cycle [0, 1, 2] (whose prefix closes early) is
    // never extended and never reported.
    let digraph = vec![vec![1], vec![0, 2], vec![0]];
    assert_eq!(get_shortest_cycles(&digraph), vec![vec![0, 1]]);
}

#[test]
fn cycles_come_anchor_by_anchor_level_by_level() {
    // Two disjoint loops plus a self-loop: anchors non-decreasing, and for
    // one anchor shorter cycles first.
    let digraph = vec![vec![1, 2], vec![0], vec![0], vec![3]];
    let cycles = get_shortest_cycles(&digraph);
    assert_eq!(cycles, vec![vec![0, 1], vec![0, 2], vec![3]]);
    for w in cycles.windows(2) {
        assert!(w[0][0] < w[1][0] || (w[0][0] == w[1][0] && w[0].len() <= w[1].len()));
    }
}

#[test]
fn appendable_vertex_takes_first_in_index_order() {
    let digraph = vec![vec![], vec![]];
    assert_eq!(get_appendable_vertex(&digraph, &vec![0, 0]), Some(0));
    assert_eq!(get_appendable_vertex(&digraph, &vec![1, 0]), Some(1));
    let chain = vec![vec![1], vec![]];
    assert_eq!(get_appendable_vertex(&chain, &vec![0, 0]), Some(1));
    let loops = vec![vec![1], vec![0]];
    assert_eq!(get_appendable_vertex(&loops, &vec![0, 0]), None);
}

#[test]
fn graph_check_rejects_bad_rows() {
    assert!(check_graph(&vec![vec![1], vec![0]]));
    assert!(!check_graph(&vec![vec![2], vec![]]));
    assert!(!check_graph(&vec![vec![1, 1], vec![]]));
}

#[test]
fn empty_graph_helpers() {
    let mut g = new_empty_graph(3);
    assert_eq!(g, vec![vec![], vec![], vec![]]);
    set_row(&mut g, 1, vec![0, 2]);
    assert_eq!(g, vec![vec![], vec![0, 2], vec![]]);
}

#[test]
fn scope_tokens_parse_exactly() {
    assert_eq!(parse_scope("partial"), Ok(Scope::Partial));
    assert_eq!(parse_scope("full"), Ok(Scope::Full));
    assert_eq!(parse_scope("Full"), Err(AnalysisError::InvalidScopeSelector));
    assert_eq!(parse_scope(""), Err(AnalysisError::InvalidScopeSelector));
}

#[test]
fn partial_scope_keeps_direct_dependencies_in_order() {
    let m = ManifestDeps {
        dependencies: strings(&["beta", "alpha"]),
        dev_dependencies: strings(&["zeta"]),
    };
    assert_eq!(get_depends(&m, Scope::Partial), strings(&["beta", "alpha"]));
}

#[test]
fn full_scope_unions_and_sorts() {
    let m = ManifestDeps {
        dependencies: strings(&["beta", "alpha"]),
        dev_dependencies: strings(&["gamma", "alpha"]),
    };
    assert_eq!(get_depends(&m, Scope::Full), strings(&["alpha", "beta", "gamma"]));
}

#[test]
fn descriptor_needs_a_concrete_path() {
    let with_path = DependencyDescriptor::Detailed { path: Some("pkgs/alpha".to_string()) };
    assert_eq!(descriptor_path(&with_path), Ok("pkgs/alpha".to_string()));
    let without = DependencyDescriptor::Detailed { path: None };
    assert_eq!(descriptor_path(&without), Err(AnalysisError::UnresolvableDependencyDescriptor));
    let version = DependencyDescriptor::Version("1.2".to_string());
    assert_eq!(descriptor_path(&version), Err(AnalysisError::UnresolvableDependencyDescriptor));
}

#[test]
fn curated_member_without_path_aborts_before_any_row() {
    let reg = Registry::new(&strings(&["alpha", "beta"])).unwrap();
    let bad = DependencyDescriptor::Version("1.0".to_string());
    assert_eq!(
        resolve_member(&reg, "alpha", &bad),
        Err(AnalysisError::UnresolvableDependencyDescriptor)
    );
    let good = DependencyDescriptor::Detailed { path: Some("pkgs/alpha".to_string()) };
    assert_eq!(resolve_member(&reg, "alpha", &good), Ok(Some((0, "pkgs/alpha".to_string()))));
    // A workspace member outside the curated set is skipped, not an error.
    assert_eq!(resolve_member(&reg, "zeta", &bad), Ok(None));
}

#[test]
fn rows_map_names_through_the_registry() {
    let reg = Registry::new(&strings(&["alpha", "beta", "gamma"])).unwrap();
    let deps = strings(&["gamma", "outside", "alpha"]);
    assert_eq!(build_row(&reg, &deps), vec![2, 0]);
    assert_eq!(build_row(&reg, &strings(&[])), Vec::<usize>::new());
}

#[test]
fn name_comparison_is_lexicographic() {
    assert!(matches!(compare_names("abc", "abd"), NameOrder::Before));
    assert!(matches!(compare_names("abc", "abc"), NameOrder::Same));
    assert!(matches!(compare_names("abd", "abc"), NameOrder::After));
    assert!(matches!(compare_names("ab", "abc"), NameOrder::Before));
    assert!(names_equal("same", "same"));
    assert!(!names_equal("same", "sam"));
}

#[test]
fn normalization_replaces_separators() {
    assert_eq!(normalize_name("serde-json").as_str(), "serde_json");
    assert_eq!(normalize_name("rand").as_str(), "rand");
    assert_eq!(normalize_name("a-b-c").as_str(), "a_b_c");
}

#[test]
fn substring_scan_finds_occurrences() {
    assert!(occurs_in("serde_json", "use serde_json::Value;"));
    assert!(!occurs_in("rand", "use serde_json::Value;"));
    assert!(occurs_in("", "anything"));
    assert!(!occurs_in("long-needle", "short"));
}

#[test]
fn unused_scan_flags_missing_names() {
    let deps = strings(&["serde-json", "rand"]);
    let text = "use serde_json::Value; fn main() {}";
    assert_eq!(find_unused(&deps, text), strings(&["rand"]));
    assert_eq!(find_unused(&deps, ""), strings(&["serde_json", "rand"]));
    assert_eq!(find_unused(&strings(&[]), text), Vec::<String>::new());
}

#[test]
fn source_files_are_picked_by_extension() {
    assert!(ends_with_str("src/main.rs", ".rs"));
    assert!(!ends_with_str("README.md", ".rs"));
    assert!(!ends_with_str("rs", ".rs"));
}

#[test]
fn manifest_path_is_joined() {
    assert_eq!(manifest_path_of("pkgs/alpha").as_str(), "pkgs/alpha/Cargo.toml");
}

#[test]
fn errors_have_diagnostics() {
    assert_eq!(
        AnalysisError::DuplicatePackage.describe(),
        "duplicate package in the curated list"
    );
    assert_eq!(AnalysisError::IoFailure.describe(), "failed to read a required file");
    assert_eq!(AnalysisError::ManifestParseFailure.describe(), "failed to parse a manifest");
}
