use std::cmp::Ordering;

use oxc_react_compiler::hir::types::{
    DependencyPathEntry, Identifier, IdentifierId, InstructionId, MutableRange,
    ReactiveScopeDependency, SourceLocation, Type,
};
use oxc_react_compiler::reactive_scopes::scope_dependency_utils::{
    add_dependency, compare_paths, dependencies_equal, dependency_subsumes, merge_dependencies,
    paths_equal, truncate_at_optional, group_by_root,
};

fn make_dep(id: u32, path: &[(&str, bool)]) -> ReactiveScopeDependency {
    ReactiveScopeDependency {
        identifier: Identifier {
            id: IdentifierId(id),
            ssa_version: 0,
            declaration_id: None,
            name: Some(format!("v{id}")),
            mutable_range: MutableRange { start: InstructionId(0), end: InstructionId(0) },
            last_use: InstructionId(0),
            scope: None,
            type_: Type::default(),
            loc: SourceLocation { start: 0, end: 0 },
        },
        reactive: true,
        path: path
            .iter()
            .map(|(p, o)| DependencyPathEntry { property: p.to_string(), optional: *o })
            .collect(),
    }
}

fn entry(p: &str, optional: bool) -> DependencyPathEntry {
    DependencyPathEntry { property: p.into(), optional }
}

#[test]
fn test_compare_paths_equal() {
    let a = vec![DependencyPathEntry { property: "x".into(), optional: false }];
    let b = vec![DependencyPathEntry { property: "x".into(), optional: false }];
    assert_eq!(compare_paths(&a, &b), Some(Ordering::Equal));
}

#[test]
fn test_compare_paths_prefix() {
    let a = vec![DependencyPathEntry { property: "x".into(), optional: false }];
    let b = vec![
        DependencyPathEntry { property: "x".into(), optional: false },
        DependencyPathEntry { property: "y".into(), optional: false },
    ];
    assert_eq!(compare_paths(&a, &b), Some(Ordering::Less));
}

#[test]
fn test_compare_paths_diverge() {
    let a = vec![DependencyPathEntry { property: "x".into(), optional: false }];
    let b = vec![DependencyPathEntry { property: "y".into(), optional: false }];
    assert_eq!(compare_paths(&a, &b), None);
}

#[test]
fn test_subsumes_same_root_prefix() {
    let a = make_dep(1, &[("a", false)]);
    let b = make_dep(1, &[("a", false), ("b", false)]);
    assert!(dependency_subsumes(&a, &b));
    assert!(!dependency_subsumes(&b, &a));
}

#[test]
fn test_subsumes_different_root() {
    let a = make_dep(1, &[("a", false)]);
    let b = make_dep(2, &[("a", false)]);
    assert!(!dependency_subsumes(&a, &b));
}

#[test]
fn test_subsumes_root_only() {
    let a = make_dep(1, &[]);
    let b = make_dep(1, &[("a", false)]);
    assert!(dependency_subsumes(&a, &b));
}

#[test]
fn test_merge_removes_subsumed() {
    let a = vec![make_dep(1, &[])]; // props
    let b = vec![make_dep(1, &[("name", false)])]; // props.name
    let merged = merge_dependencies(&a, &b);
    assert_eq!(merged.len(), 1);
    assert!(merged[0].path.is_empty()); // kept the root-level dep
}

#[test]
fn test_truncate_at_optional() {
    let path = vec![
        DependencyPathEntry { property: "a".into(), optional: false },
        DependencyPathEntry { property: "b".into(), optional: true },
        DependencyPathEntry { property: "c".into(), optional: false },
    ];
    let truncated = truncate_at_optional(&path);
    assert_eq!(truncated.len(), 2);
    assert_eq!(truncated[1].property, "b");
}

#[test]
fn test_truncate_no_optional() {
    let path = vec![
        DependencyPathEntry { property: "a".into(), optional: false },
        DependencyPathEntry { property: "b".into(), optional: false },
    ];
    let truncated = truncate_at_optional(&path);
    assert_eq!(truncated.len(), 2);
}

#[test]
fn test_add_dependency_dedup() {
    let mut deps = vec![make_dep(1, &[("a", false), ("b", false)])]; // props.a.b
    add_dependency(&mut deps, make_dep(1, &[("a", false)])); // props.a (subsumes props.a.b)
    assert_eq!(deps.len(), 1);
    assert_eq!(deps[0].path.len(), 1); // kept the shorter path
}

#[test]
fn compare_paths_is_antisymmetric() {
    let a = vec![entry("x", false)];
    let b = vec![entry("x", false), entry("y", true)];
    assert_eq!(compare_paths(&a, &b), Some(Ordering::Less));
    assert_eq!(compare_paths(&b, &a), Some(Ordering::Greater));
    assert_eq!(compare_paths(&b, &b), Some(Ordering::Equal));
}

#[test]
fn compare_paths_ignores_optional_flags() {
    let a = vec![entry("x", true)];
    let b = vec![entry("x", false)];
    assert_eq!(compare_paths(&a, &b), Some(Ordering::Equal));
}

#[test]
fn optional_access_does_not_subsume_plain_access() {
    let a = make_dep(1, &[("a", true)]);
    let b = make_dep(1, &[("a", false), ("b", false)]);
    assert!(!dependency_subsumes(&a, &b));
    assert!(dependency_subsumes(&b, &b));
    let c = make_dep(1, &[("a", true), ("b", false)]);
    assert!(dependency_subsumes(&a, &c));
}

#[test]
fn subsumption_is_transitive_on_example() {
    let a = make_dep(3, &[]);
    let b = make_dep(3, &[("x", false)]);
    let c = make_dep(3, &[("x", false), ("y", false)]);
    assert!(dependency_subsumes(&a, &b));
    assert!(dependency_subsumes(&b, &c));
    assert!(dependency_subsumes(&a, &c));
}

#[test]
fn add_dependency_skips_covered() {
    let mut deps = vec![make_dep(1, &[("a", false)])];
    add_dependency(&mut deps, make_dep(1, &[("a", false), ("b", false)]));
    assert_eq!(deps.len(), 1);
    assert_eq!(deps[0].path.len(), 1);
    add_dependency(&mut deps, make_dep(2, &[]));
    assert_eq!(deps.len(), 2);
    assert_eq!(deps[1].identifier.id, IdentifierId(2));
}

#[test]
fn add_dependency_removes_all_subsumed_and_appends() {
    let mut deps = vec![
        make_dep(1, &[("a", false)]),
        make_dep(2, &[("z", false)]),
        make_dep(1, &[("b", false)]),
    ];
    add_dependency(&mut deps, make_dep(1, &[]));
    assert_eq!(deps.len(), 2);
    assert_eq!(deps[0].identifier.id, IdentifierId(2));
    assert_eq!(deps[1].identifier.id, IdentifierId(1));
    assert!(deps[1].path.is_empty());
}

#[test]
fn merge_keeps_divergent_and_orders_by_input() {
    let a = vec![make_dep(1, &[("a", false)]), make_dep(1, &[("a", false)])];
    let b = vec![make_dep(1, &[("b", false)]), make_dep(2, &[])];
    let merged = merge_dependencies(&a, &b);
    assert_eq!(merged.len(), 3);
    assert_eq!(merged[0].path[0].property, "a");
    assert_eq!(merged[1].path[0].property, "b");
    assert_eq!(merged[2].identifier.id, IdentifierId(2));
}

#[test]
fn truncate_is_idempotent_and_keeps_last_optional() {
    let path = vec![entry("a", true), entry("b", false), entry("c", true), entry("d", false)];
    let t = truncate_at_optional(&path);
    assert_eq!(t.len(), 3);
    assert_eq!(t[2].property, "c");
    let t2 = truncate_at_optional(&t);
    assert_eq!(t2.len(), 3);
    assert!(truncate_at_optional(&[]).is_empty());
}

#[test]
fn paths_and_dependencies_equality() {
    let a = vec![entry("a", false), entry("b", true)];
    let b = vec![entry("a", false), entry("b", true)];
    let c = vec![entry("a", false), entry("b", false)];
    assert!(paths_equal(&a, &b));
    assert!(!paths_equal(&a, &c));
    assert!(!paths_equal(&a, &a[..1]));
    let d1 = make_dep(1, &[("a", false)]);
    let d2 = make_dep(1, &[("a", false)]);
    let d3 = make_dep(2, &[("a", false)]);
    assert!(dependencies_equal(&d1, &d2));
    assert!(!dependencies_equal(&d1, &d3));
}

#[test]
fn group_by_root_keeps_order_within_a_root() {
    let deps = vec![make_dep(1, &[("a", false)]), make_dep(2, &[]), make_dep(1, &[("b", false)])];
    let groups = group_by_root(&deps);
    assert_eq!(groups.len(), 2);
    let ones: Vec<String> = groups[&1].iter().map(|d| d.path[0].property.clone()).collect();
    assert_eq!(ones, vec!["a".to_string(), "b".to_string()]);
    assert_eq!(groups[&2].len(), 1);
}
