use fallow::re_exports::attach::{
    decide_barrel_export_attach_targets, decide_named_import_attach_targets,
    import_binding_has_type_usage, import_binding_has_value_usage, ImportBindingUsage,
};

fn usage(types: &[&str], values: &[&str]) -> ImportBindingUsage {
    ImportBindingUsage {
        type_referenced_import_bindings: types.iter().map(|s| s.to_string()).collect(),
        value_referenced_import_bindings: values.iter().map(|s| s.to_string()).collect(),
    }
}

#[test]
fn binding_usage_lookup() {
    let m = usage(&["Props"], &["helper", "Props"]);
    assert!(import_binding_has_type_usage(Some(&m), "Props"));
    assert!(!import_binding_has_type_usage(Some(&m), "helper"));
    assert!(import_binding_has_value_usage(Some(&m), "helper"));
    assert!(!import_binding_has_value_usage(Some(&m), ""));
    assert!(!import_binding_has_type_usage(None, "Props"));
}

#[test]
fn barrel_export_fallback_targets() {
    assert_eq!(decide_barrel_export_attach_targets(true, true, true), (true, false));
    assert_eq!(decide_barrel_export_attach_targets(true, false, true), (false, true));
    assert_eq!(decide_barrel_export_attach_targets(false, true, true), (false, true));
    assert_eq!(decide_barrel_export_attach_targets(false, true, false), (true, false));
    assert_eq!(decide_barrel_export_attach_targets(false, false, false), (false, false));
}

#[test]
fn named_import_targets_follow_binding_usage() {
    let m = usage(&["Thing"], &["other"]);
    // Only type exports / only value exports: attach to what exists.
    assert_eq!(decide_named_import_attach_targets(Some(&m), "x", false, true, false), (true, false));
    assert_eq!(decide_named_import_attach_targets(Some(&m), "x", false, false, true), (false, true));
    // Both exist: a type-only import attaches to the type export.
    assert_eq!(decide_named_import_attach_targets(Some(&m), "x", true, true, true), (true, false));
    // Both exist: usage decides.
    assert_eq!(decide_named_import_attach_targets(Some(&m), "Thing", false, true, true), (true, false));
    assert_eq!(decide_named_import_attach_targets(Some(&m), "other", false, true, true), (false, true));
    // Both exist, unused binding: fall back to the value export.
    assert_eq!(decide_named_import_attach_targets(Some(&m), "unused", false, true, true), (false, true));
    assert_eq!(decide_named_import_attach_targets(None, "", false, false, false), (false, false));
}

use fallow::re_exports::cycles::tarjan_scc;

fn normalized(mut sccs: Vec<Vec<usize>>) -> Vec<Vec<usize>> {
    for scc in &mut sccs {
        scc.sort_unstable();
    }
    sccs.sort();
    sccs
}

#[test]
fn tarjan_finds_cycles_and_singletons() {
    // 0 -> 1 -> 2 -> 0 is a cycle; 3 -> 4 is a chain; 5 loops on itself.
    let adj = vec![vec![1], vec![2], vec![0, 3], vec![4], vec![], vec![5]];
    let sccs = tarjan_scc(6, &adj);
    assert_eq!(
        normalized(sccs),
        vec![vec![0, 1, 2], vec![3], vec![4], vec![5]]
    );
}

#[test]
fn tarjan_emits_sink_components_first() {
    let adj = vec![vec![1], vec![2], vec![1]];
    // The 1 <-> 2 cycle is finished before its predecessor 0.
    let sccs = tarjan_scc(3, &adj);
    assert_eq!(sccs.len(), 2);
    let mut first = sccs[0].clone();
    first.sort_unstable();
    assert_eq!(first, vec![1, 2]);
    assert_eq!(sccs[1], vec![0]);
}

#[test]
fn tarjan_handles_empty_and_edgeless_graphs() {
    assert!(tarjan_scc(0, &[]).is_empty());
    let adj: Vec<Vec<usize>> = vec![Vec::new(); 3];
    assert_eq!(normalized(tarjan_scc(3, &adj)), vec![vec![0], vec![1], vec![2]]);
}

#[test]
fn tarjan_two_interlocked_cycles_form_one_component() {
    let adj = vec![vec![1, 2], vec![0], vec![3], vec![0]];
    assert_eq!(normalized(tarjan_scc(4, &adj)), vec![vec![0, 1, 2, 3]]);
}
