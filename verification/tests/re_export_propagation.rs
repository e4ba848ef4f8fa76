use std::collections::{HashMap, HashSet};

use fallow::re_exports::attach::ImportBindingUsage;
use fallow::re_exports::graph::{
    Edge, ExportName, ExportSymbol, ImportSymbol, ImportedName, ModuleNode, ReExport, ReferenceKind, Span,
    SymbolReference,
};
use fallow::re_exports::propagate::{
    apply_star_refs_to_source, attach_star_ref_to_exports, collect_star_refs_by_name, propagate_named_re_export,
    propagate_star_re_export, StarReference, StarReferenceOrigin, SyntheticStubs,
};
use fallow::re_exports::resolve::{
    build_edges_by_target, collect_entry_star_targets, collect_re_export_tuples, run_re_export_fixpoint,
    ReExportPropagationPlan,
};

fn export(name: &str, is_type_only: bool) -> ExportSymbol {
    let name = if name == "default" {
        ExportName::Default
    } else {
        ExportName::Named(name.to_string())
    };
    ExportSymbol { name, is_type_only, references: Vec::new() }
}

fn reference(from_file: u32) -> SymbolReference {
    SymbolReference { from_file, kind: ReferenceKind::NamedImport, import_span: Span { start: 1, end: 2 } }
}

fn module(file_id: u32, exports: Vec<ExportSymbol>, re_exports: Vec<ReExport>) -> ModuleNode {
    ModuleNode { file_id, entry_point: false, exports, re_exports }
}

fn star(source_file: u32) -> ReExport {
    ReExport {
        source_file,
        imported_name: "*".to_string(),
        exported_name: "*".to_string(),
        is_type_only: false,
    }
}

fn named_import(source: u32, target: u32, name: &str) -> Edge {
    Edge {
        source,
        target,
        symbols: vec![ImportSymbol {
            imported_name: ImportedName::Named(name.to_string()),
            local_name: name.to_string(),
            import_span: Span { start: 10, end: 20 },
            is_type_only: false,
        }],
    }
}

fn ref_files(e: &ExportSymbol) -> Vec<u32> {
    e.references.iter().map(|r| r.from_file).collect()
}

#[test]
fn attaching_skips_files_already_referencing() {
    let mut exports = vec![export("a", false), export("b", false)];
    assert!(attach_star_ref_to_exports(&mut exports, &[0, 1], reference(7)));
    assert!(!attach_star_ref_to_exports(&mut exports, &[0, 1], reference(7)));
    assert!(attach_star_ref_to_exports(&mut exports, &[1], reference(8)));
    assert_eq!(ref_files(&exports[0]), vec![7]);
    assert_eq!(ref_files(&exports[1]), vec![7, 8]);
}

#[test]
fn star_refs_split_between_type_and_value_exports() {
    // The source has a type and a value export named `Thing`; a type-only
    // import attaches to the type one, a value import to the value one.
    let mut exports = vec![export("Thing", true), export("Thing", false)];
    let refs = vec![
        StarReference {
            reference: reference(1),
            origin: StarReferenceOrigin::NamedImport { local_name: "Thing".to_string(), is_type_only: true },
        },
        StarReference {
            reference: reference(2),
            origin: StarReferenceOrigin::NamedImport { local_name: "Thing".to_string(), is_type_only: false },
        },
    ];
    let modules: HashMap<u32, ImportBindingUsage> = HashMap::new();
    let mut stubs = SyntheticStubs::new();
    assert!(apply_star_refs_to_source(&mut exports, "Thing", &refs, 9, &modules, false, false, &mut stubs));
    assert_eq!(ref_files(&exports[0]), vec![1]);
    assert_eq!(ref_files(&exports[1]), vec![2]);
}

#[test]
fn forwarding_source_gets_synthetic_exports_once() {
    let mut exports = vec![export("other", false)];
    let refs = vec![StarReference {
        reference: reference(3),
        origin: StarReferenceOrigin::BarrelExport { is_type_only: false },
    }];
    let modules: HashMap<u32, ImportBindingUsage> = HashMap::new();
    let mut stubs = SyntheticStubs::new();
    assert!(apply_star_refs_to_source(&mut exports, "missing", &refs, 4, &modules, false, true, &mut stubs));
    assert_eq!(exports.len(), 2);
    assert!(exports[1].name.matches_str("missing"));
    assert!(!exports[1].is_type_only);
    assert_eq!(ref_files(&exports[1]), vec![3]);
    // The same name again: the synthetic export exists, the reference is
    // already there.
    assert!(!apply_star_refs_to_source(&mut exports, "missing", &refs, 4, &modules, false, true, &mut stubs));
    assert_eq!(exports.len(), 2);
    // Without `export *` on the source nothing is created.
    let mut plain = vec![export("other", false)];
    assert!(!apply_star_refs_to_source(&mut plain, "missing", &refs, 5, &modules, false, false, &mut stubs));
    assert_eq!(plain.len(), 1);
}

#[test]
fn named_re_export_forwards_barrel_references() {
    // Module 0 re-exports `foo` from module 1 as `bar`; `bar` on 0 is used by 5 and 6.
    let mut barrel_bar = export("bar", false);
    barrel_bar.references = vec![reference(5), reference(6), reference(5)];
    let mut source_foo = export("foo", false);
    source_foo.references = vec![reference(6)];
    let mut modules = vec![
        module(0, vec![barrel_bar], Vec::new()),
        module(1, vec![source_foo, export("baz", false)], Vec::new()),
    ];
    assert!(propagate_named_re_export(&mut modules, 0, 0, 1, "foo", "bar"));
    // 6 was there already; both references from 5 pass.
    assert_eq!(ref_files(&modules[1].exports[0]), vec![6, 5, 5]);
    assert!(modules[1].exports[1].references.is_empty());
}

#[test]
fn entry_point_named_re_export_marks_source_used() {
    let mut barrel = module(0, Vec::new(), Vec::new());
    barrel.entry_point = true;
    let mut modules = vec![barrel, module(1, vec![export("foo", false)], Vec::new())];
    assert!(propagate_named_re_export(&mut modules, 0, 0, 1, "foo", "foo"));
    assert_eq!(modules[1].exports[0].references[0].kind, ReferenceKind::ReExport);
    assert!(!propagate_named_re_export(&mut modules, 0, 0, 1, "foo", "foo"));
}

#[test]
fn star_re_export_from_entry_point_marks_all_but_default() {
    let mut barrel = module(0, Vec::new(), vec![star(1)]);
    barrel.entry_point = true;
    let mut modules = vec![barrel, module(1, vec![export("a", false), export("default", false)], Vec::new())];
    let edges: Vec<Edge> = Vec::new();
    let by_target = build_edges_by_target(&edges);
    let usage: HashMap<u32, ImportBindingUsage> = HashMap::new();
    let entry_targets: HashSet<u32> = HashSet::new();
    let mut stubs = SyntheticStubs::new();
    assert!(propagate_star_re_export(&mut modules, &edges, &by_target, &usage, 0, 0, 1, 1, &entry_targets, false, &mut stubs));
    assert_eq!(ref_files(&modules[1].exports[0]), vec![0]);
    assert!(modules[1].exports[1].references.is_empty());
}

#[test]
fn star_refs_are_grouped_by_name_in_first_seen_order() {
    let mut barrel_x = export("x", false);
    barrel_x.references = vec![reference(4)];
    let modules = vec![module(0, vec![barrel_x], vec![star(1)]), module(1, Vec::new(), Vec::new())];
    let edges = vec![named_import(2, 0, "y"), named_import(3, 0, "x"), named_import(5, 1, "z")];
    let by_target = build_edges_by_target(&edges);
    let groups = collect_star_refs_by_name(&modules, &edges, &by_target, 0, 0);
    let names: Vec<&str> = groups.iter().map(|(n, _)| n.as_str()).collect();
    assert_eq!(names, vec!["y", "x"]);
    let x_files: Vec<u32> = groups[1].1.iter().map(|r| r.reference.from_file).collect();
    assert_eq!(x_files, vec![3, 4]);
}

#[test]
fn entry_star_targets_follow_star_chains() {
    let mut entry = module(0, Vec::new(), vec![star(1)]);
    entry.entry_point = true;
    let modules = vec![
        entry,
        module(1, Vec::new(), vec![star(2)]),
        module(2, Vec::new(), vec![star(1), ReExport {
            source_file: 3,
            imported_name: "a".to_string(),
            exported_name: "a".to_string(),
            is_type_only: false,
        }]),
        module(3, Vec::new(), vec![star(4)]),
    ];
    let targets = collect_entry_star_targets(&modules);
    let mut got: Vec<u32> = targets.into_iter().collect();
    got.sort_unstable();
    assert_eq!(got, vec![1, 2]);
}

#[test]
fn edges_are_indexed_by_target() {
    let edges = vec![named_import(1, 0, "a"), named_import(2, 3, "b"), named_import(4, 0, "c")];
    let by_target = build_edges_by_target(&edges);
    assert_eq!(by_target.get(&0), Some(&vec![0, 2]));
    assert_eq!(by_target.get(&3), Some(&vec![1]));
    assert_eq!(by_target.get(&1), None);
}

#[test]
fn plan_requeues_observers_once() {
    let modules = vec![
        module(0, Vec::new(), vec![star(1)]),
        module(1, Vec::new(), vec![star(2)]),
        module(2, Vec::new(), Vec::new()),
    ];
    let tuples = collect_re_export_tuples(&modules);
    assert_eq!(tuples.len(), 2);
    let mut plan = ReExportPropagationPlan::new(&tuples);
    assert_eq!(plan.pop_front(), Some(0));
    plan.enqueue_observers(0);
    plan.enqueue_observers(0);
    assert_eq!(plan.pop_front(), Some(1));
    assert_eq!(plan.pop_front(), Some(0));
    assert_eq!(plan.pop_front(), None);
}

#[test]
fn fixpoint_resolves_a_star_chain() {
    // 5 imports `foo` from barrel 0; 0 does `export * from 1`; 1 does
    // `export * from 2`; 2 defines `foo`.
    let modules_init = vec![
        module(0, Vec::new(), vec![star(1)]),
        module(1, Vec::new(), vec![star(2)]),
        module(2, vec![export("foo", false)], Vec::new()),
    ];
    let mut modules = modules_init.clone();
    let edges = vec![named_import(5, 0, "foo")];
    let tuples = collect_re_export_tuples(&modules);
    let by_target = build_edges_by_target(&edges);
    let entry_targets = collect_entry_star_targets(&modules);
    let usage: HashMap<u32, ImportBindingUsage> = HashMap::new();
    let steps = run_re_export_fixpoint(&mut modules, &edges, &tuples, &entry_targets, &by_target, &usage);
    assert!(steps >= 2);
    // Module 1 forwards via `export *`, so it gets a synthetic `foo` that
    // carries the reference; crossing 1's `export *` it reaches 2's export.
    assert_eq!(modules[1].exports.len(), 1);
    assert!(modules[1].exports[0].name.matches_str("foo"));
    assert_eq!(ref_files(&modules[1].exports[0]), vec![5]);
    assert_eq!(ref_files(&modules[2].exports[0]), vec![5]);
}

use fallow::re_exports::cycles::{find_re_export_cycles, module_display};
use fallow::re_exports::resolve::resolve_re_export_chains;

fn displays(n: usize) -> Vec<String> {
    (0..n).map(|i| format!("src/m{i}.ts")).collect()
}

#[test]
fn re_export_cycles_report_self_loops_then_sorted_components() {
    // 0 -> 0 (self-loop), 1 -> 2 -> 3 -> 1 (cycle), 3 -> 4 (no cycle),
    // 2 -> 2 twice (one self-loop).
    let modules = vec![
        module(0, Vec::new(), vec![star(0)]),
        module(1, Vec::new(), vec![star(2)]),
        module(2, Vec::new(), vec![star(3), star(2), star(2)]),
        module(3, Vec::new(), vec![star(1), star(4)]),
        module(4, Vec::new(), Vec::new()),
    ];
    let tuples = collect_re_export_tuples(&modules);
    let names = vec![
        "z/zero.ts".to_string(),
        "b/one.ts".to_string(),
        "c/two.ts".to_string(),
        "a/three.ts".to_string(),
        "d/four.ts".to_string(),
    ];
    let cycles = find_re_export_cycles(&tuples, &names);
    assert_eq!(cycles.len(), 3);
    assert!(cycles[0].is_self_loop);
    assert_eq!(cycles[0].file_ids, vec![0]);
    assert_eq!(cycles[0].files, vec!["z/zero.ts".to_string()]);
    assert!(cycles[1].is_self_loop);
    assert_eq!(cycles[1].file_ids, vec![2]);
    assert!(!cycles[2].is_self_loop);
    // Members sorted by display text.
    assert_eq!(cycles[2].file_ids, vec![3, 1, 2]);
    assert_eq!(
        cycles[2].files,
        vec!["a/three.ts".to_string(), "b/one.ts".to_string(), "c/two.ts".to_string()]
    );
}

#[test]
fn re_export_cycles_none_without_loops() {
    let modules = vec![
        module(0, Vec::new(), vec![star(1)]),
        module(1, Vec::new(), vec![star(2)]),
        module(2, Vec::new(), Vec::new()),
    ];
    let tuples = collect_re_export_tuples(&modules);
    assert!(find_re_export_cycles(&tuples, &displays(3)).is_empty());
    assert!(find_re_export_cycles(&Vec::new(), &displays(3)).is_empty());
}

#[test]
fn re_export_cycle_outside_module_list_uses_placeholder() {
    let modules = vec![module(0, Vec::new(), vec![star(7)]), module(7, Vec::new(), vec![star(0)])];
    let tuples = collect_re_export_tuples(&modules);
    let cycles = find_re_export_cycles(&tuples, &displays(1));
    assert_eq!(cycles.len(), 1);
    assert_eq!(cycles[0].files, vec!["<file id 7>".to_string(), "src/m0.ts".to_string()]);
    assert_eq!(cycles[0].file_ids, vec![7, 0]);
    assert_eq!(module_display(12, &displays(2)), "<file id 12>");
    assert_eq!(module_display(1, &displays(2)), "src/m1.ts");
}

#[test]
fn resolve_chains_propagates_and_reports_cycles() {
    // 5 imports `foo` from 0; 0 -> 1 -> 0 star cycle; 1 also `export * from 2`,
    // which defines `foo`.
    let mut modules = vec![
        module(0, Vec::new(), vec![star(1)]),
        module(1, Vec::new(), vec![star(0), star(2)]),
        module(2, vec![export("foo", false)], Vec::new()),
    ];
    let edges = vec![named_import(5, 0, "foo")];
    let usage: HashMap<u32, ImportBindingUsage> = HashMap::new();
    let cycles = resolve_re_export_chains(&mut modules, &edges, &usage, &displays(3));
    assert_eq!(cycles.len(), 1);
    assert_eq!(cycles[0].file_ids, vec![0, 1]);
    assert!(!cycles[0].is_self_loop);
    assert_eq!(ref_files(&modules[2].exports[0]), vec![5]);

    let mut quiet = vec![module(0, vec![export("x", false)], Vec::new())];
    assert!(resolve_re_export_chains(&mut quiet, &edges, &usage, &displays(1)).is_empty());
}

use fallow::re_exports::resolve::propagate_re_export_entry;

fn named_re(source_file: u32, imported: &str, exported: &str) -> ReExport {
    ReExport {
        source_file,
        imported_name: imported.to_string(),
        exported_name: exported.to_string(),
        is_type_only: false,
    }
}

fn all_ref_files(modules: &[ModuleNode]) -> Vec<Vec<Vec<u32>>> {
    modules.iter().map(|m| m.exports.iter().map(ref_files).collect()).collect()
}

/// Propagating `tuple` once more over a copy of `modules`, from no recorded
/// stubs: whether it reported a change, and the copy afterwards.
fn propagate_again(modules: &[ModuleNode], edges: &Vec<Edge>, tuple_idx: usize) -> (bool, Vec<ModuleNode>) {
    let tuples = collect_re_export_tuples(&modules.to_vec());
    let by_target = build_edges_by_target(edges);
    let entry_targets = collect_entry_star_targets(&modules.to_vec());
    let usage: HashMap<u32, ImportBindingUsage> = HashMap::new();
    let mut copy = modules.to_vec();
    let mut stubs = SyntheticStubs::new();
    let changed =
        propagate_re_export_entry(&mut copy, edges, &tuples[tuple_idx], &by_target, &usage, &entry_targets, &mut stubs);
    (changed, copy)
}

#[test]
fn fixpoint_leaves_every_edge_settled() {
    // 5 imports `foo` from barrel 0, which does `export * from 1`; 2 does
    // `export { foo } from 1` and its own `foo` is used by 6. Module 1 has no
    // `export *`, so nothing is synthesized.
    let mut foo_used = export("foo", false);
    foo_used.references.push(reference(6));
    let mut modules = vec![
        module(0, Vec::new(), vec![star(1)]),
        module(1, vec![export("foo", false), export("bar", false)], Vec::new()),
        module(2, vec![foo_used], vec![named_re(1, "foo", "foo")]),
    ];
    let edges = vec![named_import(5, 0, "foo")];
    let usage: HashMap<u32, ImportBindingUsage> = HashMap::new();
    let cycles = resolve_re_export_chains(&mut modules, &edges, &usage, &displays(3));
    assert!(cycles.is_empty());
    assert_eq!(ref_files(&modules[1].exports[0]), vec![5, 6]);
    assert!(modules[1].exports[1].references.is_empty());
    let settled = all_ref_files(&modules);
    for idx in 0..2 {
        let (changed, copy) = propagate_again(&modules, &edges, idx);
        assert!(!changed);
        assert_eq!(all_ref_files(&copy), settled);
    }
}

#[test]
fn worklist_can_stop_short_when_a_star_source_synthesizes() {
    // 1 does `export { x } from 0` and its own `x` is used by 7; 2 does
    // `export * from 0`, and 8 imports `x` from 2. Module 0 forwards through
    // `export * from 3`, so the star edge from 2 synthesizes `x` on 0 after
    // the named edge from 1 has already run; nothing queues that edge again.
    let mut x_used = export("x", false);
    x_used.references.push(reference(7));
    let mut modules = vec![
        module(0, Vec::new(), vec![star(3)]),
        module(1, vec![x_used], vec![named_re(0, "x", "x")]),
        module(2, Vec::new(), vec![star(0)]),
        module(3, Vec::new(), Vec::new()),
    ];
    let edges = vec![named_import(8, 2, "x")];
    let usage: HashMap<u32, ImportBindingUsage> = HashMap::new();
    resolve_re_export_chains(&mut modules, &edges, &usage, &displays(4));
    assert_eq!(modules[0].exports.len(), 1);
    assert!(modules[0].exports[0].name.matches_str("x"));
    assert_eq!(ref_files(&modules[0].exports[0]), vec![8]);
    // The named edge (the second tuple) still has a reference to carry.
    let (changed, copy) = propagate_again(&modules, &edges, 1);
    assert!(changed);
    assert_eq!(ref_files(&copy[0].exports[0]), vec![8, 7]);
}

#[test]
fn stubs_record_each_triple_once() {
    let mut stubs = SyntheticStubs::new();
    assert!(stubs.insert(1, "x", false));
    assert!(!stubs.insert(1, "x", false));
    assert!(stubs.insert(1, "x", true));
    assert!(stubs.insert(2, "x", false));
    assert!(stubs.insert(1, "y", false));
    assert!(!stubs.insert(1, "y", false));
}

#[test]
fn bounded_graph_reaches_its_fixpoint_below_the_cap() {
    // 3 imports `foo` from barrel 0 (`export * from 1`); 2 does
    // `export { foo } from 1` and its own `foo` is used by 3. Every file is a
    // module of the graph and nothing forwards through a second `export *`.
    let mut foo_used = export("foo", false);
    foo_used.references.push(reference(3));
    let init = vec![
        module(0, Vec::new(), vec![star(1)]),
        module(1, vec![export("foo", false), export("bar", false)], Vec::new()),
        module(2, vec![foo_used], vec![named_re(1, "foo", "foo")]),
        module(3, Vec::new(), Vec::new()),
    ];
    let edges = vec![named_import(3, 0, "foo")];
    let mut modules = init.clone();
    let tuples = collect_re_export_tuples(&modules);
    let by_target = build_edges_by_target(&edges);
    let entry_targets = collect_entry_star_targets(&modules);
    let usage: HashMap<u32, ImportBindingUsage> = HashMap::new();
    let cap = fallow::re_exports::resolve::re_export_transition_safety_cap(&init, &edges, &tuples);
    let steps = run_re_export_fixpoint(&mut modules, &edges, &tuples, &entry_targets, &by_target, &usage);
    assert!(steps < cap);
    assert_eq!(ref_files(&modules[1].exports[0]), vec![3]);
    let settled = all_ref_files(&modules);
    for idx in 0..tuples.len() {
        let (changed, copy) = propagate_again(&modules, &edges, idx);
        assert!(!changed);
        assert_eq!(all_ref_files(&copy), settled);
    }
}
