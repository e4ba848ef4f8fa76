use fallow::inventory::{
    line_col_utf16_of, FunctionNamer, InventoryEntry, InventoryPlan, InventoryStep, InventoryWalker, SourceKind,
    SourceLanguage, SourceModuleKind,
};

#[test]
fn names_prefer_parent_then_identifier_then_counter() {
    let mut namer = FunctionNamer::new();
    // A named function still advances the counter.
    assert_eq!(namer.resolve_name(Some("outer")), "outer");
    assert_eq!(namer.resolve_name(None), "(anonymous_1)");
    namer.pending_name = Some("handler".to_string());
    assert_eq!(namer.resolve_name(Some("ignored")), "handler");
    assert!(namer.pending_name.is_none());
    assert_eq!(namer.resolve_name(None), "(anonymous_3)");
    assert_eq!(namer.anonymous_counter, 4);
}

#[test]
fn line_and_one_indexed_utf16_column() {
    let source = "ab\ncd\nef";
    let offsets = [0u32, 3, 6];
    assert_eq!(line_col_utf16_of(source, &offsets, 0), (1, 1));
    assert_eq!(line_col_utf16_of(source, &offsets, 1), (1, 2));
    assert_eq!(line_col_utf16_of(source, &offsets, 3), (2, 1));
    assert_eq!(line_col_utf16_of(source, &offsets, 4), (2, 2));
    assert_eq!(line_col_utf16_of(source, &offsets, 7), (3, 2));
    // Past the end: clamped to the end of the source.
    assert_eq!(line_col_utf16_of(source, &offsets, 100), (3, 3));
}

#[test]
fn utf16_column_counts_code_units_not_bytes() {
    // 'é' is two bytes and one UTF-16 unit; '𝒳' four bytes and two units.
    let source = "é𝒳x";
    let offsets = [0u32];
    assert_eq!(line_col_utf16_of(source, &offsets, 2), (1, 2));
    assert_eq!(line_col_utf16_of(source, &offsets, 6), (1, 4));
    // Inside a character: moved back to its start.
    assert_eq!(line_col_utf16_of(source, &offsets, 4), (1, 2));
    assert_eq!(line_col_utf16_of(source, &offsets, 1), (1, 1));
}

#[test]
fn line_offsets_and_byte_positions() {
    let source = "ab\ncd\n\nxyz";
    let offsets = fallow::inventory::compute_line_offsets(source);
    assert_eq!(offsets, vec![0, 3, 6, 7]);
    let at = |o: u32| fallow::inventory::byte_offset_to_line_col(&offsets, o);
    assert_eq!(at(0), (1, 0));
    assert_eq!(at(2), (1, 2));
    assert_eq!(at(3), (2, 0));
    assert_eq!(at(6), (3, 0));
    assert_eq!(at(9), (4, 2));
    assert_eq!(at(100), (4, 93));
    assert_eq!(fallow::inventory::compute_line_offsets(""), vec![0]);
}

fn names(entries: &[InventoryEntry]) -> Vec<&str> {
    entries.iter().map(|e| e.name.as_str()).collect()
}

#[test]
fn named_function_declaration_uses_its_own_name() {
    // function foo() { return 1; }
    let mut w = InventoryWalker::new("function foo() { return 1; }");
    w.function(Some("foo"), true, 0, 28);
    let entries = w.into_entries();
    assert_eq!(entries.len(), 1);
    assert_eq!(entries[0].name, "foo");
    assert_eq!(entries[0].line, 1);
    assert_eq!((entries[0].start_column, entries[0].end_line, entries[0].end_column), (1, 1, 29));
}

#[test]
fn const_arrow_captures_binding_name() {
    // const bar = () => 42;
    let mut w = InventoryWalker::new("const bar = () => 42;");
    w.enter_declarator(Some("bar"), true);
    w.arrow(12, 20);
    w.clear_pending();
    let entries = w.into_entries();
    assert_eq!(entries.len(), 1);
    assert_eq!(entries[0].name, "bar");
}

#[test]
fn overloads_and_nesting_keep_the_counter_in_traversal_order() {
    // function foo(): number; function foo(s?: string) { ... } [1].map(() => 2);
    let source = "function foo(): number; function foo(s?: string) { return 1; } [1].map(() => 2);";
    let mut w = InventoryWalker::new(source);
    w.function(Some("foo"), false, 0, 23);
    w.function(Some("foo"), true, 24, 62);
    w.arrow(71, 78);
    assert_eq!(names(&w.into_entries()), vec!["foo", "(anonymous_1)"]);
    // A method key names its function; a later function falls back to the counter.
    let mut w = InventoryWalker::new("class A { run() {} } function() {}");
    w.enter_method(Some("run"));
    w.function(None, true, 13, 18);
    w.clear_pending();
    w.function(None, true, 21, 34);
    assert_eq!(names(&w.into_entries()), vec!["run", "(anonymous_1)"]);
}

#[test]
fn line_number_is_one_based_from_source_start() {
    let mut w = InventoryWalker::new("\n\nfunction atLineThree() {}");
    w.function(Some("atLineThree"), true, 2, 27);
    let entries = w.into_entries();
    assert_eq!(entries.len(), 1);
    assert_eq!(entries[0].line, 3);
}

#[test]
fn short_jsx_in_js_file_retries_with_jsx_parser() {
    let (mut plan, kind) = InventoryPlan::for_path("component.js");
    assert_eq!(
        kind,
        SourceKind { language: SourceLanguage::JavaScript, module_kind: SourceModuleKind::Unambiguous, jsx: false }
    );
    // The first parse finds nothing: retry with JSX on.
    let retry = match plan.parsed(Vec::new()) {
        InventoryStep::Parse(k) => k,
        InventoryStep::Done(_) => panic!("expected a retry"),
    };
    assert_eq!(retry, SourceKind { language: SourceLanguage::JavaScript, module_kind: SourceModuleKind::Module, jsx: true });
    // const A = () => <div />;
    let mut w = InventoryWalker::new("const A = () => <div />;");
    w.enter_declarator(Some("A"), true);
    w.arrow(10, 23);
    w.clear_pending();
    match plan.parsed(w.into_entries()) {
        InventoryStep::Done(entries) => {
            assert_eq!(names(&entries), vec!["A"]);
            assert_eq!(entries[0].line, 1);
        }
        InventoryStep::Parse(_) => panic!("expected the retry's entries"),
    }
}

#[test]
fn typescript_and_jsx_paths_choose_their_parses() {
    let (mut plan, kind) = InventoryPlan::for_path("src/a.ts");
    assert_eq!(kind.language, SourceLanguage::TypeScript);
    assert!(matches!(
        plan.parsed(Vec::new()),
        InventoryStep::Parse(SourceKind { language: SourceLanguage::TypeScript, module_kind: SourceModuleKind::Unambiguous, jsx: true })
    ));
    // The retry found nothing either: no entries.
    assert!(matches!(plan.parsed(Vec::new()), InventoryStep::Done(v) if v.is_empty()));
    // A JSX path never retries.
    let (mut plan, kind) = InventoryPlan::for_path("view.tsx");
    assert!(kind.jsx);
    assert!(matches!(plan.parsed(Vec::new()), InventoryStep::Done(v) if v.is_empty()));
    // An unknown extension takes the default source type.
    let (_, kind) = InventoryPlan::for_path("notes.txt");
    assert_eq!(kind, SourceKind { language: SourceLanguage::JavaScript, module_kind: SourceModuleKind::Module, jsx: false });
}
