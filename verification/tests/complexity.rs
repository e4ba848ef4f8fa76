use fallow::complexity::{
    count_params, count_props, frame_name_is_react_shaped, is_hook_callee, ComplexityContributionKind,
    ComplexityMetric, ComplexityTracker, FunctionComplexity, LogicalOp, PROP_COUNT_FLOOR,
};

/// Enter a named function on line 1 spanning to `end_line`.
fn enter(t: &mut ComplexityTracker, name: &str, params: u8, props: u16) -> bool {
    t.enter_function(Some(name.to_string()), 1, 0, 1, params, props)
}

fn weights(f: &FunctionComplexity, metric: ComplexityMetric) -> u16 {
    f.contributions.iter().filter(|c| c.metric == metric).map(|c| c.weight).sum()
}

fn count_kind(f: &FunctionComplexity, kind: ComplexityContributionKind) -> usize {
    f.contributions.iter().filter(|c| c.kind == kind).count()
}

fn find<'a>(results: &'a [FunctionComplexity], name: &str) -> &'a FunctionComplexity {
    results.iter().find(|r| r.name == name).unwrap()
}

/// `<tag>` opened and closed around `inner`.
fn jsx(t: &mut ComplexityTracker, depth: usize) {
    if depth == 0 {
        return;
    }
    let penalized = t.open_jsx((1, 0));
    jsx(t, depth - 1);
    t.close_jsx(penalized);
}

#[test]
fn empty_function_scores_one_and_zero() {
    let mut t = ComplexityTracker::new();
    let nested = t.enter_function(Some("foo".to_string()), 1, 0, 1, 0, 0);
    assert!(!nested);
    t.exit_function(nested, None);
    let r = t.into_results();
    assert_eq!((r[0].name.as_str(), r[0].cyclomatic, r[0].cognitive, r[0].line_count), ("foo", 1, 0, 1));
    assert!(r[0].contributions.is_empty());
}

#[test]
fn nested_if_carries_the_nesting_penalty() {
    // function foo(x, y) { if (x) { if (y) { return 1; } } }
    let mut t = ComplexityTracker::new();
    let n = enter(&mut t, "foo", 2, 0);
    t.if_condition((1, 21), false);
    t.inc_nesting();
    t.if_condition((1, 32), false);
    t.inc_nesting();
    t.dec_nesting();
    t.dec_nesting();
    t.exit_function(n, Some("digest".to_string()));
    let r = t.into_results();
    assert_eq!((r[0].cyclomatic, r[0].cognitive, r[0].param_count), (3, 3, 2));
    let nested_if = r[0]
        .contributions
        .iter()
        .filter(|c| c.kind == ComplexityContributionKind::If && c.metric == ComplexityMetric::Cognitive)
        .max_by_key(|c| c.nesting)
        .unwrap();
    assert_eq!((nested_if.nesting, nested_if.weight, nested_if.col), (1, 2, 32));
    assert_eq!(r[0].source_hash.as_deref(), Some("digest"));
}

#[test]
fn else_if_chain_is_flat() {
    // function f(a, b) { if (a) {} else if (b) {} else {} }
    let mut t = ComplexityTracker::new();
    let n = enter(&mut t, "f", 2, 0);
    t.if_condition((2, 2), false);
    t.inc_nesting();
    t.dec_nesting();
    t.if_condition((3, 9), true);
    t.inc_nesting();
    t.dec_nesting();
    t.inc_cognitive_flat((4, 9), ComplexityContributionKind::Else);
    t.inc_nesting();
    t.dec_nesting();
    t.exit_function(n, None);
    let r = t.into_results();
    assert_eq!((r[0].cyclomatic, r[0].cognitive), (3, 3));
    let else_if = r[0]
        .contributions
        .iter()
        .find(|c| c.kind == ComplexityContributionKind::ElseIf && c.metric == ComplexityMetric::Cognitive)
        .unwrap();
    assert_eq!((else_if.weight, else_if.nesting, else_if.line), (1, 0, 3));
}

#[test]
fn boolean_runs_count_each_operator_change() {
    // return a && b && c;  ==  (a && b) && c
    let mut t = ComplexityTracker::new();
    let n = enter(&mut t, "same", 3, 0);
    t.logical_expression(LogicalOp::And, (1, 30));
    t.logical_expression(LogicalOp::And, (1, 30));
    t.reset_logical_operator();
    t.exit_function(n, None);
    // return a && b || c;  ==  (a && b) || c
    let n = enter(&mut t, "mixed", 3, 0);
    t.logical_expression(LogicalOp::Or, (1, 30));
    t.logical_expression(LogicalOp::And, (1, 30));
    t.reset_logical_operator();
    t.exit_function(n, None);
    let r = t.into_results();
    assert_eq!((find(&r, "same").cyclomatic, find(&r, "same").cognitive), (3, 1));
    assert_eq!((find(&r, "mixed").cyclomatic, find(&r, "mixed").cognitive), (3, 2));
    let f = find(&r, "mixed");
    let cyc = f.contributions.iter().find(|c| c.kind == ComplexityContributionKind::LogicalAnd && c.metric == ComplexityMetric::Cyclomatic).unwrap();
    let cog = f.contributions.iter().find(|c| c.kind == ComplexityContributionKind::LogicalAnd && c.metric == ComplexityMetric::Cognitive).unwrap();
    assert_eq!(cyc.line, cog.line);
}

#[test]
fn loops_switch_and_labels() {
    // for (const x of arr) { if (x) { return x; } }
    let mut t = ComplexityTracker::new();
    let n = enter(&mut t, "loop", 1, 0);
    t.decision(ComplexityContributionKind::ForOf, (1, 20));
    t.inc_nesting();
    t.if_condition((1, 40), false);
    t.inc_nesting();
    t.dec_nesting();
    t.dec_nesting();
    t.exit_function(n, None);
    // switch (x) { case 1: break; case 2: break; default: break outer; }
    let n = enter(&mut t, "sw", 1, 0);
    t.inc_cognitive_with_nesting((1, 18), ComplexityContributionKind::Switch);
    t.inc_nesting();
    t.inc_cyclomatic((1, 30), ComplexityContributionKind::Case);
    t.inc_cyclomatic((1, 44), ComplexityContributionKind::Case);
    t.inc_cognitive_flat((1, 70), ComplexityContributionKind::LabeledBreak);
    t.dec_nesting();
    t.exit_function(n, None);
    let r = t.into_results();
    assert_eq!((find(&r, "loop").cyclomatic, find(&r, "loop").cognitive), (3, 3));
    assert_eq!((find(&r, "sw").cyclomatic, find(&r, "sw").cognitive), (3, 2));
}

#[test]
fn nested_function_keeps_its_own_nesting_and_takes_the_offered_name() {
    // function outer(x) { if (x) { const inner = () => { if (x) { return 1; } }; } }
    let mut t = ComplexityTracker::new();
    let outer = enter(&mut t, "outer", 1, 0);
    t.if_condition((2, 16), false);
    t.inc_nesting();
    t.offer_name(Some("inner".to_string()));
    let inner = t.enter_arrow(3, 20, 5, 0, 0);
    assert!(inner);
    assert_eq!(t.nesting_level(), 0);
    t.if_condition((4, 24), false);
    t.inc_nesting();
    t.dec_nesting();
    t.exit_function(inner, None);
    assert_eq!(t.nesting_level(), 1);
    t.clear_name();
    t.dec_nesting();
    t.exit_function(outer, None);
    let r = t.into_results();
    assert_eq!(r[0].name, "inner");
    assert_eq!(r[1].name, "outer");
    assert_eq!((r[0].cognitive, r[1].cognitive), (1, 1));
    assert_eq!(r[0].line_count, 3);
    // Without an offered name
    let mut t = ComplexityTracker::new();
    let a = t.enter_arrow(1, 0, 1, 0, 0);
    t.exit_function(a, None);
    let f = t.enter_function(None, 2, 0, 2, 0, 0);
    t.exit_function(f, None);
    let r = t.into_results();
    assert_eq!((r[0].name.as_str(), r[1].name.as_str()), ("<arrow>", "<anonymous>"));
}

#[test]
fn deep_jsx_folds_into_cognitive() {
    let mut t = ComplexityTracker::new();
    let n = enter(&mut t, "Flat", 0, 0);
    jsx(&mut t, 2);
    t.exit_function(n, None);
    let n = enter(&mut t, "Deep", 0, 0);
    jsx(&mut t, 5);
    assert_eq!((t.jsx_depth(), t.nesting_level()), (0, 0));
    t.exit_function(n, None);
    let r = t.into_results();
    let flat = find(&r, "Flat");
    assert_eq!((flat.cognitive, flat.react_jsx_max_depth), (0, 2));
    let deep = find(&r, "Deep");
    // depths 3, 4, 5 are penalized at nesting 0, 1, 2
    assert_eq!((deep.cognitive, deep.react_jsx_max_depth), (6, 5));
    assert_eq!(count_kind(deep, ComplexityContributionKind::JsxDepth), 3);
}

#[test]
fn ternary_inside_deep_jsx_weighs_more() {
    let mut t = ComplexityTracker::new();
    let n = enter(&mut t, "B", 1, 1);
    let p: Vec<bool> = (0..4).map(|_| t.open_jsx((1, 0))).collect();
    t.decision(ComplexityContributionKind::Ternary, (1, 40));
    for penalized in p.into_iter().rev() {
        t.close_jsx(penalized);
    }
    t.exit_function(n, None);
    let r = t.into_results();
    let tern = r[0]
        .contributions
        .iter()
        .find(|c| c.kind == ComplexityContributionKind::Ternary && c.metric == ComplexityMetric::Cognitive)
        .unwrap();
    assert_eq!((tern.weight, tern.nesting), (3, 2));
}

#[test]
fn hooks_fold_only_in_react_shaped_functions() {
    let mut t = ComplexityTracker::new();
    let n = enter(&mut t, "App", 0, 0);
    t.call_expression(Some("useState"), (1, 20));
    t.call_expression(Some("useFetchUser"), (1, 35));
    t.call_expression(Some("used"), (1, 50));
    t.call_expression(Some("use"), (1, 58));
    t.call_expression(None, (1, 60));
    t.exit_function(n, None);
    let n = enter(&mut t, "helper", 0, 0);
    t.call_expression(Some("useState"), (1, 20));
    t.exit_function(n, None);
    let n = enter(&mut t, "useThing", 0, 0);
    t.call_expression(Some("useMemo"), (1, 20));
    t.exit_function(n, None);
    let r = t.into_results();
    let app = find(&r, "App");
    assert_eq!((app.react_hook_count, app.cognitive), (2, 2));
    assert_eq!(count_kind(app, ComplexityContributionKind::HookDensity), 2);
    let helper = find(&r, "helper");
    assert_eq!((helper.react_hook_count, helper.cognitive), (1, 0));
    assert_eq!(find(&r, "useThing").cognitive, 1);
}

#[test]
fn wide_props_fold_only_in_rendering_functions() {
    let mut t = ComplexityTracker::new();
    let n = enter(&mut t, "App", 1, 8);
    jsx(&mut t, 1);
    t.exit_function(n, None);
    let n = enter(&mut t, "configure", 1, 8);
    t.exit_function(n, None);
    let n = enter(&mut t, "Small", 1, 3);
    jsx(&mut t, 1);
    t.exit_function(n, None);
    let r = t.into_results();
    let app = find(&r, "App");
    let prop = app.contributions.iter().find(|c| c.kind == ComplexityContributionKind::PropCount).unwrap();
    assert_eq!(prop.weight, 8 - PROP_COUNT_FLOOR);
    assert_eq!((app.cognitive, app.react_prop_count), (4, 8));
    assert_eq!(count_kind(find(&r, "configure"), ComplexityContributionKind::PropCount), 0);
    assert_eq!(find(&r, "Small").cognitive, 0);
}

#[test]
fn breakdown_matches_totals() {
    let mut t = ComplexityTracker::new();
    let n = enter(&mut t, "App", 1, 7);
    t.call_expression(Some("useState"), (1, 10));
    t.if_condition((2, 2), false);
    t.inc_nesting();
    t.logical_expression(LogicalOp::Coalesce, (2, 6));
    t.reset_logical_operator();
    jsx(&mut t, 4);
    t.dec_nesting();
    t.inc_cyclomatic((3, 2), ComplexityContributionKind::OptionalChain);
    t.inc_cyclomatic((3, 9), ComplexityContributionKind::LogicalAssignment);
    t.exit_function(n, None);
    for f in t.into_results() {
        assert_eq!(f.cyclomatic, 1 + weights(&f, ComplexityMetric::Cyclomatic));
        assert_eq!(f.cognitive, weights(&f, ComplexityMetric::Cognitive));
    }
}

#[test]
fn names_params_and_props() {
    assert!(frame_name_is_react_shaped("App"));
    assert!(frame_name_is_react_shaped("useFetch"));
    assert!(!frame_name_is_react_shaped("use"));
    assert!(!frame_name_is_react_shaped("user"));
    assert!(!frame_name_is_react_shaped(""));
    assert!(frame_name_is_react_shaped("Éclair"));
    assert!(is_hook_callee("useState"));
    assert!(!is_hook_callee("used"));
    assert!(!is_hook_callee("App"));
    assert_eq!(count_params(&vec![true, false, false], true), 3);
    assert_eq!(count_params(&vec![], false), 0);
    assert_eq!(count_params(&vec![false; 300], false), 44);
    assert_eq!(count_props(Some(7)), 7);
    assert_eq!(count_props(Some(70_000)), u16::MAX);
    assert_eq!(count_props(None), 0);
}
