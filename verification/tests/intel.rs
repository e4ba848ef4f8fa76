use fallow::lsp::intel::{
    intel_hook_segment, react_component_lens_title, react_component_summary, react_hook_segment,
    ReactComponentIntel, ReactHookSummary,
};

fn no_hooks() -> ReactHookSummary {
    ReactHookSummary { state: 0, effect: 0, memo: 0, callback: 0, custom: 0 }
}

#[test]
fn lens_title_full_summary() {
    let intel = ReactComponentIntel {
        render_sites: 12,
        distinct_parents: 8,
        prop_count: 5,
        hooks: ReactHookSummary { state: 4, effect: 3, memo: 1, callback: 1, custom: 0 },
    };
    assert_eq!(
        react_component_lens_title(&intel),
        "rendered 12x (8 parents) · 5 props · 9 hooks (4 state, 3 effect, 1 memo, 1 callback)"
    );
}

#[test]
fn lens_title_omits_zero_segments_and_singularizes() {
    let intel = ReactComponentIntel {
        render_sites: 1,
        distinct_parents: 1,
        prop_count: 1,
        hooks: ReactHookSummary { state: 1, ..no_hooks() },
    };
    assert_eq!(react_component_lens_title(&intel), "rendered 1x (1 parent) · 1 prop · 1 hook (1 state)");
}

#[test]
fn lens_title_falls_back_to_component() {
    let intel = ReactComponentIntel { render_sites: 0, distinct_parents: 0, prop_count: 0, hooks: no_hooks() };
    assert_eq!(react_component_lens_title(&intel), "component");
    assert_eq!(react_component_summary(&intel), "rendered nowhere, no props, no hooks");
}

#[test]
fn summary_lists_hooks_only() {
    let intel = ReactComponentIntel {
        render_sites: 0,
        distinct_parents: 0,
        prop_count: 2,
        hooks: ReactHookSummary { state: 1, effect: 1, ..no_hooks() },
    };
    assert_eq!(react_component_summary(&intel), "2 props · 2 hooks (1 state, 1 effect)");
}

#[test]
fn hook_segment_counts_every_kind() {
    assert_eq!(react_hook_segment(&no_hooks()), None);
    assert_eq!(intel_hook_segment(&no_hooks()), None);
    let all = ReactHookSummary { state: 2, effect: 1, memo: 3, callback: 1, custom: 7 };
    assert_eq!(
        react_hook_segment(&all).unwrap(),
        "14 hooks (2 state, 1 effect, 3 memo, 1 callback, 7 custom)"
    );
    let custom_only = ReactHookSummary { custom: 1, ..no_hooks() };
    assert_eq!(intel_hook_segment(&custom_only).unwrap(), "1 hook (1 custom)");
}
