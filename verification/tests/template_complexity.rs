use fallow::template_complexity::engine::{compute_expression_metrics, TemplateComplexity};
use fallow::template_complexity::vue::compute_vue_template_complexity;

#[test]
fn shallow_expression_metrics_are_stable() {
    let ternary = compute_expression_metrics("(a && b) ? c : (d || e)", 0, 0).unwrap();
    assert_eq!(ternary.cyclomatic, 3);
    assert_eq!(ternary.cognitive, 3);

    let bracketed = compute_expression_metrics("(a && b)", 0, 0).unwrap();
    assert_eq!(bracketed.cyclomatic, 1);
    assert_eq!(bracketed.cognitive, 1);
}

#[test]
fn moderate_nesting_below_cap_scores_identically() {
    let source = format!("{}a && b{}", "(".repeat(10), ")".repeat(10));
    let metrics = compute_expression_metrics(&source, 0, 0).unwrap();
    assert_eq!(metrics.cyclomatic, 1);
    assert_eq!(metrics.cognitive, 1);
}

#[test]
fn pathologically_deep_nesting_is_dropped_without_crashing() {
    let depth = 5000;
    let source = format!("{}a{}", "(".repeat(depth), ")".repeat(depth));
    assert!(compute_expression_metrics(&source, 0, 0).is_err());

    let mut complexity = TemplateComplexity::default();
    assert!(complexity.add_expression(&source, 0, 0).is_err());
}

#[test]
fn nested_v_for_in_v_if_with_ternary_binding_counts() {
    let complexity = compute_vue_template_complexity(
        r#"
<template>
  <div v-if="user?.enabled && featureFlags.dashboard">
    <li v-for="item in items" :key="item.id">
      <badge :color="item.level > 3 ? 'red' : 'green'" />
    </li>
  </div>
</template>
"#,
    )
    .expect("template should have complexity");
    assert!(complexity.cyclomatic >= 4, "{complexity:?}");
    assert!(complexity.cognitive >= 3, "{complexity:?}");
    assert_eq!(complexity.name, "<template>");
}

#[test]
fn template_v_for_counts_as_control_flow() {
    let complexity = compute_vue_template_complexity(
        r#"<template><template v-for="row in rows"><p>{{ row.name }}</p></template></template>"#,
    )
    .expect("template should have complexity");
    assert!(complexity.cyclomatic >= 2, "{complexity:?}");
}

#[test]
fn v_else_is_continuation_not_a_new_branch() {
    let complexity = compute_vue_template_complexity(
        r#"<template><p v-if="a">x</p><p v-else>y</p></template>"#,
    )
    .expect("template should have complexity");
    assert_eq!(complexity.cyclomatic, 2, "{complexity:?}");
    assert!(complexity.cognitive >= 2, "{complexity:?}");
}

#[test]
fn else_if_cascade_increments_per_branch() {
    let complexity = compute_vue_template_complexity(
        r#"<template><p v-if="a">1</p><p v-else-if="b">2</p><p v-else-if="c">3</p><p v-else>4</p></template>"#,
    )
    .expect("template should have complexity");
    assert_eq!(complexity.cyclomatic, 4, "{complexity:?}");
}

#[test]
fn interpolation_expressions_contribute() {
    let complexity = compute_vue_template_complexity(
        r"<template><p>{{ enabled && draft ? 'Draft' : 'New' }}</p></template>",
    )
    .expect("template should have complexity");
    assert!(complexity.cyclomatic >= 3, "{complexity:?}");
}

#[test]
fn bound_attribute_expressions_contribute() {
    let complexity = compute_vue_template_complexity(
        r#"<template><button :disabled="loading || !form.valid" @click="submit() && refresh()" /></template>"#,
    )
    .expect("template should have complexity");
    assert!(complexity.cyclomatic >= 3, "{complexity:?}");
}

#[test]
fn markup_only_template_has_no_synthetic_complexity() {
    assert!(
        compute_vue_template_complexity(
            r#"<template><div class="x"><p>Hello world</p></div></template>"#
        )
        .is_none()
    );
}

#[test]
fn script_control_flow_is_not_counted() {
    assert!(
        compute_vue_template_complexity(
            r"<script setup>
const x = items.filter((i) => i && i.active);
if (a && b) { go(); }
for (const i of items) { use(i); }
</script>
<template><p>Static</p></template>"
        )
        .is_none()
    );
}

#[test]
fn malformed_template_does_not_panic_and_yields_no_entry() {
    assert!(compute_vue_template_complexity(r"<template><p>{{ a && </template>").is_none());
    assert!(compute_vue_template_complexity(r#"<template><p v-if="a"#).is_none());
    assert!(compute_vue_template_complexity(r"<template>{{ a && }}</template>").is_none());
}

#[test]
fn multibyte_text_does_not_panic() {
    let complexity = compute_vue_template_complexity(
        "<template><p v-if=\"a && b\">\u{4f4f}\u{6240}{{ c?.d }}</p></template>",
    )
    .expect("template should have complexity");
    assert!(complexity.cyclomatic >= 2, "{complexity:?}");
}

#[test]
fn comments_are_masked() {
    assert!(
        compute_vue_template_complexity(
            r#"<template><!-- v-if="a && b && c" --><p>plain</p></template>"#
        )
        .is_none()
    );
}

#[test]
fn markup_depth_does_not_inflate_cognitive() {
    let shallow =
        compute_vue_template_complexity(r#"<template><div v-if="ok">x</div></template>"#)
            .expect("a v-if has complexity");
    let deep = compute_vue_template_complexity(
        r#"<template><div><div><div><div><div><div><div v-if="ok">x</div></div></div></div></div></div></div></template>"#,
    )
    .expect("a v-if has complexity");
    assert_eq!(
        (shallow.cyclomatic, shallow.cognitive),
        (deep.cyclomatic, deep.cognitive),
        "shallow={shallow:?} deep={deep:?}"
    );
}

#[test]
fn nested_control_flow_still_increments_cognitive() {
    let nested = compute_vue_template_complexity(
        r#"<template><div v-if="a"><span v-if="b">x</span></div></template>"#,
    )
    .expect("nested control flow has complexity");
    let siblings = compute_vue_template_complexity(
        r#"<template><div v-if="a">x</div><div v-if="b">y</div></template>"#,
    )
    .expect("sibling control flow has complexity");
    assert_eq!(nested.cyclomatic, siblings.cyclomatic);
    assert!(
        nested.cognitive > siblings.cognitive,
        "nested={nested:?} siblings={siblings:?}"
    );
}

use fallow::template_complexity::vue::mask_spans;

#[test]
fn masking_blanks_the_given_spans() {
    let source = "ab<!--x-->cd";
    assert_eq!(mask_spans(source, &vec![(2, 10)]), b"ab        cd".to_vec());
    assert_eq!(mask_spans(source, &Vec::new()), source.as_bytes().to_vec());
}
