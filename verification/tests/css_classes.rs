use fallow::css_classes::{is_edit_distance_one, is_typo_edit, scan_markup_class_tokens};

fn tokens(source: &str) -> Vec<String> {
    scan_markup_class_tokens(source)
        .static_tokens
        .into_iter()
        .map(|t| t.value)
        .collect()
}

#[test]
fn extracts_static_class_and_classname_tokens() {
    assert_eq!(
        tokens(r#"<div class="card card-title">x</div>"#),
        vec!["card", "card-title"]
    );
    assert_eq!(
        tokens(r#"<div className="btn btn-primary">x</div>"#),
        vec!["btn", "btn-primary"]
    );
    assert_eq!(tokens(r"<i class='solo'></i>"), vec!["solo"]);
}

#[test]
fn css_classes_reports_one_based_line() {
    let scan = scan_markup_class_tokens("\n\n<i class=\"on-line-three\"></i>");
    assert_eq!(scan.static_tokens.len(), 1);
    assert_eq!(scan.static_tokens[0].line, 3);
}

#[test]
fn flags_dynamic_construction_and_skips_its_tokens() {
    for src in [
        r#"<div className={clsx("a", x)}>y</div>"#,
        r"<div className={`btn-${size}`}>y</div>",
        r#"<div :class="{ active: isOn }">y</div>"#,
        r#"<div class="a-{cls}">y</div>"#,
        r#"el.classList.add("toggled")"#,
    ] {
        let scan = scan_markup_class_tokens(src);
        assert!(scan.has_dynamic, "expected dynamic for {src:?}");
    }
}

#[test]
fn static_attr_in_dynamic_file_still_yields_its_tokens() {
    let scan = scan_markup_class_tokens(
        r#"<div className={clsx(x)}>a</div><span class="card-tite">b</span>"#,
    );
    assert!(scan.has_dynamic);
    assert_eq!(
        scan.static_tokens
            .iter()
            .map(|t| t.value.as_str())
            .collect::<Vec<_>>(),
        vec!["card-tite"]
    );
}

#[test]
fn edit_distance_one_substitution() {
    assert!(is_edit_distance_one("card-tite", "card-tit="));
    assert!(is_edit_distance_one("btn-primary", "btn-primery"));
    assert!(!is_edit_distance_one("btn", "btn"));
    assert!(!is_edit_distance_one("btn-primary", "btn-secondary"));
}

#[test]
fn edit_distance_one_insertion_deletion() {
    assert!(is_edit_distance_one("card-title", "card-titl"));
    assert!(is_edit_distance_one("card-titl", "card-title"));
    assert!(is_edit_distance_one("nav", "navs"));
    assert!(!is_edit_distance_one("nav", "navxs"));
    assert!(!is_edit_distance_one("nav", "xyz"));
}

#[test]
fn typo_edit_accepts_real_alphabetic_typos() {
    assert!(is_typo_edit("card-tite", "card-title"));
    assert!(is_typo_edit("sidebar-nev", "sidebar-nav"));
    assert!(is_typo_edit("widget-labl", "widget-label"));
    assert!(is_typo_edit("headar", "header"));
}

#[test]
fn typo_edit_rejects_numeric_scale_families() {
    assert!(!is_typo_edit("col-lg-6", "col-lg-4"));
    assert!(!is_typo_edit("display-4", "display-5"));
    assert!(!is_typo_edit("gap-2", "gap-3"));
    assert!(!is_typo_edit("display-4", "display-"));
    assert!(!is_typo_edit("z-10", "z-50"));
}

#[test]
fn typo_edit_rejects_singular_plural() {
    assert!(!is_typo_edit("button", "buttons"));
    assert!(!is_typo_edit("buttons", "button"));
    assert!(!is_typo_edit("card", "cards"));
}

#[test]
fn deletion_inside_a_repeated_run_is_one_edit() {
    assert!(is_edit_distance_one("baall", "ball"));
    assert!(is_typo_edit("baall", "ball"));
    assert!(!is_typo_edit("a11", "a1"));
}

#[test]
fn tokens_split_on_unicode_whitespace_and_drop_noise() {
    let scan = scan_markup_class_tokens("<p class=\"a\u{3000}b\u{a0}c d=e\"></p>");
    let values: Vec<String> = scan.static_tokens.into_iter().map(|t| t.value).collect();
    assert_eq!(values, vec!["a", "b", "c"]);
}

use fallow::css_classes::class_tokens_from_captures;

#[test]
fn class_tokens_from_given_captures() {
    // One match `class="a b"` at 0..11 with its value in group 1 (7..10).
    let source = "class=\"a b\"\n<i class=\"c\">";
    let caps = vec![vec![Some((0, 11)), Some((7, 10))], vec![Some((15, 24)), None, Some((22, 23))]];
    let scan = class_tokens_from_captures(source, &caps);
    let got: Vec<(&str, u32)> = scan.static_tokens.iter().map(|t| (t.value.as_str(), t.line)).collect();
    assert_eq!(got, vec![("a", 1), ("b", 1), ("c", 2)]);
    assert!(!scan.has_dynamic);
    // No captures: no tokens, and only a dynamic marker sets the flag.
    let none = class_tokens_from_captures("className={x}", &Vec::new());
    assert!(none.static_tokens.is_empty());
    assert!(none.has_dynamic);
}
