use fallow::tailwind::{
    is_arbitrary_variant_match, scan_tailwind_arbitrary_values, TailwindArbitraryUse,
    ARBITRARY_VALUE_PATTERN,
};

fn values(source: &str) -> Vec<String> {
    scan_tailwind_arbitrary_values(source)
        .into_iter()
        .map(|u| u.value)
        .collect()
}

#[test]
fn matches_common_arbitrary_value_shapes() {
    let v = values(r#"<div class="w-[13px] bg-[#abc] grid-cols-[1fr_2fr] top-[7px]">x</div>"#);
    assert_eq!(
        v,
        vec!["w-[13px]", "bg-[#abc]", "grid-cols-[1fr_2fr]", "top-[7px]"]
    );
}

#[test]
fn ignores_plain_scale_utilities() {
    let v = values(r#"<div class="w-4 bg-red-500 grid-cols-3">x</div>"#);
    assert!(v.is_empty(), "got {v:?}");
}

#[test]
fn does_not_match_attribute_selectors() {
    let v = values("a[href] { color: red; } [data-state] { color: blue; }");
    assert!(v.is_empty(), "got {v:?}");
}

#[test]
fn tailwind_reports_one_based_line() {
    let uses = scan_tailwind_arbitrary_values("\n\n<i class=\"h-[3px]\"></i>");
    assert_eq!(uses.len(), 1);
    assert_eq!(uses[0].line, 3);
}

#[test]
fn captures_utility_prefix_not_variant() {
    let v = values(r#"<a class="hover:w-[20px]">x</a>"#);
    assert_eq!(v, vec!["w-[20px]"]);
}

#[test]
fn ignores_arbitrary_variants() {
    let v = values(
        r#"<div class="data-[side=left]:slide-in min-[320px]:text-sm group-data-[collapsible=icon]:hidden group-data-[size=sm]/dialog:grid peer-data-[size=lg]/button:top-2 hover:w-[20px]">x</div>"#,
    );
    assert_eq!(v, vec!["w-[20px]"]);
}

#[test]
fn keeps_arbitrary_value_modifiers() {
    let v = values(r#"<div class="bg-[#fff]/50 ring-[3px]">x</div>"#);
    assert_eq!(v, vec!["bg-[#fff]", "ring-[3px]"]);
}

#[test]
fn line_numbers_match_naive_reference_on_dense_line() {
    let mut src = String::from("<div class=\"");
    for i in 0..500 {
        src.push_str(&format!("w-[{i}px] "));
    }
    src.push_str("\">x</div>\n<span class=\"h-[3px]\"></span>");

    let got: Vec<(String, u32)> = scan_tailwind_arbitrary_values(&src)
        .into_iter()
        .map(|u| (u.value, u.line))
        .collect();

    let re = regex::Regex::new(ARBITRARY_VALUE_PATTERN).unwrap();
    let want: Vec<(String, u32)> = re
        .find_iter(&src)
        .filter(|m| !is_arbitrary_variant_match(src.as_bytes(), m.end()))
        .map(|m| {
            let line = 1 + src[..m.start()].bytes().filter(|&b| b == b'\n').count();
            (
                m.as_str().to_owned(),
                u32::try_from(line).unwrap_or(u32::MAX),
            )
        })
        .collect();

    assert_eq!(got, want);
    assert!(got.len() > 500, "expected the dense line plus the trailer");
    assert_eq!(got.last().map(|(_, l)| *l), Some(2));
    assert!(got[..got.len() - 1].iter().all(|(_, l)| *l == 1));
}

#[test]
fn lines_follow_each_token_across_lines() {
    let uses = scan_tailwind_arbitrary_values("w-[1px]\nh-[2px]\n\nm-[3px] p-[4px]");
    assert_eq!(
        uses,
        vec![
            TailwindArbitraryUse { value: "w-[1px]".to_string(), line: 1 },
            TailwindArbitraryUse { value: "h-[2px]".to_string(), line: 2 },
            TailwindArbitraryUse { value: "m-[3px]".to_string(), line: 4 },
            TailwindArbitraryUse { value: "p-[4px]".to_string(), line: 4 },
        ]
    );
}

#[test]
fn variant_detection_edges() {
    // `:` right after the bracket, `/name:` before a stop byte, and `/name`
    // ending at a quote or at the end of input.
    assert!(is_arbitrary_variant_match(b"x-[a]:y", 5));
    assert!(is_arbitrary_variant_match(b"x-[a]/g:y", 5));
    assert!(!is_arbitrary_variant_match(b"x-[a]/50 y:z", 5));
    assert!(!is_arbitrary_variant_match(b"x-[a]/50\"", 5));
    assert!(!is_arbitrary_variant_match(b"x-[a]/50", 5));
    assert!(!is_arbitrary_variant_match(b"x-[a]", 5));
    assert!(!is_arbitrary_variant_match(b"x-[a]", 50));
}

use fallow::tailwind::arbitrary_values_from_spans;

#[test]
fn arbitrary_values_from_given_matches() {
    let source = "class=\"w-[10px]\"\nh-[2rem] md:[x]";
    let uses = arbitrary_values_from_spans(source, &vec![(7, 15), (17, 25)]);
    let got: Vec<(&str, u32)> = uses.iter().map(|u| (u.value.as_str(), u.line)).collect();
    assert_eq!(got, vec![("w-[10px]", 1), ("h-[2rem]", 2)]);
    assert!(arbitrary_values_from_spans(source, &Vec::new()).is_empty());
}
