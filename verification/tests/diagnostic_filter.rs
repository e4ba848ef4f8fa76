use fallow::lsp::diagnostic_filter::filter_disabled_diagnostics;
use ls_types::{Diagnostic, NumberOrString};

fn diag(message: &str, code: Option<NumberOrString>) -> Diagnostic {
    Diagnostic { message: message.to_string(), code, ..Diagnostic::default() }
}

#[test]
fn disabled_string_codes_are_dropped() {
    let diags = vec![
        diag("a", Some(NumberOrString::String("unused-export".to_string()))),
        diag("b", Some(NumberOrString::Number(7))),
        diag("c", None),
        diag("d", Some(NumberOrString::String("unused-file".to_string()))),
        diag("e", Some(NumberOrString::String("unused-export".to_string()))),
    ];
    let kept = filter_disabled_diagnostics(&diags, &vec!["unused-export".to_string()]);
    let messages: Vec<&str> = kept.iter().map(|d| d.message.as_str()).collect();
    assert_eq!(messages, vec!["b", "c", "d"]);
    assert_eq!(kept[0], diags[1]);
}

#[test]
fn nothing_disabled_keeps_everything() {
    let diags = vec![
        diag("a", Some(NumberOrString::String("x".to_string()))),
        diag("b", None),
    ];
    assert_eq!(filter_disabled_diagnostics(&diags, &Vec::new()), diags);
    // A numeric code is never matched by a disabled string.
    let numeric = vec![diag("n", Some(NumberOrString::Number(1)))];
    assert_eq!(filter_disabled_diagnostics(&numeric, &vec!["1".to_string()]), numeric);
}
