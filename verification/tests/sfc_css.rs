use fallow::sfc_css::{
    blank_ranges, block_escapes_scope, class_token_appears, has_non_css_lang, has_preprocessor_lang,
    has_preprocessor_lang_value, has_scoped_attr, is_identifier_byte, scoped_style_blocks, sfc_preprocessor_virtual_stylesheet,
    sfc_virtual_stylesheet, unused_scoped_classes,
};

fn line_of_first(haystack: &str, needle: &str) -> usize {
    1 + haystack[..haystack.find(needle).unwrap()]
        .bytes()
        .filter(|&b| b == b'\n')
        .count()
}

#[test]
fn virtual_stylesheet_places_rules_at_sfc_lines() {
    let source = "<template>\n  <div/>\n</template>\n<style>\n.a { color: red; }\n</style>";
    let vcss = sfc_virtual_stylesheet(source).expect("has a plain-CSS style block");
    assert_eq!(line_of_first(&vcss, ".a"), line_of_first(source, ".a"), "vcss={vcss:?}");
}

#[test]
fn virtual_stylesheet_none_without_plain_css_block() {
    assert!(sfc_virtual_stylesheet("<template><div/></template>").is_none());
    assert!(
        sfc_virtual_stylesheet("<style lang=\"scss\">.a { .b {} }</style>").is_none(),
        "scss-only SFC yields no virtual stylesheet"
    );
}

#[test]
fn preprocessor_virtual_stylesheet_keeps_sfc_lines() {
    let source = "<template>\n  <div/>\n</template>\n<style lang=\"scss\">\n.a { .b {} }\n</style>";
    let vcss = sfc_preprocessor_virtual_stylesheet(source).expect("has a preprocessor style block");
    assert_eq!(line_of_first(&vcss, ".a"), line_of_first(source, ".a"), "vcss={vcss:?}");
}

#[test]
fn virtual_stylesheet_exact_text_for_two_blocks() {
    let source = "<style>\n.a{}\n</style>\n<p/>\n<style scoped>.b{}</style>";
    assert_eq!(
        sfc_virtual_stylesheet(source).as_deref(),
        Some("\n.a{}\n\n\n.b{}")
    );
    assert_eq!(line_of_first(&sfc_virtual_stylesheet(source).unwrap(), ".b"), 5);
    assert_eq!(line_of_first(source, ".b"), 5);
}

#[test]
fn virtual_stylesheets_split_plain_and_preprocessor_blocks() {
    let source = "<style lang='LESS'>.x{}</style>\n<style>.y{}</style>\n<style lang=\"stylus\">.z{}</style>";
    assert_eq!(sfc_virtual_stylesheet(source).as_deref(), Some("\n.y{}"));
    assert_eq!(sfc_preprocessor_virtual_stylesheet(source).as_deref(), Some(".x{}"));
    assert!(sfc_preprocessor_virtual_stylesheet("<style>.y{}</style>").is_none());
}

#[test]
fn lang_attribute_detection() {
    assert!(has_preprocessor_lang(" lang=\"SCSS\""));
    assert!(has_preprocessor_lang_value(" lang='sass'"));
    assert!(!has_preprocessor_lang_value(" lang='SASS'"));
    assert!(!has_preprocessor_lang(" lang=\"postcss\""));
    assert!(has_non_css_lang(" lang=\"postcss\""));
    assert!(has_non_css_lang(" Lang='Stylus'"));
    assert!(!has_non_css_lang(" scoped"));
}

#[test]
fn scoped_attribute_detection() {
    assert!(has_scoped_attr(" scoped"));
    assert!(has_scoped_attr(" SCOPED lang=\"css\""));
    assert!(has_scoped_attr("\u{a0}Scoped"));
    assert!(has_scoped_attr(" data-x=scoped"));
    assert!(!has_scoped_attr(" data-scoped"));
    assert!(!has_scoped_attr(" scopedx"));
    assert!(!has_scoped_attr(""));
}

#[test]
fn escaping_blocks_are_detected() {
    assert!(block_escapes_scope(":global(.x) {}"));
    assert!(block_escapes_scope(".a :deep(.b) {}"));
    assert!(block_escapes_scope(".a ::v-deep .b {}"));
    assert!(block_escapes_scope(".a /deep/ .b {}"));
    assert!(block_escapes_scope(".a { @apply p-4; }"));
    assert!(!block_escapes_scope(".a { color: red; }"));
}

#[test]
fn blanking_keeps_length_and_skips_bad_ranges() {
    assert_eq!(blank_ranges("ab<style>x</style>cd", &[(2, 18)]), "ab                cd");
    assert_eq!(blank_ranges("abcdef", &[(4, 2), (1, 99), (0, 1)]), " bcdef");
    // Blanking half of a multi-byte character would break UTF-8: the source
    // comes back unchanged.
    assert_eq!(blank_ranges("aé", &[(1, 2)]), "aé");
}

#[test]
fn class_tokens_match_whole_identifiers_only() {
    assert!(class_token_appears("<div class=\"foo bar\">", "foo"));
    assert!(!class_token_appears("<div class=\"foo-bar\">", "foo"));
    assert!(class_token_appears("foo-bar foo", "foo"));
    assert!(!class_token_appears("afoo", "foo"));
    assert!(class_token_appears("foo", "foo"));
    assert!(!class_token_appears("anything", ""));
    assert!(is_identifier_byte(b'-') && is_identifier_byte(b'_') && is_identifier_byte(b'Z'));
    assert!(!is_identifier_byte(b' ') && !is_identifier_byte(b'.'));
}

use fallow::sfc_css::stylesheet_from_blocks;

#[test]
fn stylesheet_from_given_blocks() {
    // `<style>` whole match 10..29, attributes none, body 17..21.
    let source = "<t>\n</t>\n\n<style>.a{}</style>";
    assert_eq!(&source[17..21], ".a{}");
    let caps = vec![vec![Some((10, 29)), None, Some((17, 21))]];
    assert_eq!(stylesheet_from_blocks(source, &caps, false).unwrap(), "\n\n\n.a{}");
    assert_eq!(stylesheet_from_blocks(source, &caps, true), None);
    assert_eq!(stylesheet_from_blocks(source, &Vec::new(), false), None);
}

/// The class selectors of a plain CSS body (`.name` tokens), for the tests.
fn class_selectors(body: &str) -> Vec<String> {
    let bytes = body.as_bytes();
    let mut out = Vec::new();
    let mut i = 0;
    while i < bytes.len() {
        if bytes[i] == b'.' {
            let start = i + 1;
            let mut end = start;
            while end < bytes.len() && is_identifier_byte(bytes[end]) {
                end += 1;
            }
            if end > start {
                out.push(body[start..end].to_string());
            }
            i = end;
        } else {
            i += 1;
        }
    }
    out
}

fn dead_scoped_classes(source: &str) -> Vec<String> {
    let blocks = scoped_style_blocks(source);
    let mut classes = Vec::new();
    for body in &blocks.bodies {
        classes.extend(class_selectors(body));
    }
    unused_scoped_classes(source, &blocks.style_ranges, &classes)
}

#[test]
fn scoped_class_unused_in_markup_is_reported() {
    let dead = dead_scoped_classes(
        "<template><div class=\"used\"></div></template>\n\
         <style scoped>.used { color: red; } .dead { color: blue; }</style>",
    );
    assert_eq!(dead, vec!["dead".to_string()]);
}

#[test]
fn scoped_class_in_dynamic_binding_or_script_counts_as_used() {
    let dead = dead_scoped_classes(
        "<template><div :class=\"{ active: isActive }\"></div></template>\n\
         <style scoped>.active { color: red; }</style>",
    );
    assert!(dead.is_empty(), "got {dead:?}");
    let dead = dead_scoped_classes(
        "<script>const c = \"highlight\";</script>\n\
         <template><div :class=\"c\"></div></template>\n\
         <style scoped>.highlight { color: red; }</style>",
    );
    assert!(dead.is_empty(), "got {dead:?}");
}

#[test]
fn unscoped_escaping_and_scss_blocks_are_not_analyzed() {
    for source in [
        "<button class:selected={on}>x</button>\n<style>.selected { color: red; }</style>",
        "<template><div></div></template>\n<style scoped>:global(.x) { color: red; } .y { color: blue; }</style>",
        "<template><div></div></template>\n<style scoped lang=\"scss\">.dead { color: red; }</style>",
        "<template><div></div></template>\n<style>.dead { color: red; }</style>",
    ] {
        let blocks = scoped_style_blocks(source);
        assert_eq!(blocks.style_ranges.len(), 1);
        assert!(blocks.bodies.is_empty(), "{source}");
        assert!(dead_scoped_classes(source).is_empty(), "{source}");
    }
}

#[test]
fn scoped_class_token_boundary_and_order() {
    let dead = dead_scoped_classes(
        "<template><div class=\"foo-bar\"></div></template>\n\
         <style scoped>.foo { color: red; } .foo-bar { color: blue; }</style>",
    );
    assert_eq!(dead, vec!["foo".to_string()]);
    let source = "<p class=\"b\"></p><style scoped>.z{} .b{} .a{} .z{}</style>";
    let blocks = scoped_style_blocks(source);
    assert_eq!(blocks.style_ranges, vec![(17, source.len())]);
    assert_eq!(blocks.bodies, vec![".z{} .b{} .a{} .z{}".to_string()]);
    let classes = vec!["z".to_string(), "b".to_string(), "a".to_string(), "z".to_string()];
    assert_eq!(
        unused_scoped_classes(source, &blocks.style_ranges, &classes),
        vec!["a".to_string(), "z".to_string()]
    );
}
