use fallow::lsp::code_lens::pluralize;
use fallow::lsp::diagnostics::first_line_range;
use fallow::lsp::document_state::{uri_staleness, DocumentSnapshot, DocumentState, Staleness};
use fallow::lsp::hover::intel_pluralize;

#[test]
fn first_line_range_values() {
    let range = first_line_range();
    assert_eq!(range.start.line, 0);
    assert_eq!(range.start.character, 0);
    assert_eq!(range.end.line, 0);
    assert_eq!(range.end.character, u32::MAX);
}

#[test]
fn pluralize_singular_and_plural() {
    assert_eq!(pluralize(1, "reference"), "1 reference");
    assert_eq!(pluralize(0, "reference"), "0 references");
    assert_eq!(pluralize(3, "export"), "3 exports");
    assert_eq!(pluralize(4294967295, "x"), "4294967295 xs");
    assert_eq!(intel_pluralize(1, "prop"), "1 prop");
    assert_eq!(intel_pluralize(12, "prop"), "12 props");
}

fn doc(version: i32) -> DocumentState {
    DocumentState { version, text: String::from("x") }
}

#[test]
fn staleness_follows_versions_and_disk() {
    let snap = DocumentSnapshot { version: 3, matches_disk: true };
    assert_eq!(uri_staleness(Some(snap), Some(&doc(3))), Staleness::Fresh);
    assert_eq!(uri_staleness(Some(snap), Some(&doc(2))), Staleness::Fresh);
    assert_eq!(uri_staleness(Some(snap), Some(&doc(4))), Staleness::Stale);
    let dirty = DocumentSnapshot { version: 3, matches_disk: false };
    assert_eq!(uri_staleness(Some(dirty), Some(&doc(3))), Staleness::Stale);
    assert_eq!(uri_staleness(Some(snap), None), Staleness::Stale);
    assert_eq!(uri_staleness(None, Some(&doc(1))), Staleness::StaleUnlessBufferMatchesDisk);
    assert_eq!(uri_staleness(None, None), Staleness::Fresh);
    assert!(!Staleness::StaleUnlessBufferMatchesDisk.is_stale(true));
    assert!(Staleness::StaleUnlessBufferMatchesDisk.is_stale(false));
    assert!(Staleness::Stale.is_stale(true));
    assert!(!Staleness::Fresh.is_stale(false));
}
