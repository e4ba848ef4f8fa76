//! Decision logic of the language server: document staleness, positions and
//! the text of code lenses and hovers.

pub mod document_state;
pub mod position;
pub mod code_lens;
pub mod hover;
pub mod intel;
pub mod diagnostics;
pub mod diagnostic_filter;
