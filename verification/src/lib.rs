//! Verified scanners and decision logic of the fallow static analyzer.

pub mod text;
pub mod template_complexity;
pub mod complexity;
pub mod regex_scan;
pub mod css_classes;
pub mod tailwind;
pub mod security;
pub mod sink_args;
pub mod sink_literals;
pub mod sfc_css;
pub mod sfc_props;
pub mod inventory;
pub mod lsp;
pub mod cache;
pub mod re_exports;
pub mod sveltekit;
