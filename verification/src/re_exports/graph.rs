//! The parts of the module graph that re-export propagation reads and
//! writes: exports, the references attached to them, and the modules that
//! hold them.

use vstd::prelude::*;

verus! {

/// How a reference reached an export.
#[derive(Debug, Clone, Copy, PartialEq, Eq, Structural)]
pub enum ReferenceKind {
    /// A named import (`import { foo } from`).
    NamedImport,
    /// Forwarded through a re-export (`export * from` / `export { foo } from`).
    ReExport,
}

/// A byte span in a source file.
#[derive(Debug, Clone, Copy, PartialEq, Eq, Structural)]
pub struct Span {
    pub start: u32,
    pub end: u32,
}

/// One use of an export by another file.
#[derive(Debug, Clone, Copy, PartialEq, Eq, Structural)]
pub struct SymbolReference {
    /// The file whose import (or re-export) reaches the export.
    pub from_file: u32,
    pub kind: ReferenceKind,
    pub import_span: Span,
}

/// The name of an export: the default export, or a named one.
#[derive(Debug, Clone)]
pub enum ExportName {
    Default,
    Named(String),
}

/// An export's name as text.
pub enum ExportNameView {
    Default,
    Named(Seq<char>),
}

impl View for ExportName {
    type V = ExportNameView;

    open spec fn view(&self) -> ExportNameView {
        match self {
            ExportName::Default => ExportNameView::Default,
            ExportName::Named(n) => ExportNameView::Named(n@),
        }
    }
}

/// The export named `name`: `"default"` names the default export.
pub open spec fn export_name_of(name: Seq<char>) -> ExportNameView {
    if name == "default"@ {
        ExportNameView::Default
    } else {
        ExportNameView::Named(name)
    }
}

/// `name` names this export (`"default"` for the default export).
pub open spec fn name_matches(n: ExportNameView, name: Seq<char>) -> bool {
    match n {
        ExportNameView::Default => name == "default"@,
        ExportNameView::Named(s) => s == name,
    }
}

impl ExportName {
    /// Whether `name` names this export (`"default"` for the default export).
    pub fn matches_str(&self, name: &str) -> (r: bool)
        ensures
            r == name_matches(self@, name@),
    {
        match self {
            ExportName::Default => crate::text::str_eq(name, "default"),
            ExportName::Named(n) => crate::text::str_eq(n.as_str(), name),
        }
    }

    /// A copy of this name.
    pub fn copy_name(&self) -> (r: ExportName)
        ensures
            r@ == self@,
    {
        match self {
            ExportName::Default => ExportName::Default,
            ExportName::Named(n) => ExportName::Named(n.clone()),
        }
    }

    /// The name as text (`"default"` for the default export).
    pub fn name_string(&self) -> (r: String)
        ensures
            r@ == match self@ {
                ExportNameView::Default => "default"@,
                ExportNameView::Named(s) => s,
            },
    {
        match self {
            ExportName::Default => "default".to_owned(),
            ExportName::Named(n) => n.clone(),
        }
    }

    /// Whether two names are the same export name.
    pub fn same_name(&self, other: &ExportName) -> (r: bool)
        ensures
            r == (self@ == other@),
    {
        match (self, other) {
            (ExportName::Default, ExportName::Default) => true,
            (ExportName::Named(a), ExportName::Named(b)) => crate::text::str_eq(a.as_str(), b.as_str()),
            _ => false,
        }
    }

    /// The export named `name` (`"default"` is the default export).
    pub fn from_str_name(name: &str) -> (r: ExportName)
        ensures
            r@ == export_name_of(name@),
    {
        if crate::text::str_eq(name, "default") {
            ExportName::Default
        } else {
            ExportName::Named(name.to_owned())
        }
    }
}

/// An export of a module and the references that use it.
#[derive(Debug, Clone)]
pub struct ExportSymbol {
    pub name: ExportName,
    pub is_type_only: bool,
    pub references: Vec<SymbolReference>,
}

/// An export as values: its name, type-only flag and references.
pub struct ExportView {
    pub name: ExportNameView,
    pub is_type_only: bool,
    pub references: Seq<SymbolReference>,
}

impl View for ExportSymbol {
    type V = ExportView;

    open spec fn view(&self) -> ExportView {
        ExportView { name: self.name@, is_type_only: self.is_type_only, references: self.references@ }
    }
}

/// The exports of a module as values.
pub open spec fn exports_view(exports: Seq<ExportSymbol>) -> Seq<ExportView> {
    exports.map_values(|e: ExportSymbol| e@)
}

/// Some reference in `refs` comes from `file`.
pub open spec fn has_ref_from(refs: Seq<SymbolReference>, file: u32) -> bool {
    exists|k: int| 0 <= k < refs.len() && (#[trigger] refs[k]).from_file == file
}

/// Whether some reference in `refs` comes from `file`.
pub fn refs_contain_file(refs: &Vec<SymbolReference>, file: u32) -> (r: bool)
    ensures
        r == has_ref_from(refs@, file),
{
    let mut k: usize = 0;
    while k < refs.len()
        invariant
            k <= refs@.len(),
            forall|j: int| 0 <= j < k ==> (#[trigger] refs@[j]).from_file != file,
        decreases refs@.len() - k,
    {
        if refs[k].from_file == file {
            return true;
        }
        k = k + 1;
    }
    false
}

/// `export ... from 'source'` of a module: `exported_name` is `*` for a star
/// re-export.
#[derive(Debug, Clone)]
pub struct ReExport {
    pub source_file: u32,
    pub imported_name: String,
    pub exported_name: String,
    pub is_type_only: bool,
}

/// A module of the graph: its file, whether it is an entry point, its
/// exports and its re-exports.
#[derive(Debug, Clone)]
pub struct ModuleNode {
    pub file_id: u32,
    pub entry_point: bool,
    pub exports: Vec<ExportSymbol>,
    pub re_exports: Vec<ReExport>,
}

impl ModuleNode {
    /// Whether the module is an entry point (its exports are consumed from
    /// outside the graph).
    pub fn is_entry_point(&self) -> (r: bool)
        ensures
            r == self.entry_point,
    {
        self.entry_point
    }
}

/// What an import takes from the module it imports.
#[derive(Debug, Clone)]
pub enum ImportedName {
    Named(String),
    Default,
    Namespace,
    SideEffect,
}

/// One binding of an import statement.
#[derive(Debug, Clone)]
pub struct ImportSymbol {
    pub imported_name: ImportedName,
    pub local_name: String,
    pub import_span: Span,
    pub is_type_only: bool,
}

/// An import edge: `source` imports `symbols` from `target`.
#[derive(Debug, Clone)]
pub struct Edge {
    pub source: u32,
    pub target: u32,
    pub symbols: Vec<ImportSymbol>,
}

/// The reference a re-export itself makes: from the barrel, with an empty
/// span.
pub open spec fn re_export_reference(barrel: u32) -> SymbolReference {
    SymbolReference { from_file: barrel, kind: ReferenceKind::ReExport, import_span: Span { start: 0, end: 0 } }
}

} // verus!
