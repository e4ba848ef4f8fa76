//! Propagating references through star re-exports (`export * from`).
//!
//! A star re-export creates no named exports on the barrel; the names other
//! modules import from the barrel are matched against the exports of the
//! source module, and each reference is attached to the matching type and/or
//! value exports. When the source itself forwards through its own
//! `export *`, a synthetic export stands in for the name (once per
//! `(module, name, type-only)`).

use std::collections::{HashMap, HashSet};

use vstd::prelude::*;

use crate::re_exports::attach::{
    decide_barrel_export_attach_targets, decide_named_import_attach_targets, fallback_targets,
    named_import_targets, type_usage, value_usage, ImportBindingUsage,
};
use crate::re_exports::graph::{
    re_export_reference, Edge, ImportedName, ModuleNode, ReferenceKind, Span,
    exports_view, export_name_of, has_ref_from, name_matches, refs_contain_file, ExportName, ExportNameView, ExportSymbol,
    ExportView, SymbolReference,
};

verus! {

broadcast use vstd::std_specs::hash::group_hash_axioms;

// ---------------------------------------------------------------------------
// Attaching one reference
// ---------------------------------------------------------------------------

/// `e` with `r` appended to its references, unless a reference from the same
/// file is already there.
pub open spec fn with_ref(e: ExportView, r: SymbolReference) -> ExportView {
    if has_ref_from(e.references, r.from_file) {
        e
    } else {
        ExportView { name: e.name, is_type_only: e.is_type_only, references: e.references.push(r) }
    }
}

/// `r` attached to every export listed in `indices`.
pub open spec fn attach_to(exports: Seq<ExportView>, indices: Seq<usize>, r: SymbolReference) -> Seq<ExportView> {
    Seq::new(exports.len(), |i: int| if indices.contains(i as usize) { with_ref(exports[i], r) } else { exports[i] })
}

/// Attaching `r` to the listed exports adds a reference to one of them.
pub open spec fn attach_adds(exports: Seq<ExportView>, indices: Seq<usize>, r: SymbolReference) -> bool {
    exists|k: int| 0 <= k < indices.len() && !has_ref_from(exports[#[trigger] indices[k] as int].references, r.from_file)
}

/// Every listed index is an export.
pub open spec fn indices_within(indices: Seq<usize>, len: int) -> bool {
    forall|k: int| 0 <= k < indices.len() ==> (#[trigger] indices[k]) < len
}

/// Attach `reference` to each listed export that has no reference from the
/// same file yet; `true` when any reference was added.
pub fn attach_star_ref_to_exports(exports: &mut Vec<ExportSymbol>, export_indices: &[usize], reference: SymbolReference) -> (r: bool)
    requires
        indices_within(export_indices@, old(exports)@.len() as int),
    ensures
        exports_view(final(exports)@) == attach_to(exports_view(old(exports)@), export_indices@, reference),
        r == attach_adds(exports_view(old(exports)@), export_indices@, reference),
{
    let ghost ev0 = exports_view(exports@);
    let len0 = exports.len();
    let mut changed = false;
    let mut k: usize = 0;
    while k < export_indices.len()
        invariant
            k <= export_indices@.len(),
            exports@.len() == ev0.len(),
            ev0.len() == len0,
            indices_within(export_indices@, ev0.len() as int),
            exports_view(exports@) == attach_to(ev0, export_indices@.subrange(0, k as int), reference),
            changed == attach_adds(ev0, export_indices@.subrange(0, k as int), reference),
        decreases export_indices@.len() - k,
    {
        let idx = export_indices[k];
        let ghost before = exports_view(exports@);
        let ghost done = export_indices@.subrange(0, k as int);
        let ghost next = export_indices@.subrange(0, k + 1);
        proof {
            assert(next =~= done.push(idx));
        }
        if !refs_contain_file(&exports[idx].references, reference.from_file) {
            exports[idx].references.push(reference);
            changed = true;
            proof {
                let now = exports_view(exports@);
                assert forall|i: int| 0 <= i < ev0.len() && i != idx implies now[i] == before[i] by {}
                assert(now[idx as int].references =~= before[idx as int].references.push(reference));
            }
            proof {
                assert(!done.contains(idx)) by {
                    if done.contains(idx) {
                        let j = choose|j: int| 0 <= j < done.len() && done[j] == idx;
                        assert(before[idx as int] == with_ref(ev0[idx as int], reference));
                        assert(has_ref_from(before[idx as int].references, reference.from_file)) by {
                            if !has_ref_from(ev0[idx as int].references, reference.from_file) {
                                let l = ev0[idx as int].references.len() as int;
                                assert(before[idx as int].references[l] == reference);
                            }
                        }
                    }
                }
                assert(before[idx as int] == ev0[idx as int]);
                assert(attach_adds(ev0, next, reference)) by {
                    assert(next[k as int] == idx);
                }
            }
        } else {
            proof {
                assert(exports_view(exports@) == before);
                assert(attach_adds(ev0, next, reference) == attach_adds(ev0, done, reference)) by {
                    if attach_adds(ev0, next, reference) && !attach_adds(ev0, done, reference) {
                        let j = choose|j: int| 0 <= j < next.len() && !has_ref_from(ev0[#[trigger] next[j] as int].references, reference.from_file);
                        assert(j == k);
                        if done.contains(idx) {
                            let i = choose|i: int| 0 <= i < done.len() && done[i] == idx;
                            assert(!has_ref_from(ev0[done[i] as int].references, reference.from_file));
                        } else {
                            assert(before[idx as int] == ev0[idx as int]);
                        }
                    }
                    if attach_adds(ev0, done, reference) {
                        let j = choose|j: int| 0 <= j < done.len() && !has_ref_from(ev0[#[trigger] done[j] as int].references, reference.from_file);
                        assert(next[j] == done[j]);
                    }
                }
            }
        }
        proof {
            let now = exports_view(exports@);
            assert(before[idx as int] == if done.contains(idx) {
                with_ref(ev0[idx as int], reference)
            } else {
                ev0[idx as int]
            });
            assert(now[idx as int] == with_ref(before[idx as int], reference));
            assert(with_ref(with_ref(ev0[idx as int], reference), reference) == with_ref(ev0[idx as int], reference)) by {
                if !has_ref_from(ev0[idx as int].references, reference.from_file) {
                    let l = ev0[idx as int].references.len() as int;
                    assert(with_ref(ev0[idx as int], reference).references[l] == reference);
                }
            }
            assert forall|i: int| 0 <= i < ev0.len() implies now[i] == (if next.contains(i as usize) {
                with_ref(ev0[i], reference)
            } else {
                ev0[i]
            }) by {
                if i != idx {
                    assert(now[i] == before[i]);
                    if next.contains(i as usize) {
                        let j = choose|j: int| 0 <= j < next.len() && next[j] == i as usize;
                        assert(next[k as int] == idx);
                        assert(j != k);
                        assert(done[j] == i as usize);
                        assert(done.contains(i as usize));
                    }
                    if done.contains(i as usize) {
                        let j = choose|j: int| 0 <= j < done.len() && done[j] == i as usize;
                        assert(next[j] == done[j]);
                    }
                } else {
                    assert(next[k as int] == idx);
                    assert(next.contains(i as usize));
                }
            }
            assert(now =~= attach_to(ev0, next, reference));
        }
        k = k + 1;
    }
    proof {
        assert(export_indices@.subrange(0, k as int) =~= export_indices@);
    }
    changed
}

// ---------------------------------------------------------------------------
// Synthetic exports
// ---------------------------------------------------------------------------

#[verifier::external_type_specification]
#[verifier::external_body]
pub struct ExFxBuildHasher(rustc_hash::FxBuildHasher);

/// The `(module, name, type-only)` triples an `FxHashSet` of stubs holds.
pub uninterp spec fn stub_set(s: rustc_hash::FxHashSet<(u32, String, bool)>) -> Set<(u32, Seq<char>, bool)>;

/// An empty `FxHashSet`.
///
/// Trusted: `FxHashSet::default()` (`HashSet::default` with the Fx hasher)
/// holds no element.
#[verifier::external_body]
fn empty_stub_set() -> (r: rustc_hash::FxHashSet<(u32, String, bool)>)
    ensures
        stub_set(r) == Set::<(u32, Seq<char>, bool)>::empty(),
{
    rustc_hash::FxHashSet::default()
}

/// `HashSet::insert` on an `FxHashSet` of stubs.
///
/// Trusted: the set afterwards holds the triple too (tuples and strings
/// compare by value), and `insert` returns whether it was newly inserted.
#[verifier::external_body]
fn insert_stub(set: &mut rustc_hash::FxHashSet<(u32, String, bool)>, key: (u32, String, bool)) -> (r: bool)
    ensures
        stub_set(*final(set)) == stub_set(*old(set)).insert((key.0, key.1@, key.2)),
        r == !stub_set(*old(set)).contains((key.0, key.1@, key.2)),
{
    set.insert(key)
}

/// The `(module, name, type-only)` triples that already received a synthetic
/// export.
pub struct SyntheticStubs {
    entries: rustc_hash::FxHashSet<(u32, String, bool)>,
}

impl View for SyntheticStubs {
    type V = Set<(u32, Seq<char>, bool)>;

    closed spec fn view(&self) -> Set<(u32, Seq<char>, bool)> {
        stub_set(self.entries)
    }
}

impl SyntheticStubs {
    /// No stubs yet.
    pub fn new() -> (r: Self)
        ensures
            r@ == Set::<(u32, Seq<char>, bool)>::empty(),
    {
        SyntheticStubs { entries: empty_stub_set() }
    }

    /// Record `(file, name, is_type_only)`; `true` when it was not recorded yet.
    pub fn insert(&mut self, file: u32, name: &str, is_type_only: bool) -> (r: bool)
        ensures
            r == !old(self)@.contains((file, name@, is_type_only)),
            final(self)@ == old(self)@.insert((file, name@, is_type_only)),
    {
        insert_stub(&mut self.entries, (file, name.to_owned(), is_type_only))
    }
}

/// Push the export `export_name` with `references` onto the source module,
/// unless a synthetic export for `(source_id, name, is_type_only)` was made
/// before; `true` when it was pushed.
pub fn create_synthetic_export(
    exports: &mut Vec<ExportSymbol>,
    source_id: u32,
    name: &str,
    export_name: ExportName,
    is_type_only: bool,
    references: Vec<SymbolReference>,
    synthetic_stubs: &mut SyntheticStubs,
) -> (r: bool)
    ensures
        r == !old(synthetic_stubs)@.contains((source_id, name@, is_type_only)),
        final(synthetic_stubs)@ == old(synthetic_stubs)@.insert((source_id, name@, is_type_only)),
        exports_view(final(exports)@) == if r {
            exports_view(old(exports)@).push(ExportView { name: export_name@, is_type_only, references: references@ })
        } else {
            exports_view(old(exports)@)
        },
{
    if !synthetic_stubs.insert(source_id, name, is_type_only) {
        return false;
    }
    let ghost e = ExportView { name: export_name@, is_type_only, references: references@ };
    exports.push(ExportSymbol { name: export_name, is_type_only, references });
    assert(exports_view(exports@) =~= exports_view(old(exports)@).push(e));
    true
}

/// The synthetic export for `name` with no references yet (see
/// [`create_synthetic_export`]).
pub fn create_empty_synthetic_export(
    exports: &mut Vec<ExportSymbol>,
    source_id: u32,
    name: &str,
    is_type_only: bool,
    synthetic_stubs: &mut SyntheticStubs,
) -> (r: bool)
    ensures
        r == !old(synthetic_stubs)@.contains((source_id, name@, is_type_only)),
        final(synthetic_stubs)@ == old(synthetic_stubs)@.insert((source_id, name@, is_type_only)),
        exports_view(final(exports)@) == if r {
            exports_view(old(exports)@).push(
                ExportView { name: export_name_of(name@), is_type_only, references: Seq::<SymbolReference>::empty() },
            )
        } else {
            exports_view(old(exports)@)
        },
{
    let export_name = ExportName::from_str_name(name);
    let references: Vec<SymbolReference> = Vec::new();
    create_synthetic_export(exports, source_id, name, export_name, is_type_only, references, synthetic_stubs)
}

// ---------------------------------------------------------------------------
// Star references
// ---------------------------------------------------------------------------

/// Where a reference propagating through a star re-export came from.
#[derive(Debug, Clone)]
pub enum StarReferenceOrigin {
    /// A named import from the barrel, with its local binding.
    NamedImport { local_name: String, is_type_only: bool },
    /// A reference already attached to one of the barrel's own exports.
    BarrelExport { is_type_only: bool },
}

/// A reference that must propagate through a star re-export.
#[derive(Debug, Clone)]
pub struct StarReference {
    pub reference: SymbolReference,
    pub origin: StarReferenceOrigin,
}

/// The binding usage recorded for `file`, if any.
pub open spec fn module_of(modules: Map<u32, ImportBindingUsage>, file: u32) -> Option<ImportBindingUsage> {
    if modules.contains_key(file) {
        Some(modules[file])
    } else {
        None
    }
}

/// Which of the type / value exports a star reference attaches to: with a
/// type-only triggering re-export, the type exports if any; otherwise as its
/// origin decides (see [`named_import_targets`] and [`fallback_targets`]).
pub open spec fn star_targets(
    sr: StarReference,
    modules: Map<u32, ImportBindingUsage>,
    has_type_exports: bool,
    has_value_exports: bool,
    triggering_is_type_only: bool,
) -> (bool, bool) {
    if triggering_is_type_only {
        (has_type_exports, false)
    } else {
        match sr.origin {
            StarReferenceOrigin::NamedImport { local_name, is_type_only } => named_import_targets(
                is_type_only,
                has_type_exports,
                has_value_exports,
                type_usage(module_of(modules, sr.reference.from_file), local_name@),
                value_usage(module_of(modules, sr.reference.from_file), local_name@),
            ),
            StarReferenceOrigin::BarrelExport { is_type_only } => fallback_targets(
                is_type_only,
                has_type_exports,
                has_value_exports,
            ),
        }
    }
}

impl StarReference {
    /// Which of the type / value exports this reference attaches to (see
    /// [`star_targets`]).
    pub fn attach_targets(
        &self,
        module_by_id: &HashMap<u32, ImportBindingUsage>,
        has_type_exports: bool,
        has_value_exports: bool,
        triggering_is_type_only: bool,
    ) -> (r: (bool, bool))
        ensures
            r == star_targets(*self, module_by_id@, has_type_exports, has_value_exports, triggering_is_type_only),
    {
        if triggering_is_type_only {
            return (has_type_exports, false);
        }
        match &self.origin {
            StarReferenceOrigin::NamedImport { local_name, is_type_only } => {
                let m = module_by_id.get(&self.reference.from_file);
                proof {
                    assert(crate::re_exports::attach::usage_of(m) == module_of(module_by_id@, self.reference.from_file));
                }
                decide_named_import_attach_targets(
                    m,
                    local_name.as_str(),
                    *is_type_only,
                    has_type_exports,
                    has_value_exports,
                )
            },
            StarReferenceOrigin::BarrelExport { is_type_only } => {
                decide_barrel_export_attach_targets(*is_type_only, has_type_exports, has_value_exports)
            },
        }
    }
}

// ---------------------------------------------------------------------------
// Attaching the references of one name to the matching exports
// ---------------------------------------------------------------------------

/// The listed exports whose type-only flag is `type_only`, in order.
pub open spec fn kind_indices(ex: Seq<ExportView>, matching: Seq<usize>, type_only: bool) -> Seq<usize>
    decreases matching.len(),
{
    if matching.len() == 0 {
        seq![]
    } else {
        let prev = kind_indices(ex, matching.drop_last(), type_only);
        if ex[matching.last() as int].is_type_only == type_only {
            prev.push(matching.last())
        } else {
            prev
        }
    }
}

/// Whether any of the references attaches to type exports, and whether any
/// attaches to value exports.
pub open spec fn any_targets(
    refs: Seq<StarReference>,
    modules: Map<u32, ImportBindingUsage>,
    has_type_exports: bool,
    has_value_exports: bool,
    triggering_is_type_only: bool,
) -> (bool, bool)
    decreases refs.len(),
{
    if refs.len() == 0 {
        (false, false)
    } else {
        let prev = any_targets(refs.drop_last(), modules, has_type_exports, has_value_exports, triggering_is_type_only);
        let t = star_targets(refs.last(), modules, has_type_exports, has_value_exports, triggering_is_type_only);
        (prev.0 || t.0, prev.1 || t.1)
    }
}

/// The first export at or after `i` named `name` with the given type-only
/// flag.
pub open spec fn first_named_from(ex: Seq<ExportView>, name: Seq<char>, type_only: bool, i: int) -> Option<int>
    decreases ex.len() - i,
{
    if i < 0 || i >= ex.len() {
        None
    } else if name_matches(ex[i].name, name) && ex[i].is_type_only == type_only {
        Some(i)
    } else {
        first_named_from(ex, name, type_only, i + 1)
    }
}

proof fn lemma_first_named_bounds(ex: Seq<ExportView>, name: Seq<char>, type_only: bool, i: int)
    requires
        0 <= i,
    ensures
        first_named_from(ex, name, type_only, i) matches Some(j) ==> i <= j < ex.len(),
    decreases ex.len() - i,
{
    if i < ex.len() && !(name_matches(ex[i].name, name) && ex[i].is_type_only == type_only) {
        lemma_first_named_bounds(ex, name, type_only, i + 1);
    }
}

/// When references need an export of one kind (type or value) that the
/// source lacks and the source can synthesize one, the synthetic export is
/// created and its index added to the kind's list. Returns the exports, the
/// stubs, the list and whether a synthetic export was pushed.
pub open spec fn synthesize_kind(
    ex: Seq<ExportView>,
    stubs: Set<(u32, Seq<char>, bool)>,
    source_id: u32,
    name: Seq<char>,
    type_only: bool,
    needed: bool,
    list: Seq<usize>,
    can_synthesize: bool,
) -> (Seq<ExportView>, Set<(u32, Seq<char>, bool)>, Seq<usize>, bool) {
    if needed && list.len() == 0 && can_synthesize {
        let key = (source_id, name, type_only);
        let pushed = !stubs.contains(key);
        let ex2 = if pushed {
            ex.push(ExportView { name: export_name_of(name), is_type_only: type_only, references: Seq::empty() })
        } else {
            ex
        };
        let list2 = match first_named_from(ex2, name, type_only, 0) {
            Some(i) => list.push(i as usize),
            None => list,
        };
        (ex2, stubs.insert(key), list2, pushed)
    } else {
        (ex, stubs, list, false)
    }
}

/// Attach the first `k` references to the type / value export lists as each
/// one's targets decide; the exports and whether anything was added.
pub open spec fn attach_all(
    ex: Seq<ExportView>,
    refs: Seq<StarReference>,
    k: int,
    type_list: Seq<usize>,
    value_list: Seq<usize>,
    modules: Map<u32, ImportBindingUsage>,
    triggering_is_type_only: bool,
) -> (Seq<ExportView>, bool)
    decreases k,
{
    if k <= 0 {
        (ex, false)
    } else {
        let prev = attach_all(ex, refs, k - 1, type_list, value_list, modules, triggering_is_type_only);
        let sr = refs[k - 1];
        let t = star_targets(sr, modules, type_list.len() > 0, value_list.len() > 0, triggering_is_type_only);
        let ex1 = if t.0 {
            attach_to(prev.0, type_list, sr.reference)
        } else {
            prev.0
        };
        let ex2 = if t.1 {
            attach_to(ex1, value_list, sr.reference)
        } else {
            ex1
        };
        (ex2, prev.1 || (t.0 && attach_adds(prev.0, type_list, sr.reference)) || (t.1 && attach_adds(ex1, value_list, sr.reference)))
    }
}

/// The references of one re-exported name attached to the source's matching
/// exports: the matching exports are split into type and value exports; the
/// kinds the references need are computed as if the source could provide
/// synthetic exports when it forwards via its own `export *`; missing kinds
/// are synthesized; then each reference attaches to the kinds its targets
/// decide. Returns the exports, the stubs and whether anything changed.
pub open spec fn matching_result(
    ex: Seq<ExportView>,
    stubs: Set<(u32, Seq<char>, bool)>,
    source_id: u32,
    name: Seq<char>,
    refs: Seq<StarReference>,
    modules: Map<u32, ImportBindingUsage>,
    triggering_is_type_only: bool,
    can_synthesize: bool,
    matching: Seq<usize>,
) -> (Seq<ExportView>, Set<(u32, Seq<char>, bool)>, bool) {
    let type_list = kind_indices(ex, matching, true);
    let value_list = kind_indices(ex, matching, false);
    let eff_type = type_list.len() > 0 || can_synthesize;
    let eff_value = value_list.len() > 0 || (can_synthesize && !triggering_is_type_only);
    let need = any_targets(refs, modules, eff_type, eff_value, triggering_is_type_only);
    let s1 = synthesize_kind(ex, stubs, source_id, name, true, need.0, type_list, can_synthesize);
    let s2 = synthesize_kind(s1.0, s1.1, source_id, name, false, need.1, value_list, can_synthesize);
    let a = attach_all(s2.0, refs, refs.len() as int, s1.2, s2.2, modules, triggering_is_type_only);
    (a.0, s2.1, s1.3 || s2.3 || a.1)
}

fn collect_kind_indices(exports: &Vec<ExportSymbol>, matching: &[usize], type_only: bool) -> (r: Vec<usize>)
    requires
        indices_within(matching@, exports@.len() as int),
    ensures
        r@ == kind_indices(exports_view(exports@), matching@, type_only),
        indices_within(r@, exports@.len() as int),
{
    let ghost ev = exports_view(exports@);
    let mut out: Vec<usize> = Vec::new();
    let mut k: usize = 0;
    while k < matching.len()
        invariant
            k <= matching@.len(),
            indices_within(matching@, exports@.len() as int),
            ev == exports_view(exports@),
            out@ == kind_indices(ev, matching@.subrange(0, k as int), type_only),
            indices_within(out@, exports@.len() as int),
        decreases matching@.len() - k,
    {
        let idx = matching[k];
        proof {
            assert(matching@.subrange(0, k + 1).drop_last() =~= matching@.subrange(0, k as int));
        }
        if exports[idx].is_type_only == type_only {
            out.push(idx);
        }
        k = k + 1;
    }
    assert(matching@.subrange(0, k as int) =~= matching@);
    out
}

fn collect_any_targets(
    refs: &[StarReference],
    module_by_id: &HashMap<u32, ImportBindingUsage>,
    has_type_exports: bool,
    has_value_exports: bool,
    triggering_is_type_only: bool,
) -> (r: (bool, bool))
    ensures
        r == any_targets(refs@, module_by_id@, has_type_exports, has_value_exports, triggering_is_type_only),
{
    let mut needs_type = false;
    let mut needs_value = false;
    let mut k: usize = 0;
    while k < refs.len()
        invariant
            k <= refs@.len(),
            (needs_type, needs_value) == any_targets(
                refs@.subrange(0, k as int),
                module_by_id@,
                has_type_exports,
                has_value_exports,
                triggering_is_type_only,
            ),
        decreases refs@.len() - k,
    {
        let (t, v) = refs[k].attach_targets(module_by_id, has_type_exports, has_value_exports, triggering_is_type_only);
        proof {
            assert(refs@.subrange(0, k + 1).drop_last() =~= refs@.subrange(0, k as int));
        }
        needs_type = needs_type || t;
        needs_value = needs_value || v;
        k = k + 1;
    }
    assert(refs@.subrange(0, k as int) =~= refs@);
    (needs_type, needs_value)
}

fn position_named(exports: &Vec<ExportSymbol>, name: &str, type_only: bool) -> (r: Option<usize>)
    ensures
        match first_named_from(exports_view(exports@), name@, type_only, 0) {
            Some(i) => r == Some(i as usize),
            None => r is None,
        },
{
    let ghost ev = exports_view(exports@);
    let mut i: usize = 0;
    while i < exports.len()
        invariant
            i <= exports@.len(),
            ev == exports_view(exports@),
            first_named_from(ev, name@, type_only, 0) == first_named_from(ev, name@, type_only, i as int),
        decreases exports@.len() - i,
    {
        if exports[i].name.matches_str(name) && exports[i].is_type_only == type_only {
            return Some(i);
        }
        i = i + 1;
    }
    None
}

/// Attach the references of one re-exported name to the source module's
/// exports of that name (see [`matching_result`]); `true` when any export or
/// reference was added.
pub fn apply_star_refs_to_matching_exports(
    exports: &mut Vec<ExportSymbol>,
    name: &str,
    refs: &[StarReference],
    source_id: u32,
    module_by_id: &HashMap<u32, ImportBindingUsage>,
    triggering_is_type_only: bool,
    source_has_star_re_exports: bool,
    matching_exports: &[usize],
    synthetic_stubs: &mut SyntheticStubs,
) -> (r: bool)
    requires
        indices_within(matching_exports@, old(exports)@.len() as int),
    ensures
        (exports_view(final(exports)@), final(synthetic_stubs)@, r) == matching_result(
            exports_view(old(exports)@),
            old(synthetic_stubs)@,
            source_id,
            name@,
            refs@,
            module_by_id@,
            triggering_is_type_only,
            source_has_star_re_exports,
            matching_exports@,
        ),
{
    let ghost ex0 = exports_view(exports@);
    let ghost st0 = synthetic_stubs@;
    let mut type_exports = collect_kind_indices(exports, matching_exports, true);
    let mut value_exports = collect_kind_indices(exports, matching_exports, false);
    let mut changed = false;
    let can_synthesize = source_has_star_re_exports;
    let effective_has_type_exports = type_exports.len() > 0 || can_synthesize;
    let effective_has_value_exports = value_exports.len() > 0 || (can_synthesize && !triggering_is_type_only);
    let (needs_type_export, needs_value_export) = collect_any_targets(
        refs,
        module_by_id,
        effective_has_type_exports,
        effective_has_value_exports,
        triggering_is_type_only,
    );
    let ghost need = (needs_type_export, needs_value_export);
    let ghost s1 = synthesize_kind(ex0, st0, source_id, name@, true, need.0, type_exports@, can_synthesize);
    if needs_type_export && type_exports.len() == 0 && can_synthesize {
        let pushed = create_empty_synthetic_export(exports, source_id, name, true, synthetic_stubs);
        changed = changed || pushed;
        proof {
            lemma_first_named_bounds(exports_view(exports@), name@, true, 0);
        }
        match position_named(exports, name, true) {
            Some(idx) => type_exports.push(idx),
            None => {},
        }
    }
    assert(indices_within(type_exports@, exports@.len() as int));
    assert(exports_view(exports@) == s1.0 && synthetic_stubs@ == s1.1 && type_exports@ == s1.2 && changed == s1.3);
    let ghost s2 = synthesize_kind(s1.0, s1.1, source_id, name@, false, need.1, value_exports@, can_synthesize);
    if needs_value_export && value_exports.len() == 0 && can_synthesize {
        let pushed = create_empty_synthetic_export(exports, source_id, name, false, synthetic_stubs);
        changed = changed || pushed;
        proof {
            lemma_first_named_bounds(exports_view(exports@), name@, false, 0);
        }
        match position_named(exports, name, false) {
            Some(idx) => value_exports.push(idx),
            None => {},
        }
    }
    assert(indices_within(type_exports@, exports@.len() as int));
    assert(indices_within(value_exports@, exports@.len() as int));
    assert(exports_view(exports@) == s2.0 && synthetic_stubs@ == s2.1 && value_exports@ == s2.2);
    let ghost synth_changed = changed;
    let ghost ex2 = exports_view(exports@);
    let mut k: usize = 0;
    while k < refs.len()
        invariant
            k <= refs@.len(),
            exports@.len() == ex2.len(),
            indices_within(type_exports@, ex2.len() as int),
            indices_within(value_exports@, ex2.len() as int),
            (exports_view(exports@), changed) == ({
                let a = attach_all(ex2, refs@, k as int, type_exports@, value_exports@, module_by_id@, triggering_is_type_only);
                (a.0, synth_changed || a.1)
            }),
            synthetic_stubs@ == s2.1,
        decreases refs@.len() - k,
    {
        let sr = &refs[k];
        let (attach_type_exports, attach_value_exports) = sr.attach_targets(
            module_by_id,
            type_exports.len() > 0,
            value_exports.len() > 0,
            triggering_is_type_only,
        );
        if attach_type_exports {
            let added = attach_star_ref_to_exports(exports, type_exports.as_slice(), sr.reference);
            changed = changed || added;
            assert(exports@.len() == exports_view(exports@).len());
        }
        if attach_value_exports {
            let added = attach_star_ref_to_exports(exports, value_exports.as_slice(), sr.reference);
            changed = changed || added;
            assert(exports@.len() == exports_view(exports@).len());
        }
        k = k + 1;
    }
    changed
}

// ---------------------------------------------------------------------------
// Synthetic exports for forwarded names, and the per-name entry point
// ---------------------------------------------------------------------------

/// The references (in order) whose targets, with a type export and a value
/// export assumed available unless the triggering re-export is type-only,
/// include the type side (`type_side`) or the value side.
pub open spec fn refs_targeting(
    refs: Seq<StarReference>,
    modules: Map<u32, ImportBindingUsage>,
    triggering_is_type_only: bool,
    type_side: bool,
) -> Seq<SymbolReference>
    decreases refs.len(),
{
    if refs.len() == 0 {
        seq![]
    } else {
        let prev = refs_targeting(refs.drop_last(), modules, triggering_is_type_only, type_side);
        let t = star_targets(refs.last(), modules, true, !triggering_is_type_only, triggering_is_type_only);
        if (if type_side {
            t.0
        } else {
            t.1
        }) {
            prev.push(refs.last().reference)
        } else {
            prev
        }
    }
}

/// Push a synthetic export of one kind carrying `references`, unless none
/// are given or the stub was made before.
pub open spec fn synthesize_with(
    ex: Seq<ExportView>,
    stubs: Set<(u32, Seq<char>, bool)>,
    source_id: u32,
    name: Seq<char>,
    export_name: ExportNameView,
    type_only: bool,
    references: Seq<SymbolReference>,
) -> (Seq<ExportView>, Set<(u32, Seq<char>, bool)>, bool) {
    if references.len() == 0 {
        (ex, stubs, false)
    } else {
        let key = (source_id, name, type_only);
        if stubs.contains(key) {
            (ex, stubs, false)
        } else {
            (ex.push(ExportView { name: export_name, is_type_only: type_only, references }), stubs.insert(key), true)
        }
    }
}

/// The synthetic exports a source without the name gets when it forwards
/// through its own `export *`: one type export with the references that
/// target types, one value export with those that target values.
pub open spec fn synthetic_for_refs(
    ex: Seq<ExportView>,
    stubs: Set<(u32, Seq<char>, bool)>,
    source_id: u32,
    name: Seq<char>,
    export_name: ExportNameView,
    refs: Seq<StarReference>,
    modules: Map<u32, ImportBindingUsage>,
    triggering_is_type_only: bool,
) -> (Seq<ExportView>, Set<(u32, Seq<char>, bool)>, bool) {
    let s1 = synthesize_with(ex, stubs, source_id, name, export_name, true, refs_targeting(refs, modules, triggering_is_type_only, true));
    let s2 = synthesize_with(s1.0, s1.1, source_id, name, export_name, false, refs_targeting(refs, modules, triggering_is_type_only, false));
    (s2.0, s2.1, s1.2 || s2.2)
}

fn collect_refs_targeting(
    refs: &[StarReference],
    module_by_id: &HashMap<u32, ImportBindingUsage>,
    triggering_is_type_only: bool,
    type_side: bool,
) -> (r: Vec<SymbolReference>)
    ensures
        r@ == refs_targeting(refs@, module_by_id@, triggering_is_type_only, type_side),
{
    let mut out: Vec<SymbolReference> = Vec::new();
    let mut k: usize = 0;
    while k < refs.len()
        invariant
            k <= refs@.len(),
            out@ == refs_targeting(refs@.subrange(0, k as int), module_by_id@, triggering_is_type_only, type_side),
        decreases refs@.len() - k,
    {
        let (t, v) = refs[k].attach_targets(module_by_id, true, !triggering_is_type_only, triggering_is_type_only);
        proof {
            assert(refs@.subrange(0, k + 1).drop_last() =~= refs@.subrange(0, k as int));
        }
        if (type_side && t) || (!type_side && v) {
            out.push(refs[k].reference);
        }
        k = k + 1;
    }
    assert(refs@.subrange(0, k as int) =~= refs@);
    out
}

/// Create the synthetic type / value exports for a name the source lacks
/// (see [`synthetic_for_refs`]); `true` when any was pushed.
pub fn create_synthetic_exports_for_refs(
    exports: &mut Vec<ExportSymbol>,
    name: &str,
    export_name: ExportName,
    refs: &[StarReference],
    source_id: u32,
    module_by_id: &HashMap<u32, ImportBindingUsage>,
    triggering_is_type_only: bool,
    synthetic_stubs: &mut SyntheticStubs,
) -> (r: bool)
    ensures
        (exports_view(final(exports)@), final(synthetic_stubs)@, r) == synthetic_for_refs(
            exports_view(old(exports)@),
            old(synthetic_stubs)@,
            source_id,
            name@,
            export_name@,
            refs@,
            module_by_id@,
            triggering_is_type_only,
        ),
{
    let type_refs = collect_refs_targeting(refs, module_by_id, triggering_is_type_only, true);
    let value_refs = collect_refs_targeting(refs, module_by_id, triggering_is_type_only, false);
    let mut changed = false;
    if type_refs.len() > 0 {
        let pushed = create_synthetic_export(
            exports,
            source_id,
            name,
            export_name.copy_name(),
            true,
            type_refs,
            synthetic_stubs,
        );
        changed = changed || pushed;
    }
    if value_refs.len() > 0 {
        let pushed = create_synthetic_export(exports, source_id, name, export_name, false, value_refs, synthetic_stubs);
        changed = changed || pushed;
    }
    changed
}

/// The exports among the first `k` named exactly `target`.
pub open spec fn named_indices(ex: Seq<ExportView>, target: ExportNameView, k: int) -> Seq<usize>
    decreases k,
{
    if k <= 0 {
        seq![]
    } else {
        let prev = named_indices(ex, target, k - 1);
        if ex[k - 1].name == target {
            prev.push((k - 1) as usize)
        } else {
            prev
        }
    }
}

/// The effect of attaching the references of one re-exported name to the
/// source module: to its exports of that name when there are some; else to
/// synthetic exports when it forwards via its own `export *`; else nothing.
pub open spec fn source_result(
    ex: Seq<ExportView>,
    stubs: Set<(u32, Seq<char>, bool)>,
    source_id: u32,
    name: Seq<char>,
    refs: Seq<StarReference>,
    modules: Map<u32, ImportBindingUsage>,
    triggering_is_type_only: bool,
    source_has_star_re_exports: bool,
) -> (Seq<ExportView>, Set<(u32, Seq<char>, bool)>, bool) {
    let matching = named_indices(ex, export_name_of(name), ex.len() as int);
    if matching.len() > 0 {
        matching_result(ex, stubs, source_id, name, refs, modules, triggering_is_type_only, source_has_star_re_exports, matching)
    } else if source_has_star_re_exports {
        synthetic_for_refs(ex, stubs, source_id, name, export_name_of(name), refs, modules, triggering_is_type_only)
    } else {
        (ex, stubs, false)
    }
}

/// Attach the collected references for one re-exported name to the source
/// module (see [`source_result`]); `true` when any export or reference was
/// added.
pub fn apply_star_refs_to_source(
    exports: &mut Vec<ExportSymbol>,
    name: &str,
    refs: &[StarReference],
    source_id: u32,
    module_by_id: &HashMap<u32, ImportBindingUsage>,
    triggering_is_type_only: bool,
    source_has_star_re_exports: bool,
    synthetic_stubs: &mut SyntheticStubs,
) -> (r: bool)
    ensures
        (exports_view(final(exports)@), final(synthetic_stubs)@, r) == source_result(
            exports_view(old(exports)@),
            old(synthetic_stubs)@,
            source_id,
            name@,
            refs@,
            module_by_id@,
            triggering_is_type_only,
            source_has_star_re_exports,
        ),
{
    let export_name = ExportName::from_str_name(name);
    let ghost ev = exports_view(exports@);
    let mut matching_exports: Vec<usize> = Vec::new();
    let mut i: usize = 0;
    while i < exports.len()
        invariant
            i <= exports@.len(),
            ev == exports_view(exports@),
            export_name@ == export_name_of(name@),
            matching_exports@ == named_indices(ev, export_name@, i as int),
            indices_within(matching_exports@, i as int),
        decreases exports@.len() - i,
    {
        if exports[i].name.same_name(&export_name) {
            matching_exports.push(i);
        }
        i = i + 1;
    }
    if matching_exports.len() > 0 {
        apply_star_refs_to_matching_exports(
            exports,
            name,
            refs,
            source_id,
            module_by_id,
            triggering_is_type_only,
            source_has_star_re_exports,
            matching_exports.as_slice(),
            synthetic_stubs,
        )
    } else if source_has_star_re_exports {
        create_synthetic_exports_for_refs(
            exports,
            name,
            export_name,
            refs,
            source_id,
            module_by_id,
            triggering_is_type_only,
            synthetic_stubs,
        )
    } else {
        false
    }
}

// ---------------------------------------------------------------------------
// Entry points and named re-exports
// ---------------------------------------------------------------------------

/// The exports that are not the default export.
pub open spec fn non_default_indices(ex: Seq<ExportView>, k: int) -> Seq<usize>
    decreases k,
{
    if k <= 0 {
        seq![]
    } else {
        let prev = non_default_indices(ex, k - 1);
        if ex[k - 1].name is Default {
            prev
        } else {
            prev.push((k - 1) as usize)
        }
    }
}

/// The exports that `name` names.
pub open spec fn indices_named(ex: Seq<ExportView>, name: Seq<char>, k: int) -> Seq<usize>
    decreases k,
{
    if k <= 0 {
        seq![]
    } else {
        let prev = indices_named(ex, name, k - 1);
        if name_matches(ex[k - 1].name, name) {
            prev.push((k - 1) as usize)
        } else {
            prev
        }
    }
}

fn collect_non_default(exports: &Vec<ExportSymbol>) -> (r: Vec<usize>)
    ensures
        r@ == non_default_indices(exports_view(exports@), exports@.len() as int),
        indices_within(r@, exports@.len() as int),
{
    let ghost ev = exports_view(exports@);
    let mut out: Vec<usize> = Vec::new();
    let mut i: usize = 0;
    while i < exports.len()
        invariant
            i <= exports@.len(),
            ev == exports_view(exports@),
            out@ == non_default_indices(ev, i as int),
            indices_within(out@, i as int),
        decreases exports@.len() - i,
    {
        let is_default = match exports[i].name {
            ExportName::Default => true,
            ExportName::Named(_) => false,
        };
        if !is_default {
            out.push(i);
        }
        i = i + 1;
    }
    out
}

fn collect_named(exports: &Vec<ExportSymbol>, name: &str) -> (r: Vec<usize>)
    ensures
        r@ == indices_named(exports_view(exports@), name@, exports@.len() as int),
        indices_within(r@, exports@.len() as int),
{
    let ghost ev = exports_view(exports@);
    let mut out: Vec<usize> = Vec::new();
    let mut i: usize = 0;
    while i < exports.len()
        invariant
            i <= exports@.len(),
            ev == exports_view(exports@),
            out@ == indices_named(ev, name@, i as int),
            indices_within(out@, i as int),
        decreases exports@.len() - i,
    {
        if exports[i].name.matches_str(name) {
            out.push(i);
        }
        i = i + 1;
    }
    out
}

fn re_export_ref(barrel_id: u32) -> (r: SymbolReference)
    ensures
        r == re_export_reference(barrel_id),
{
    SymbolReference { from_file: barrel_id, kind: ReferenceKind::ReExport, import_span: Span { start: 0, end: 0 } }
}

/// An entry-point barrel's `export *`: every non-default export of the source
/// gets a re-export reference from the barrel (once); `true` when any was
/// added.
pub fn propagate_entry_point_star(exports: &mut Vec<ExportSymbol>, barrel_id: u32) -> (r: bool)
    ensures
        exports_view(final(exports)@) == attach_to(
            exports_view(old(exports)@),
            non_default_indices(exports_view(old(exports)@), old(exports)@.len() as int),
            re_export_reference(barrel_id),
        ),
        r == attach_adds(
            exports_view(old(exports)@),
            non_default_indices(exports_view(old(exports)@), old(exports)@.len() as int),
            re_export_reference(barrel_id),
        ),
{
    let targets = collect_non_default(exports);
    attach_star_ref_to_exports(exports, targets.as_slice(), re_export_ref(barrel_id))
}

/// An entry-point barrel's named re-export with no consumers in the graph:
/// the source's exports named `imported_name` get a re-export reference from
/// the barrel (once); `true` when any was added.
pub fn propagate_entry_point_named(exports: &mut Vec<ExportSymbol>, barrel_id: u32, imported_name: &str) -> (r: bool)
    ensures
        exports_view(final(exports)@) == attach_to(
            exports_view(old(exports)@),
            indices_named(exports_view(old(exports)@), imported_name@, old(exports)@.len() as int),
            re_export_reference(barrel_id),
        ),
        r == attach_adds(
            exports_view(old(exports)@),
            indices_named(exports_view(old(exports)@), imported_name@, old(exports)@.len() as int),
            re_export_reference(barrel_id),
        ),
{
    let targets = collect_named(exports, imported_name);
    attach_star_ref_to_exports(exports, targets.as_slice(), re_export_ref(barrel_id))
}

/// The references on the exports named `name`, in order.
pub open spec fn barrel_refs(ex: Seq<ExportView>, name: Seq<char>, k: int) -> Seq<SymbolReference>
    decreases k,
{
    if k <= 0 {
        seq![]
    } else {
        let prev = barrel_refs(ex, name, k - 1);
        if name_matches(ex[k - 1].name, name) {
            prev + ex[k - 1].references
        } else {
            prev
        }
    }
}

/// The incoming references whose file has no reference in `existing`, in
/// order (several from one such file all pass).
pub open spec fn new_refs(existing: Seq<SymbolReference>, incoming: Seq<SymbolReference>) -> Seq<SymbolReference>
    decreases incoming.len(),
{
    if incoming.len() == 0 {
        seq![]
    } else {
        let prev = new_refs(existing, incoming.drop_last());
        if has_ref_from(existing, incoming.last().from_file) {
            prev
        } else {
            prev.push(incoming.last())
        }
    }
}

/// Every export named `name` receives the incoming references from files it
/// has no reference from yet.
pub open spec fn merge_named(ex: Seq<ExportView>, name: Seq<char>, incoming: Seq<SymbolReference>) -> Seq<ExportView> {
    Seq::new(
        ex.len(),
        |i: int|
            if name_matches(ex[i].name, name) {
                ExportView {
                    name: ex[i].name,
                    is_type_only: ex[i].is_type_only,
                    references: ex[i].references + new_refs(ex[i].references, incoming),
                }
            } else {
                ex[i]
            },
    )
}

/// Merging adds a reference to some export.
pub open spec fn merge_adds(ex: Seq<ExportView>, name: Seq<char>, incoming: Seq<SymbolReference>) -> bool {
    exists|i: int| 0 <= i < ex.len() && name_matches(ex[i].name, name) && #[trigger] new_refs(ex[i].references, incoming).len() > 0
}

/// The source module's exports after propagating `export { exported as ... }
/// from source` (importing `imported`) from the barrel, and whether anything
/// was added: the references on the barrel's exports named `exported` reach
/// the source's exports named `imported`; with none, an entry-point barrel
/// still marks those exports used by a re-export reference.
pub open spec fn named_result(
    barrel: ModuleNode,
    source_exports: Seq<ExportView>,
    barrel_id: u32,
    imported: Seq<char>,
    exported: Seq<char>,
) -> (Seq<ExportView>, bool) {
    let incoming = barrel_refs(exports_view(barrel.exports@), exported, barrel.exports@.len() as int);
    if incoming.len() == 0 {
        if barrel.entry_point {
            let targets = indices_named(source_exports, imported, source_exports.len() as int);
            (
                attach_to(source_exports, targets, re_export_reference(barrel_id)),
                attach_adds(source_exports, targets, re_export_reference(barrel_id)),
            )
        } else {
            (source_exports, false)
        }
    } else {
        (merge_named(source_exports, imported, incoming), merge_adds(source_exports, imported, incoming))
    }
}

fn collect_barrel_refs(exports: &Vec<ExportSymbol>, name: &str) -> (r: Vec<SymbolReference>)
    ensures
        r@ == barrel_refs(exports_view(exports@), name@, exports@.len() as int),
{
    let ghost ev = exports_view(exports@);
    let mut out: Vec<SymbolReference> = Vec::new();
    let mut i: usize = 0;
    while i < exports.len()
        invariant
            i <= exports@.len(),
            ev == exports_view(exports@),
            out@ == barrel_refs(ev, name@, i as int),
        decreases exports@.len() - i,
    {
        if exports[i].name.matches_str(name) {
            let refs = &exports[i].references;
            let ghost base = out@;
            let mut k: usize = 0;
            while k < refs.len()
                invariant
                    k <= refs@.len(),
                    out@ == base + refs@.subrange(0, k as int),
                decreases refs@.len() - k,
            {
                out.push(refs[k]);
                assert(base + refs@.subrange(0, k + 1) =~= (base + refs@.subrange(0, k as int)).push(refs@[k as int]));
                k = k + 1;
            }
            assert(refs@.subrange(0, k as int) =~= refs@);
        }
        i = i + 1;
    }
    out
}

/// Whether one of the first `n` references comes from `file`.
fn prefix_has_file(refs: &Vec<SymbolReference>, n: usize, file: u32) -> (r: bool)
    requires
        n <= refs@.len(),
    ensures
        r == has_ref_from(refs@.subrange(0, n as int), file),
{
    let mut k: usize = 0;
    while k < n
        invariant
            k <= n <= refs@.len(),
            forall|j: int| 0 <= j < k ==> (#[trigger] refs@[j]).from_file != file,
        decreases n - k,
    {
        if refs[k].from_file == file {
            assert(refs@.subrange(0, n as int)[k as int].from_file == file);
            return true;
        }
        k = k + 1;
    }
    assert forall|j: int| 0 <= j < n implies (#[trigger] refs@.subrange(0, n as int)[j]).from_file != file by {
        assert(refs@.subrange(0, n as int)[j] == refs@[j]);
    }
    false
}

/// Append to one reference list the incoming references from files it had
/// no reference from; `true` when any was appended.
fn merge_refs_into(refs: &mut Vec<SymbolReference>, incoming: &Vec<SymbolReference>) -> (r: bool)
    ensures
        final(refs)@ == old(refs)@ + new_refs(old(refs)@, incoming@),
        r == (new_refs(old(refs)@, incoming@).len() > 0),
{
    let n = refs.len();
    let ghost orig = refs@;
    let mut changed = false;
    let mut k: usize = 0;
    while k < incoming.len()
        invariant
            k <= incoming@.len(),
            n == orig.len(),
            refs@ == orig + new_refs(orig, incoming@.subrange(0, k as int)),
            changed == (new_refs(orig, incoming@.subrange(0, k as int)).len() > 0),
        decreases incoming@.len() - k,
    {
        let item = incoming[k];
        proof {
            assert(incoming@.subrange(0, k + 1).drop_last() =~= incoming@.subrange(0, k as int));
            assert(refs@.subrange(0, n as int) =~= orig);
        }
        if !prefix_has_file(refs, n, item.from_file) {
            refs.push(item);
            changed = true;
            proof {
                assert(orig + new_refs(orig, incoming@.subrange(0, k + 1)) =~= (orig + new_refs(
                    orig,
                    incoming@.subrange(0, k as int),
                )).push(item));
            }
        }
        k = k + 1;
    }
    assert(incoming@.subrange(0, k as int) =~= incoming@);
    changed
}

fn merge_named_into(exports: &mut Vec<ExportSymbol>, name: &str, incoming: &Vec<SymbolReference>) -> (r: bool)
    ensures
        exports_view(final(exports)@) == merge_named(exports_view(old(exports)@), name@, incoming@),
        r == merge_adds(exports_view(old(exports)@), name@, incoming@),
{
    let ghost ev0 = exports_view(exports@);
    let mut changed = false;
    let mut i: usize = 0;
    while i < exports.len()
        invariant
            i <= exports@.len(),
            exports@.len() == ev0.len(),
            forall|j: int|
                0 <= j < ev0.len() ==> #[trigger] exports_view(exports@)[j] == if j < i {
                    merge_named(ev0, name@, incoming@)[j]
                } else {
                    ev0[j]
                },
            changed == exists|j: int|
                0 <= j < i && name_matches(ev0[j].name, name@) && #[trigger] new_refs(ev0[j].references, incoming@).len()
                    > 0,
        decreases exports@.len() - i,
    {
        let ghost before = exports_view(exports@);
        let ghost was_changed = changed;
        assert(before[i as int] == ev0[i as int]);
        if exports[i].name.matches_str(name) {
            let added = merge_refs_into(&mut exports[i].references, incoming);
            changed = changed || added;
            proof {
                assert(exports_view(exports@)[i as int].references == ev0[i as int].references + new_refs(
                    ev0[i as int].references,
                    incoming@,
                ));
                assert(exports_view(exports@)[i as int] == merge_named(ev0, name@, incoming@)[i as int]);
            }
        } else {
            assert(exports_view(exports@)[i as int] == merge_named(ev0, name@, incoming@)[i as int]);
        }
        proof {
            assert forall|j: int| 0 <= j < ev0.len() implies #[trigger] exports_view(exports@)[j] == if j < i + 1 {
                merge_named(ev0, name@, incoming@)[j]
            } else {
                ev0[j]
            } by {
                if j != i {
                    assert(exports_view(exports@)[j] == before[j]);
                }
            }
            let p = |j: int|
                0 <= j < i + 1 && name_matches(ev0[j].name, name@) && new_refs(ev0[j].references, incoming@).len() > 0;
            if changed {
                if !was_changed {
                    assert(p(i as int));
                } else {
                    let w = choose|j: int|
                        0 <= j < i && name_matches(ev0[j].name, name@) && #[trigger] new_refs(ev0[j].references, incoming@).len() > 0;
                    assert(p(w));
                }
            } else {
                assert forall|j: int| 0 <= j < i + 1 && name_matches(ev0[j].name, name@) implies !(#[trigger] new_refs(
                    ev0[j].references,
                    incoming@,
                ).len() > 0) by {
                    if j == i {
                    }
                }
            }
        }
        i = i + 1;
    }
    assert(exports_view(exports@) =~= merge_named(ev0, name@, incoming@));
    changed
}

/// Propagate a named re-export (`export { foo } from './source'`): the
/// barrel's references to the re-exported name reach the source's export
/// (see [`named_result`]); every other module is unchanged. `true` when any
/// reference was added.
pub fn propagate_named_re_export(
    modules: &mut Vec<ModuleNode>,
    barrel_id: u32,
    barrel_idx: usize,
    source_idx: usize,
    imported_name: &str,
    exported_name: &str,
) -> (r: bool)
    requires
        barrel_idx < old(modules)@.len(),
        source_idx < old(modules)@.len(),
    ensures
        final(modules)@.len() == old(modules)@.len(),
        forall|j: int| 0 <= j < old(modules)@.len() && j != source_idx ==> #[trigger] final(modules)@[j] == old(modules)@[j],
        final(modules)@[source_idx as int].file_id == old(modules)@[source_idx as int].file_id,
        final(modules)@[source_idx as int].entry_point == old(modules)@[source_idx as int].entry_point,
        final(modules)@[source_idx as int].re_exports == old(modules)@[source_idx as int].re_exports,
        (exports_view(final(modules)@[source_idx as int].exports@), r) == named_result(
            old(modules)@[barrel_idx as int],
            exports_view(old(modules)@[source_idx as int].exports@),
            barrel_id,
            imported_name@,
            exported_name@,
        ),
{
    let refs_on_barrel = collect_barrel_refs(&modules[barrel_idx].exports, exported_name);
    if refs_on_barrel.len() == 0 {
        if modules[barrel_idx].is_entry_point() {
            return propagate_entry_point_named(&mut modules[source_idx].exports, barrel_id, imported_name);
        }
        return false;
    }
    merge_named_into(&mut modules[source_idx].exports, imported_name, &refs_on_barrel)
}

// ---------------------------------------------------------------------------
// Collecting the references that cross a star re-export
// ---------------------------------------------------------------------------

/// The text of an export name (`"default"` for the default export).
pub open spec fn name_text(n: ExportNameView) -> Seq<char> {
    match n {
        ExportNameView::Default => "default"@,
        ExportNameView::Named(s) => s,
    }
}

/// The named-import origin recorded for `(file, span, name)`: the last import
/// binding of `file` with that span importing `name` by name.
pub open spec fn origin_in(edges: Seq<Edge>, file: u32, span: Span, name: Seq<char>, e: int, s: int) -> Option<StarReferenceOrigin>
    decreases e, s,
{
    if e <= 0 {
        None
    } else if s <= 0 {
        origin_in(edges, file, span, name, e - 1, edges[e - 2].symbols@.len() as int)
    } else {
        let edge = edges[e - 1];
        let sym = edge.symbols@[s - 1];
        let hit = edge.source == file && sym.import_span == span && (sym.imported_name matches ImportedName::Named(n) && n@ == name);
        if hit {
            Some(StarReferenceOrigin::NamedImport { local_name: sym.local_name, is_type_only: sym.is_type_only })
        } else {
            origin_in(edges, file, span, name, e, s - 1)
        }
    }
}

/// The origin lookup over all edges.
pub open spec fn origin_of(edges: Seq<Edge>, file: u32, span: Span, name: Seq<char>) -> Option<StarReferenceOrigin> {
    if edges.len() == 0 {
        None
    } else {
        origin_in(edges, file, span, name, edges.len() as int, edges.last().symbols@.len() as int)
    }
}

/// The star references of one import edge's by-name bindings, each with the
/// name it imports.
pub open spec fn symbol_pairs(edge: Edge, k: int) -> Seq<(Seq<char>, StarReference)>
    decreases k,
{
    if k <= 0 {
        seq![]
    } else {
        let prev = symbol_pairs(edge, k - 1);
        let sym = edge.symbols@[k - 1];
        match sym.imported_name {
            ImportedName::Named(n) => prev.push(
                (
                    n@,
                    StarReference {
                        reference: SymbolReference {
                            from_file: edge.source,
                            kind: ReferenceKind::NamedImport,
                            import_span: sym.import_span,
                        },
                        origin: StarReferenceOrigin::NamedImport {
                            local_name: sym.local_name,
                            is_type_only: sym.is_type_only,
                        },
                    },
                ),
            ),
            _ => prev,
        }
    }
}

/// The by-name imports made from the barrel through the listed edges, in
/// order.
pub open spec fn import_pairs(edges: Seq<Edge>, idxs: Seq<usize>, k: int) -> Seq<(Seq<char>, StarReference)>
    decreases k,
{
    if k <= 0 {
        seq![]
    } else {
        let e = edges[idxs[k - 1] as int];
        import_pairs(edges, idxs, k - 1) + symbol_pairs(e, e.symbols@.len() as int)
    }
}

/// The references already on one barrel export, each with the export's name
/// and the origin of the named import it came from (or the barrel export).
pub open spec fn export_ref_pairs(edges: Seq<Edge>, e: ExportView, k: int) -> Seq<(Seq<char>, StarReference)>
    decreases k,
{
    if k <= 0 {
        seq![]
    } else {
        let r = e.references[k - 1];
        let name = name_text(e.name);
        let origin = match origin_of(edges, r.from_file, r.import_span, name) {
            Some(o) => o,
            None => StarReferenceOrigin::BarrelExport { is_type_only: e.is_type_only },
        };
        export_ref_pairs(edges, e, k - 1).push((name, StarReference { reference: r, origin }))
    }
}

/// The references on the barrel's own exports, in export order.
pub open spec fn barrel_pairs(edges: Seq<Edge>, ex: Seq<ExportView>, k: int) -> Seq<(Seq<char>, StarReference)>
    decreases k,
{
    if k <= 0 {
        seq![]
    } else {
        barrel_pairs(edges, ex, k - 1) + export_ref_pairs(edges, ex[k - 1], ex[k - 1].references.len() as int)
    }
}

/// The index of the group named `name`, if any.
pub open spec fn group_index(g: Seq<(Seq<char>, Seq<StarReference>)>, name: Seq<char>, k: int) -> Option<int>
    decreases k,
{
    if k <= 0 {
        None
    } else if g[k - 1].0 == name {
        Some(k - 1)
    } else {
        group_index(g, name, k - 1)
    }
}

/// The pairs grouped by name: names in order of first appearance, each with
/// its references in order.
pub open spec fn grouped(pairs: Seq<(Seq<char>, StarReference)>) -> Seq<(Seq<char>, Seq<StarReference>)>
    decreases pairs.len(),
{
    if pairs.len() == 0 {
        seq![]
    } else {
        let g = grouped(pairs.drop_last());
        let (name, sr) = pairs.last();
        match group_index(g, name, g.len() as int) {
            Some(i) => g.update(i, (name, g[i].1.push(sr))),
            None => g.push((name, seq![sr])),
        }
    }
}

pub open spec fn groups_view(groups: Seq<(String, Vec<StarReference>)>) -> Seq<(Seq<char>, Seq<StarReference>)> {
    groups.map_values(|g: (String, Vec<StarReference>)| (g.0@, g.1@))
}

pub proof fn lemma_group_index(g: Seq<(Seq<char>, Seq<StarReference>)>, name: Seq<char>, k: int)
    requires
        0 <= k <= g.len(),
    ensures
        group_index(g, name, k) matches Some(i) ==> 0 <= i < k && g[i].0 == name,
        group_index(g, name, k) is None ==> forall|i: int| 0 <= i < k ==> g[i].0 != name,
    decreases k,
{
    if k > 0 {
        lemma_group_index(g, name, k - 1);
    }
}

/// Add one named star reference to its group (a new group when the name is
/// new).
fn add_to_groups(groups: &mut Vec<(String, Vec<StarReference>)>, name: String, sr: StarReference)
    ensures
        groups_view(final(groups)@) == ({
            let g = groups_view(old(groups)@);
            match group_index(g, name@, g.len() as int) {
                Some(i) => g.update(i, (name@, g[i].1.push(sr))),
                None => g.push((name@, seq![sr])),
            }
        }),
{
    let ghost g0 = groups_view(groups@);
    let mut i = groups.len();
    while i > 0
        invariant
            i <= groups@.len(),
            g0 == groups_view(groups@),
            g0 == groups_view(old(groups)@),
            group_index(g0, name@, g0.len() as int) == group_index(g0, name@, i as int),
        decreases i,
    {
        if crate::text::str_eq(groups[i - 1].0.as_str(), name.as_str()) {
            assert(group_index(g0, name@, i as int) == Some(i - 1));
            let ghost before = groups@;
            groups[i - 1].1.push(sr);
            proof {
                assert(groups_view(groups@) =~= g0.update(i - 1, (name@, g0[i - 1].1.push(sr)))) by {
                    assert forall|j: int| 0 <= j < groups@.len() implies #[trigger] groups_view(groups@)[j] == g0.update(
                        i - 1,
                        (name@, g0[i - 1].1.push(sr)),
                    )[j] by {
                        if j != i - 1 {
                            assert(groups@[j] == before[j]);
                        }
                    }
                }
            }
            return;
        }
        i = i - 1;
    }
    let ghost n = name@;
    let ghost r = sr;
    let mut refs: Vec<StarReference> = Vec::new();
    refs.push(sr);
    assert(refs@ =~= seq![r]);
    groups.push((name, refs));
    assert(groups_view(groups@) =~= g0.push((n, seq![r])));
}

/// The named-import origin recorded for `(file, span, name)` (see
/// [`origin_of`]).
fn lookup_origin(edges: &Vec<Edge>, file: u32, span: Span, name: &str) -> (r: Option<StarReferenceOrigin>)
    ensures
        r == origin_of(edges@, file, span, name@),
{
    let mut e = edges.len();
    if e == 0 {
        return None;
    }
    let mut s = edges[e - 1].symbols.len();
    loop
        invariant
            1 <= e <= edges@.len(),
            s <= edges@[e - 1].symbols@.len(),
            origin_of(edges@, file, span, name@) == origin_in(edges@, file, span, name@, e as int, s as int),
        decreases e, s,
    {
        if s == 0 {
            if e == 1 {
                proof {
                    let z = edges@[-1int].symbols@.len() as int;
                    assert(origin_in(edges@, file, span, name@, 0, z) is None);
                    assert(origin_in(edges@, file, span, name@, 1, 0) == origin_in(edges@, file, span, name@, 0, z));
                }
                return None;
            }
            e = e - 1;
            s = edges[e - 1].symbols.len();
        } else {
            let edge = &edges[e - 1];
            let sym = &edge.symbols[s - 1];
            let named = match &sym.imported_name {
                ImportedName::Named(n) => crate::text::str_eq(n.as_str(), name),
                _ => false,
            };
            if edge.source == file && sym.import_span == span && named {
                return Some(
                    StarReferenceOrigin::NamedImport { local_name: sym.local_name.clone(), is_type_only: sym.is_type_only },
                );
            }
            s = s - 1;
        }
    }
}

/// The edge indices listed for `target`.
pub open spec fn edges_into(by_target: Map<u32, Vec<usize>>, target: u32) -> Seq<usize> {
    if by_target.contains_key(target) {
        by_target[target]@
    } else {
        seq![]
    }
}

/// Every edge index listed in the map is an edge.
pub open spec fn edge_indices_within(by_target: Map<u32, Vec<usize>>, n: int) -> bool {
    forall|t: u32, k: int| by_target.contains_key(t) && 0 <= k < by_target[t]@.len() ==> #[trigger] by_target[t]@[k] < n
}

/// The references that must cross the barrel's star re-export, grouped by
/// name: the by-name imports made from the barrel, then the references
/// already on the barrel's own exports.
pub open spec fn star_refs_by_name(
    barrel: ModuleNode,
    edges: Seq<Edge>,
    by_target: Map<u32, Vec<usize>>,
) -> Seq<(Seq<char>, Seq<StarReference>)> {
    let idxs = edges_into(by_target, barrel.file_id);
    let ex = exports_view(barrel.exports@);
    grouped(import_pairs(edges, idxs, idxs.len() as int) + barrel_pairs(edges, ex, ex.len() as int))
}

/// Collect the per-name references that must propagate through the barrel's
/// star re-export (see [`star_refs_by_name`]).
pub fn collect_star_refs_by_name(
    modules: &Vec<ModuleNode>,
    edges: &Vec<Edge>,
    edges_by_target: &HashMap<u32, Vec<usize>>,
    barrel_file_id: u32,
    barrel_idx: usize,
) -> (r: Vec<(String, Vec<StarReference>)>)
    requires
        barrel_idx < modules@.len(),
        modules@[barrel_idx as int].file_id == barrel_file_id,
        edge_indices_within(edges_by_target@, edges@.len() as int),
    ensures
        groups_view(r@) == star_refs_by_name(modules@[barrel_idx as int], edges@, edges_by_target@),
{
    let mut groups: Vec<(String, Vec<StarReference>)> = Vec::new();
    let ghost mut pairs: Seq<(Seq<char>, StarReference)> = seq![];
    let empty: Vec<usize> = Vec::new();
    let idxs = match edges_by_target.get(&barrel_file_id) {
        Some(v) => v,
        None => &empty,
    };
    assert(idxs@ == edges_into(edges_by_target@, barrel_file_id));
    assert(groups_view(groups@) =~= grouped(pairs));
    let mut k: usize = 0;
    while k < idxs.len()
        invariant
            k <= idxs@.len(),
            edge_indices_within(edges_by_target@, edges@.len() as int),
            idxs@ == edges_into(edges_by_target@, barrel_file_id),
            forall|j: int| 0 <= j < idxs@.len() ==> #[trigger] idxs@[j] < edges@.len(),
            pairs == import_pairs(edges@, idxs@, k as int),
            groups_view(groups@) == grouped(pairs),
        decreases idxs@.len() - k,
    {
        let edge = &edges[idxs[k]];
        let ghost base = pairs;
        let mut si: usize = 0;
        while si < edge.symbols.len()
            invariant
                si <= edge.symbols@.len(),
                pairs == base + symbol_pairs(*edge, si as int),
                groups_view(groups@) == grouped(pairs),
            decreases edge.symbols@.len() - si,
        {
            let sym = &edge.symbols[si];
            match &sym.imported_name {
                ImportedName::Named(n) => {
                    let sr = StarReference {
                        reference: SymbolReference {
                            from_file: edge.source,
                            kind: ReferenceKind::NamedImport,
                            import_span: sym.import_span,
                        },
                        origin: StarReferenceOrigin::NamedImport {
                            local_name: sym.local_name.clone(),
                            is_type_only: sym.is_type_only,
                        },
                    };
                    let ghost p = (n@, sr);
                    add_to_groups(&mut groups, n.clone(), sr);
                    proof {
                        assert(base + symbol_pairs(*edge, si + 1) =~= (base + symbol_pairs(*edge, si as int)).push(p));
                        assert(pairs.push(p).drop_last() =~= pairs);
                        pairs = pairs.push(p);
                    }
                },
                _ => {},
            }
            si = si + 1;
        }
        k = k + 1;
    }
    let barrel = &modules[barrel_idx];
    let ghost ex = exports_view(barrel.exports@);
    let ghost base0 = pairs;
    assert(barrel_pairs(edges@, ex, 0) =~= Seq::<(Seq<char>, StarReference)>::empty());
    assert(pairs =~= base0 + barrel_pairs(edges@, ex, 0));
    let mut i: usize = 0;
    while i < barrel.exports.len()
        invariant
            i <= barrel.exports@.len(),
            ex == exports_view(barrel.exports@),
            pairs == base0 + barrel_pairs(edges@, ex, i as int),
            groups_view(groups@) == grouped(pairs),
        decreases barrel.exports@.len() - i,
    {
        let e = &barrel.exports[i];
        let name = e.name.name_string();
        let ghost base = pairs;
        let mut j: usize = 0;
        while j < e.references.len()
            invariant
                j <= e.references@.len(),
                ex[i as int] == e@,
                name@ == name_text(e.name@),
                pairs == base + export_ref_pairs(edges@, e@, j as int),
                groups_view(groups@) == grouped(pairs),
            decreases e.references@.len() - j,
        {
            let r = e.references[j];
            let origin = match lookup_origin(edges, r.from_file, r.import_span, name.as_str()) {
                Some(o) => o,
                None => StarReferenceOrigin::BarrelExport { is_type_only: e.is_type_only },
            };
            let sr = StarReference { reference: r, origin };
            let ghost p = (name@, sr);
            add_to_groups(&mut groups, name.clone(), sr);
            proof {
                assert(base + export_ref_pairs(edges@, e@, j + 1) =~= (base + export_ref_pairs(edges@, e@, j as int)).push(p));
                assert(pairs.push(p).drop_last() =~= pairs);
                pairs = pairs.push(p);
            }
            j = j + 1;
        }
        proof {
            assert(base0 + barrel_pairs(edges@, ex, i + 1) =~= base + export_ref_pairs(edges@, e@, e.references@.len() as int));
        }
        i = i + 1;
    }
    groups
}

// ---------------------------------------------------------------------------
// Star re-exports
// ---------------------------------------------------------------------------

/// The groups `0..k` applied to the source in order.
pub open spec fn star_fold(
    ex: Seq<ExportView>,
    stubs: Set<(u32, Seq<char>, bool)>,
    source_id: u32,
    groups: Seq<(Seq<char>, Seq<StarReference>)>,
    k: int,
    modules: Map<u32, ImportBindingUsage>,
    triggering_is_type_only: bool,
    source_has_star_re_exports: bool,
) -> (Seq<ExportView>, Set<(u32, Seq<char>, bool)>, bool)
    decreases k,
{
    if k <= 0 {
        (ex, stubs, false)
    } else {
        let prev = star_fold(ex, stubs, source_id, groups, k - 1, modules, triggering_is_type_only, source_has_star_re_exports);
        let r = source_result(
            prev.0,
            prev.1,
            source_id,
            groups[k - 1].0,
            groups[k - 1].1,
            modules,
            triggering_is_type_only,
            source_has_star_re_exports,
        );
        (r.0, r.1, prev.2 || r.2)
    }
}

/// The module forwards through its own `export *`.
pub open spec fn forwards_star(m: ModuleNode) -> bool {
    exists|j: int| 0 <= j < m.re_exports@.len() && (#[trigger] m.re_exports@[j]).exported_name@ == "*"@
}

/// The source module's exports and the stubs after propagating the barrel's
/// `export * from source`, and whether anything changed: from an entry-point
/// barrel (or one reached by an entry point's `export *`) every non-default
/// export of the source is used; otherwise the references crossing the
/// barrel are applied name by name.
pub open spec fn star_result(
    barrel: ModuleNode,
    source: ModuleNode,
    edges: Seq<Edge>,
    by_target: Map<u32, Vec<usize>>,
    modules: Map<u32, ImportBindingUsage>,
    barrel_id: u32,
    source_id: u32,
    entry_star_targets: Set<u32>,
    triggering_is_type_only: bool,
    stubs: Set<(u32, Seq<char>, bool)>,
) -> (Seq<ExportView>, Set<(u32, Seq<char>, bool)>, bool) {
    let src = exports_view(source.exports@);
    if barrel.entry_point || entry_star_targets.contains(barrel.file_id) {
        let targets = non_default_indices(src, src.len() as int);
        (
            attach_to(src, targets, re_export_reference(barrel_id)),
            stubs,
            attach_adds(src, targets, re_export_reference(barrel_id)),
        )
    } else {
        let groups = star_refs_by_name(barrel, edges, by_target);
        star_fold(src, stubs, source_id, groups, groups.len() as int, modules, triggering_is_type_only, forwards_star(source))
    }
}

fn has_star_re_export(m: &ModuleNode) -> (r: bool)
    ensures
        r == forwards_star(*m),
{
    let mut j: usize = 0;
    while j < m.re_exports.len()
        invariant
            j <= m.re_exports@.len(),
            forall|i: int| 0 <= i < j ==> (#[trigger] m.re_exports@[i]).exported_name@ != "*"@,
        decreases m.re_exports@.len() - j,
    {
        if crate::text::str_eq(m.re_exports[j].exported_name.as_str(), "*") {
            return true;
        }
        j = j + 1;
    }
    false
}

/// Handle `export * from './source'` on the barrel: propagate the names
/// imported from the barrel (and references on its own exports) to the
/// source's matching exports (see [`star_result`]); every other module is
/// unchanged. `true` when anything was added.
pub fn propagate_star_re_export(
    modules: &mut Vec<ModuleNode>,
    edges: &Vec<Edge>,
    edges_by_target: &HashMap<u32, Vec<usize>>,
    module_by_id: &HashMap<u32, ImportBindingUsage>,
    barrel_id: u32,
    barrel_idx: usize,
    source_id: u32,
    source_idx: usize,
    entry_star_targets: &HashSet<u32>,
    triggering_is_type_only: bool,
    synthetic_stubs: &mut SyntheticStubs,
) -> (r: bool)
    requires
        barrel_idx < old(modules)@.len(),
        source_idx < old(modules)@.len(),
        edge_indices_within(edges_by_target@, edges@.len() as int),
    ensures
        final(modules)@.len() == old(modules)@.len(),
        forall|j: int| 0 <= j < old(modules)@.len() && j != source_idx ==> #[trigger] final(modules)@[j] == old(modules)@[j],
        final(modules)@[source_idx as int].file_id == old(modules)@[source_idx as int].file_id,
        final(modules)@[source_idx as int].entry_point == old(modules)@[source_idx as int].entry_point,
        final(modules)@[source_idx as int].re_exports == old(modules)@[source_idx as int].re_exports,
        (exports_view(final(modules)@[source_idx as int].exports@), final(synthetic_stubs)@, r) == star_result(
            old(modules)@[barrel_idx as int],
            old(modules)@[source_idx as int],
            edges@,
            edges_by_target@,
            module_by_id@,
            barrel_id,
            source_id,
            entry_star_targets@,
            triggering_is_type_only,
            old(synthetic_stubs)@,
        ),
{
    if modules[barrel_idx].is_entry_point() || entry_star_targets.contains(&modules[barrel_idx].file_id) {
        return propagate_entry_point_star(&mut modules[source_idx].exports, barrel_id);
    }
    let barrel_file_id = modules[barrel_idx].file_id;
    let refs_by_name = collect_star_refs_by_name(modules, edges, edges_by_target, barrel_file_id, barrel_idx);
    let source_has_star_re_exports = has_star_re_export(&modules[source_idx]);
    let ghost groups = groups_view(refs_by_name@);
    let ghost src0 = exports_view(modules@[source_idx as int].exports@);
    let ghost st0 = synthetic_stubs@;
    let ghost m0 = modules@;
    let mut changed = false;
    let mut k: usize = 0;
    while k < refs_by_name.len()
        invariant
            k <= refs_by_name@.len(),
            source_idx < modules@.len(),
            modules@.len() == m0.len(),
            forall|j: int| 0 <= j < m0.len() && j != source_idx ==> #[trigger] modules@[j] == m0[j],
            modules@[source_idx as int].file_id == m0[source_idx as int].file_id,
            modules@[source_idx as int].entry_point == m0[source_idx as int].entry_point,
            modules@[source_idx as int].re_exports == m0[source_idx as int].re_exports,
            groups == groups_view(refs_by_name@),
            (exports_view(modules@[source_idx as int].exports@), synthetic_stubs@, changed) == star_fold(
                src0,
                st0,
                source_id,
                groups,
                k as int,
                module_by_id@,
                triggering_is_type_only,
                source_has_star_re_exports,
            ),
        decreases refs_by_name@.len() - k,
    {
        let group = &refs_by_name[k];
        let added = apply_star_refs_to_source(
            &mut modules[source_idx].exports,
            group.0.as_str(),
            group.1.as_slice(),
            source_id,
            module_by_id,
            triggering_is_type_only,
            source_has_star_re_exports,
            synthetic_stubs,
        );
        changed = changed || added;
        k = k + 1;
    }
    changed
}

// ---------------------------------------------------------------------------
// Propagation only adds
// ---------------------------------------------------------------------------

/// `b` extends the reference list `a`.
pub open spec fn refs_grow(a: Seq<SymbolReference>, b: Seq<SymbolReference>) -> bool {
    a.len() <= b.len() && b.subrange(0, a.len() as int) == a
}

/// `b` is the export `a` with possibly more references.
pub open spec fn export_grows(a: ExportView, b: ExportView) -> bool {
    a.name == b.name && a.is_type_only == b.is_type_only && refs_grow(a.references, b.references)
}

/// `b` keeps every export of `a`, in place, with possibly more references,
/// and possibly more exports after them.
pub open spec fn exports_grow(a: Seq<ExportView>, b: Seq<ExportView>) -> bool {
    a.len() <= b.len() && forall|i: int| 0 <= i < a.len() ==> export_grows(#[trigger] a[i], b[i])
}

pub proof fn lemma_exports_grow_refl(a: Seq<ExportView>)
    ensures
        exports_grow(a, a),
{
    assert forall|i: int| 0 <= i < a.len() implies export_grows(#[trigger] a[i], a[i]) by {
        assert(a[i].references.subrange(0, a[i].references.len() as int) =~= a[i].references);
    }
}

pub proof fn lemma_exports_grow_trans(a: Seq<ExportView>, b: Seq<ExportView>, c: Seq<ExportView>)
    requires
        exports_grow(a, b),
        exports_grow(b, c),
    ensures
        exports_grow(a, c),
{
    assert forall|i: int| 0 <= i < a.len() implies export_grows(#[trigger] a[i], c[i]) by {
        assert(export_grows(b[i], c[i]));
        let ra = a[i].references;
        let rb = b[i].references;
        let rc = c[i].references;
        assert(rc.subrange(0, ra.len() as int) =~= rb.subrange(0, ra.len() as int));
    }
}

pub proof fn lemma_push_grows(a: Seq<ExportView>, e: ExportView)
    ensures
        exports_grow(a, a.push(e)),
{
    assert forall|i: int| 0 <= i < a.len() implies export_grows(#[trigger] a[i], a.push(e)[i]) by {
        assert(a[i].references.subrange(0, a[i].references.len() as int) =~= a[i].references);
    }
}

pub proof fn lemma_attach_to_grows(a: Seq<ExportView>, indices: Seq<usize>, r: SymbolReference)
    ensures
        exports_grow(a, attach_to(a, indices, r)),
{
    let b = attach_to(a, indices, r);
    assert forall|i: int| 0 <= i < a.len() implies export_grows(#[trigger] a[i], b[i]) by {
        let ra = a[i].references;
        assert(b[i].references.subrange(0, ra.len() as int) =~= ra);
    }
}

pub proof fn lemma_merge_named_grows(a: Seq<ExportView>, name: Seq<char>, incoming: Seq<SymbolReference>)
    ensures
        exports_grow(a, merge_named(a, name, incoming)),
{
    let b = merge_named(a, name, incoming);
    assert forall|i: int| 0 <= i < a.len() implies export_grows(#[trigger] a[i], b[i]) by {
        let ra = a[i].references;
        assert(b[i].references.subrange(0, ra.len() as int) =~= ra);
    }
}

pub proof fn lemma_synthesize_kind_grows(
    ex: Seq<ExportView>,
    stubs: Set<(u32, Seq<char>, bool)>,
    source_id: u32,
    name: Seq<char>,
    type_only: bool,
    needed: bool,
    list: Seq<usize>,
    can_synthesize: bool,
)
    ensures
        exports_grow(ex, synthesize_kind(ex, stubs, source_id, name, type_only, needed, list, can_synthesize).0),
{
    lemma_exports_grow_refl(ex);
    lemma_push_grows(ex, ExportView { name: export_name_of(name), is_type_only: type_only, references: Seq::empty() });
}

pub proof fn lemma_attach_all_grows(
    ex: Seq<ExportView>,
    refs: Seq<StarReference>,
    k: int,
    type_list: Seq<usize>,
    value_list: Seq<usize>,
    modules: Map<u32, ImportBindingUsage>,
    triggering_is_type_only: bool,
)
    ensures
        exports_grow(ex, attach_all(ex, refs, k, type_list, value_list, modules, triggering_is_type_only).0),
    decreases k,
{
    if k <= 0 {
        lemma_exports_grow_refl(ex);
    } else {
        lemma_attach_all_grows(ex, refs, k - 1, type_list, value_list, modules, triggering_is_type_only);
        let prev = attach_all(ex, refs, k - 1, type_list, value_list, modules, triggering_is_type_only);
        let sr = refs[k - 1];
        let t = star_targets(sr, modules, type_list.len() > 0, value_list.len() > 0, triggering_is_type_only);
        let ex1 = if t.0 {
            attach_to(prev.0, type_list, sr.reference)
        } else {
            prev.0
        };
        lemma_attach_to_grows(prev.0, type_list, sr.reference);
        lemma_exports_grow_refl(prev.0);
        lemma_exports_grow_trans(ex, prev.0, ex1);
        lemma_attach_to_grows(ex1, value_list, sr.reference);
        lemma_exports_grow_refl(ex1);
        let ex2 = if t.1 {
            attach_to(ex1, value_list, sr.reference)
        } else {
            ex1
        };
        lemma_exports_grow_trans(ex, ex1, ex2);
    }
}

pub proof fn lemma_synthesize_with_grows(
    ex: Seq<ExportView>,
    stubs: Set<(u32, Seq<char>, bool)>,
    source_id: u32,
    name: Seq<char>,
    export_name: ExportNameView,
    type_only: bool,
    references: Seq<SymbolReference>,
)
    ensures
        exports_grow(ex, synthesize_with(ex, stubs, source_id, name, export_name, type_only, references).0),
{
    lemma_exports_grow_refl(ex);
    lemma_push_grows(ex, ExportView { name: export_name, is_type_only: type_only, references });
}

/// Attaching the references of one name to the source only adds exports and
/// references.
pub proof fn lemma_source_result_grows(
    ex: Seq<ExportView>,
    stubs: Set<(u32, Seq<char>, bool)>,
    source_id: u32,
    name: Seq<char>,
    refs: Seq<StarReference>,
    modules: Map<u32, ImportBindingUsage>,
    triggering_is_type_only: bool,
    source_has_star_re_exports: bool,
)
    ensures
        exports_grow(
            ex,
            source_result(ex, stubs, source_id, name, refs, modules, triggering_is_type_only, source_has_star_re_exports).0,
        ),
{
    lemma_exports_grow_refl(ex);
    let matching = named_indices(ex, export_name_of(name), ex.len() as int);
    if matching.len() > 0 {
        let can = source_has_star_re_exports;
        let type_list = kind_indices(ex, matching, true);
        let value_list = kind_indices(ex, matching, false);
        let eff_type = type_list.len() > 0 || can;
        let eff_value = value_list.len() > 0 || (can && !triggering_is_type_only);
        let need = any_targets(refs, modules, eff_type, eff_value, triggering_is_type_only);
        let s1 = synthesize_kind(ex, stubs, source_id, name, true, need.0, type_list, can);
        let s2 = synthesize_kind(s1.0, s1.1, source_id, name, false, need.1, value_list, can);
        lemma_synthesize_kind_grows(ex, stubs, source_id, name, true, need.0, type_list, can);
        lemma_synthesize_kind_grows(s1.0, s1.1, source_id, name, false, need.1, value_list, can);
        lemma_attach_all_grows(s2.0, refs, refs.len() as int, s1.2, s2.2, modules, triggering_is_type_only);
        lemma_exports_grow_trans(ex, s1.0, s2.0);
        let a = attach_all(s2.0, refs, refs.len() as int, s1.2, s2.2, modules, triggering_is_type_only);
        lemma_exports_grow_trans(ex, s2.0, a.0);
    } else if source_has_star_re_exports {
        let en = export_name_of(name);
        let s1 = synthesize_with(ex, stubs, source_id, name, en, true, refs_targeting(refs, modules, triggering_is_type_only, true));
        lemma_synthesize_with_grows(ex, stubs, source_id, name, en, true, refs_targeting(refs, modules, triggering_is_type_only, true));
        lemma_synthesize_with_grows(s1.0, s1.1, source_id, name, en, false, refs_targeting(refs, modules, triggering_is_type_only, false));
        let s2 = synthesize_with(s1.0, s1.1, source_id, name, en, false, refs_targeting(refs, modules, triggering_is_type_only, false));
        lemma_exports_grow_trans(ex, s1.0, s2.0);
    }
}

pub proof fn lemma_star_fold_grows(
    ex: Seq<ExportView>,
    stubs: Set<(u32, Seq<char>, bool)>,
    source_id: u32,
    groups: Seq<(Seq<char>, Seq<StarReference>)>,
    k: int,
    modules: Map<u32, ImportBindingUsage>,
    triggering_is_type_only: bool,
    source_has_star_re_exports: bool,
)
    ensures
        exports_grow(
            ex,
            star_fold(ex, stubs, source_id, groups, k, modules, triggering_is_type_only, source_has_star_re_exports).0,
        ),
    decreases k,
{
    if k <= 0 {
        lemma_exports_grow_refl(ex);
    } else {
        lemma_star_fold_grows(ex, stubs, source_id, groups, k - 1, modules, triggering_is_type_only, source_has_star_re_exports);
        let prev = star_fold(ex, stubs, source_id, groups, k - 1, modules, triggering_is_type_only, source_has_star_re_exports);
        lemma_source_result_grows(
            prev.0,
            prev.1,
            source_id,
            groups[k - 1].0,
            groups[k - 1].1,
            modules,
            triggering_is_type_only,
            source_has_star_re_exports,
        );
        let r = source_result(
            prev.0,
            prev.1,
            source_id,
            groups[k - 1].0,
            groups[k - 1].1,
            modules,
            triggering_is_type_only,
            source_has_star_re_exports,
        );
        lemma_exports_grow_trans(ex, prev.0, r.0);
    }
}

/// Propagating a star re-export only adds exports and references to the
/// source module.
pub proof fn lemma_star_result_grows(
    barrel: ModuleNode,
    source: ModuleNode,
    edges: Seq<Edge>,
    by_target: Map<u32, Vec<usize>>,
    modules: Map<u32, ImportBindingUsage>,
    barrel_id: u32,
    source_id: u32,
    entry_star_targets: Set<u32>,
    triggering_is_type_only: bool,
    stubs: Set<(u32, Seq<char>, bool)>,
)
    ensures
        exports_grow(
            exports_view(source.exports@),
            star_result(
                barrel,
                source,
                edges,
                by_target,
                modules,
                barrel_id,
                source_id,
                entry_star_targets,
                triggering_is_type_only,
                stubs,
            ).0,
        ),
{
    let src = exports_view(source.exports@);
    if barrel.entry_point || entry_star_targets.contains(barrel.file_id) {
        lemma_attach_to_grows(src, non_default_indices(src, src.len() as int), re_export_reference(barrel_id));
    } else {
        let groups = star_refs_by_name(barrel, edges, by_target);
        lemma_star_fold_grows(src, stubs, source_id, groups, groups.len() as int, modules, triggering_is_type_only, forwards_star(source));
    }
}

/// Propagating a named re-export only adds references to the source module.
pub proof fn lemma_named_result_grows(
    barrel: ModuleNode,
    source_exports: Seq<ExportView>,
    barrel_id: u32,
    imported: Seq<char>,
    exported: Seq<char>,
)
    ensures
        exports_grow(source_exports, named_result(barrel, source_exports, barrel_id, imported, exported).0),
{
    lemma_exports_grow_refl(source_exports);
    lemma_attach_to_grows(
        source_exports,
        indices_named(source_exports, imported, source_exports.len() as int),
        re_export_reference(barrel_id),
    );
    let incoming = barrel_refs(exports_view(barrel.exports@), exported, barrel.exports@.len() as int);
    lemma_merge_named_grows(source_exports, imported, incoming);
}

} // verus!
