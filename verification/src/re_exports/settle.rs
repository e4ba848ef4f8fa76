//! When re-export propagation has nothing left to add.
//!
//! An edge is *covered* when every reference it would carry is already on
//! the exports it would reach: propagating it again changes nothing (it is
//! *settled*). This module states coverage over the values of the modules,
//! proves that one propagation step leaves its edge covered, that coverage
//! survives the growth other edges cause, that a covered edge is settled,
//! and that a step reporting a change gives an export a reference from a
//! new file.
//!
//! The reasoning holds while no star re-export can synthesize exports, that
//! is while no module that is the source of an `export *` forwards through
//! an `export *` of its own: only then does propagation keep every module's
//! list of exports (names and kinds) fixed and add references alone.

use vstd::prelude::*;

use crate::re_exports::attach::ImportBindingUsage;
use crate::re_exports::graph::{
    exports_view, export_name_of, has_ref_from, name_matches, re_export_reference, Edge, ExportView, ModuleNode,
    SymbolReference,
};
use crate::re_exports::propagate::{
    attach_adds, attach_all, attach_to, barrel_refs, export_grows, exports_grow, forwards_star, indices_named,
    indices_within, kind_indices, merge_adds, merge_named, named_indices, named_result, new_refs, non_default_indices,
    source_result, star_fold, star_refs_by_name, star_result, star_targets, with_ref, StarReference,
};
use crate::re_exports::resolve::ReExportTuple;

verus! {

// ---------------------------------------------------------------------------
// Exports that only gained references
// ---------------------------------------------------------------------------

/// Every file with a reference in `a` has one in `b`.
pub open spec fn refs_cover(a: Seq<SymbolReference>, b: Seq<SymbolReference>) -> bool {
    forall|f: u32| #![trigger has_ref_from(a, f)] #![trigger has_ref_from(b, f)] has_ref_from(a, f) ==> has_ref_from(b, f)
}

/// `b` has the exports of `a` (same names and kinds, in place) and at least
/// their references' files.
pub open spec fn covers(a: Seq<ExportView>, b: Seq<ExportView>) -> bool {
    &&& a.len() == b.len()
    &&& forall|i: int|
        0 <= i < a.len() ==> {
            &&& (#[trigger] b[i]).name == a[i].name
            &&& b[i].is_type_only == a[i].is_type_only
            &&& refs_cover(a[i].references, b[i].references)
        }
}

pub proof fn lemma_covers_refl(a: Seq<ExportView>)
    ensures
        covers(a, a),
{
}

pub proof fn lemma_covers_trans(a: Seq<ExportView>, b: Seq<ExportView>, c: Seq<ExportView>)
    requires
        covers(a, b),
        covers(b, c),
    ensures
        covers(a, c),
{
    assert forall|i: int| 0 <= i < a.len() implies refs_cover(a[i].references, (#[trigger] c[i]).references) by {
        assert(refs_cover(a[i].references, b[i].references));
        assert(refs_cover(b[i].references, c[i].references));
    }
}

pub proof fn lemma_with_ref(e: ExportView, r: SymbolReference)
    ensures
        with_ref(e, r).name == e.name,
        with_ref(e, r).is_type_only == e.is_type_only,
        refs_cover(e.references, with_ref(e, r).references),
        has_ref_from(with_ref(e, r).references, r.from_file),
        has_ref_from(e.references, r.from_file) ==> with_ref(e, r) == e,
{
    if !has_ref_from(e.references, r.from_file) {
        let p = e.references.push(r);
        assert(p[e.references.len() as int] == r);
        assert forall|f: u32| has_ref_from(e.references, f) implies has_ref_from(p, f) by {
            let k = choose|k: int| 0 <= k < e.references.len() && (#[trigger] e.references[k]).from_file == f;
            assert(p[k] == e.references[k]);
        }
    }
}

/// Attaching a reference only adds references, reaches every listed export,
/// and changes nothing when it adds nothing.
pub proof fn lemma_attach_to(ex: Seq<ExportView>, l: Seq<usize>, r: SymbolReference)
    requires
        ex.len() <= usize::MAX,
    ensures
        covers(ex, attach_to(ex, l, r)),
        forall|k: int| 0 <= k < l.len() && l[k] < ex.len() ==> has_ref_from(attach_to(ex, l, r)[#[trigger] l[k] as int].references, r.from_file),
        !attach_adds(ex, l, r) ==> attach_to(ex, l, r) == ex,
{
    let t = attach_to(ex, l, r);
    assert forall|i: int| 0 <= i < ex.len() implies {
        &&& (#[trigger] t[i]).name == ex[i].name
        &&& t[i].is_type_only == ex[i].is_type_only
        &&& refs_cover(ex[i].references, t[i].references)
    } by {
        lemma_with_ref(ex[i], r);
    }
    assert forall|k: int| 0 <= k < l.len() && l[k] < ex.len() implies has_ref_from(t[#[trigger] l[k] as int].references, r.from_file) by {
        assert(l.contains(l[k]));
        lemma_with_ref(ex[l[k] as int], r);
    }
    if !attach_adds(ex, l, r) {
        assert forall|i: int| 0 <= i < ex.len() implies #[trigger] t[i] == ex[i] by {
            if l.contains(i as usize) {
                let k = choose|k: int| 0 <= k < l.len() && l[k] == i as usize;
                assert(l[k] as int == i);
                assert(has_ref_from(ex[l[k] as int].references, r.from_file));
                lemma_with_ref(ex[i], r);
            }
        }
        assert(t =~= ex);
    }
}

/// Once attached, attaching again adds nothing.
pub proof fn lemma_attach_to_settles(ex: Seq<ExportView>, l: Seq<usize>, r: SymbolReference)
    requires
        ex.len() <= usize::MAX,
        indices_within(l, ex.len() as int),
    ensures
        !attach_adds(attach_to(ex, l, r), l, r),
{
    lemma_attach_to(ex, l, r);
    assert forall|k: int| 0 <= k < l.len() implies has_ref_from(attach_to(ex, l, r)[#[trigger] l[k] as int].references, r.from_file) by {
        assert(l[k] < ex.len());
    }
}

/// Adding nothing stays so as the exports gain references.
pub proof fn lemma_attach_adds_mono(a: Seq<ExportView>, b: Seq<ExportView>, l: Seq<usize>, r: SymbolReference)
    requires
        covers(a, b),
        indices_within(l, a.len() as int),
        !attach_adds(a, l, r),
    ensures
        !attach_adds(b, l, r),
{
    assert forall|k: int| 0 <= k < l.len() implies has_ref_from(b[#[trigger] l[k] as int].references, r.from_file) by {
        assert(l[k] < a.len());
        assert(has_ref_from(a[l[k] as int].references, r.from_file));
        assert(refs_cover(a[l[k] as int].references, b[l[k] as int].references));
    }
}

// ---------------------------------------------------------------------------
// Index lists depend on names and kinds only
// ---------------------------------------------------------------------------

pub proof fn lemma_named_indices(a: Seq<ExportView>, b: Seq<ExportView>, name: crate::re_exports::graph::ExportNameView, k: int)
    requires
        covers(a, b),
        k <= a.len(),
    ensures
        named_indices(a, name, k) == named_indices(b, name, k),
        indices_within(named_indices(a, name, k), a.len() as int),
    decreases k,
{
    if k > 0 {
        lemma_named_indices(a, b, name, k - 1);
        assert(b[k - 1].name == a[k - 1].name);
    }
}

pub proof fn lemma_kind_indices(a: Seq<ExportView>, b: Seq<ExportView>, m: Seq<usize>, t: bool)
    requires
        covers(a, b),
        indices_within(m, a.len() as int),
    ensures
        kind_indices(a, m, t) == kind_indices(b, m, t),
        indices_within(kind_indices(a, m, t), a.len() as int),
    decreases m.len(),
{
    if m.len() > 0 {
        lemma_kind_indices(a, b, m.drop_last(), t);
        assert(m.last() < a.len());
        assert(b[m.last() as int].is_type_only == a[m.last() as int].is_type_only);
    }
}

pub proof fn lemma_non_default_indices(a: Seq<ExportView>, b: Seq<ExportView>, k: int)
    requires
        covers(a, b),
        k <= a.len(),
    ensures
        non_default_indices(a, k) == non_default_indices(b, k),
        indices_within(non_default_indices(a, k), a.len() as int),
    decreases k,
{
    if k > 0 {
        lemma_non_default_indices(a, b, k - 1);
        assert(b[k - 1].name == a[k - 1].name);
    }
}

pub proof fn lemma_indices_named(a: Seq<ExportView>, b: Seq<ExportView>, name: Seq<char>, k: int)
    requires
        covers(a, b),
        k <= a.len(),
    ensures
        indices_named(a, name, k) == indices_named(b, name, k),
        indices_within(indices_named(a, name, k), a.len() as int),
    decreases k,
{
    if k > 0 {
        lemma_indices_named(a, b, name, k - 1);
        assert(b[k - 1].name == a[k - 1].name);
    }
}


// ---------------------------------------------------------------------------
// Star references already attached
// ---------------------------------------------------------------------------

/// Every export the reference would reach (by its targets over the type and
/// value lists) already has a reference from its file.
pub open spec fn ref_settled(
    ex: Seq<ExportView>,
    sr: StarReference,
    tl: Seq<usize>,
    vl: Seq<usize>,
    mods: Map<u32, ImportBindingUsage>,
    trig: bool,
) -> bool {
    let t = star_targets(sr, mods, tl.len() > 0, vl.len() > 0, trig);
    &&& t.0 ==> !attach_adds(ex, tl, sr.reference)
    &&& t.1 ==> !attach_adds(ex, vl, sr.reference)
}

/// The first `k` references are settled.
pub open spec fn refs_settled(
    ex: Seq<ExportView>,
    refs: Seq<StarReference>,
    k: int,
    tl: Seq<usize>,
    vl: Seq<usize>,
    mods: Map<u32, ImportBindingUsage>,
    trig: bool,
) -> bool {
    forall|i: int| 0 <= i < k ==> ref_settled(ex, #[trigger] refs[i], tl, vl, mods, trig)
}

pub proof fn lemma_ref_settled_mono(
    a: Seq<ExportView>,
    b: Seq<ExportView>,
    sr: StarReference,
    tl: Seq<usize>,
    vl: Seq<usize>,
    mods: Map<u32, ImportBindingUsage>,
    trig: bool,
)
    requires
        covers(a, b),
        indices_within(tl, a.len() as int),
        indices_within(vl, a.len() as int),
        ref_settled(a, sr, tl, vl, mods, trig),
    ensures
        ref_settled(b, sr, tl, vl, mods, trig),
{
    let t = star_targets(sr, mods, tl.len() > 0, vl.len() > 0, trig);
    if t.0 {
        lemma_attach_adds_mono(a, b, tl, sr.reference);
    }
    if t.1 {
        lemma_attach_adds_mono(a, b, vl, sr.reference);
    }
}

pub proof fn lemma_refs_settled_mono(
    a: Seq<ExportView>,
    b: Seq<ExportView>,
    refs: Seq<StarReference>,
    k: int,
    tl: Seq<usize>,
    vl: Seq<usize>,
    mods: Map<u32, ImportBindingUsage>,
    trig: bool,
)
    requires
        covers(a, b),
        indices_within(tl, a.len() as int),
        indices_within(vl, a.len() as int),
        refs_settled(a, refs, k, tl, vl, mods, trig),
    ensures
        refs_settled(b, refs, k, tl, vl, mods, trig),
{
    assert forall|i: int| 0 <= i < k implies ref_settled(b, #[trigger] refs[i], tl, vl, mods, trig) by {
        lemma_ref_settled_mono(a, b, refs[i], tl, vl, mods, trig);
    }
}

/// Attaching the first `k` references only adds references, settles them,
/// changes nothing when it reports no change, and reports none when they
/// were settled already.
pub proof fn lemma_attach_all(
    ex: Seq<ExportView>,
    refs: Seq<StarReference>,
    k: int,
    tl: Seq<usize>,
    vl: Seq<usize>,
    mods: Map<u32, ImportBindingUsage>,
    trig: bool,
)
    requires
        ex.len() <= usize::MAX,
        k <= refs.len(),
        indices_within(tl, ex.len() as int),
        indices_within(vl, ex.len() as int),
    ensures
        covers(ex, attach_all(ex, refs, k, tl, vl, mods, trig).0),
        refs_settled(attach_all(ex, refs, k, tl, vl, mods, trig).0, refs, k, tl, vl, mods, trig),
        !attach_all(ex, refs, k, tl, vl, mods, trig).1 ==> attach_all(ex, refs, k, tl, vl, mods, trig).0 == ex,
        refs_settled(ex, refs, k, tl, vl, mods, trig) ==> !attach_all(ex, refs, k, tl, vl, mods, trig).1,
    decreases k,
{
    if k > 0 {
        lemma_attach_all(ex, refs, k - 1, tl, vl, mods, trig);
        let prev = attach_all(ex, refs, k - 1, tl, vl, mods, trig);
        let sr = refs[k - 1];
        let t = star_targets(sr, mods, tl.len() > 0, vl.len() > 0, trig);
        let ex1 = if t.0 {
            attach_to(prev.0, tl, sr.reference)
        } else {
            prev.0
        };
        let ex2 = if t.1 {
            attach_to(ex1, vl, sr.reference)
        } else {
            ex1
        };
        lemma_attach_to(prev.0, tl, sr.reference);
        lemma_attach_to(ex1, vl, sr.reference);
        assert(covers(prev.0, ex1));
        assert(covers(ex1, ex2));
        lemma_covers_trans(prev.0, ex1, ex2);
        lemma_covers_trans(ex, prev.0, ex2);
        assert(attach_all(ex, refs, k, tl, vl, mods, trig).0 == ex2);
        lemma_refs_settled_mono(prev.0, ex2, refs, k - 1, tl, vl, mods, trig);
        if t.0 {
            lemma_attach_to_settles(prev.0, tl, sr.reference);
            lemma_attach_adds_mono(ex1, ex2, tl, sr.reference);
        }
        if t.1 {
            lemma_attach_to_settles(ex1, vl, sr.reference);
        }
        assert(ref_settled(ex2, sr, tl, vl, mods, trig));
        assert forall|i: int| 0 <= i < k implies ref_settled(ex2, #[trigger] refs[i], tl, vl, mods, trig) by {
            if i < k - 1 {
            }
        }
        if refs_settled(ex, refs, k, tl, vl, mods, trig) {
            assert forall|i: int| 0 <= i < k - 1 implies ref_settled(ex, #[trigger] refs[i], tl, vl, mods, trig) by {
            }
            assert(ref_settled(ex, refs[k - 1], tl, vl, mods, trig));
        }
    }
}

// ---------------------------------------------------------------------------
// One name, then all names, applied to a source that cannot synthesize
// ---------------------------------------------------------------------------

/// The references of one name are settled on the source's matching exports
/// (a source without such exports has nothing to settle).
pub open spec fn group_settled(
    ex: Seq<ExportView>,
    name: Seq<char>,
    refs: Seq<StarReference>,
    mods: Map<u32, ImportBindingUsage>,
    trig: bool,
) -> bool {
    let m = named_indices(ex, export_name_of(name), ex.len() as int);
    m.len() > 0 ==> refs_settled(ex, refs, refs.len() as int, kind_indices(ex, m, true), kind_indices(ex, m, false), mods, trig)
}

pub proof fn lemma_group_settled_mono(
    a: Seq<ExportView>,
    b: Seq<ExportView>,
    name: Seq<char>,
    refs: Seq<StarReference>,
    mods: Map<u32, ImportBindingUsage>,
    trig: bool,
)
    requires
        covers(a, b),
        group_settled(a, name, refs, mods, trig),
    ensures
        group_settled(b, name, refs, mods, trig),
{
    let m = named_indices(a, export_name_of(name), a.len() as int);
    lemma_named_indices(a, b, export_name_of(name), a.len() as int);
    if m.len() > 0 {
        lemma_kind_indices(a, b, m, true);
        lemma_kind_indices(a, b, m, false);
        lemma_refs_settled_mono(
            a,
            b,
            refs,
            refs.len() as int,
            kind_indices(a, m, true),
            kind_indices(a, m, false),
            mods,
            trig,
        );
    }
}

pub proof fn lemma_source_result(
    ex: Seq<ExportView>,
    stubs: Set<(u32, Seq<char>, bool)>,
    sid: u32,
    name: Seq<char>,
    refs: Seq<StarReference>,
    mods: Map<u32, ImportBindingUsage>,
    trig: bool,
)
    requires
        ex.len() <= usize::MAX,
    ensures
        covers(ex, source_result(ex, stubs, sid, name, refs, mods, trig, false).0),
        source_result(ex, stubs, sid, name, refs, mods, trig, false).1 == stubs,
        group_settled(source_result(ex, stubs, sid, name, refs, mods, trig, false).0, name, refs, mods, trig),
        !source_result(ex, stubs, sid, name, refs, mods, trig, false).2 ==> source_result(
            ex,
            stubs,
            sid,
            name,
            refs,
            mods,
            trig,
            false,
        ).0 == ex,
        group_settled(ex, name, refs, mods, trig) ==> !source_result(ex, stubs, sid, name, refs, mods, trig, false).2,
{
    let m = named_indices(ex, export_name_of(name), ex.len() as int);
    lemma_named_indices(ex, ex, export_name_of(name), ex.len() as int);
    let res = source_result(ex, stubs, sid, name, refs, mods, trig, false);
    if m.len() > 0 {
        let tl = kind_indices(ex, m, true);
        let vl = kind_indices(ex, m, false);
        lemma_kind_indices(ex, ex, m, true);
        lemma_kind_indices(ex, ex, m, false);
        lemma_attach_all(ex, refs, refs.len() as int, tl, vl, mods, trig);
        let a = attach_all(ex, refs, refs.len() as int, tl, vl, mods, trig);
        assert(res == (a.0, stubs, a.1));
        lemma_named_indices(ex, a.0, export_name_of(name), ex.len() as int);
        lemma_kind_indices(ex, a.0, m, true);
        lemma_kind_indices(ex, a.0, m, false);
    } else {
        assert(res == (ex, stubs, false));
    }
}

/// The groups `0..k` are settled on `ex`.
pub open spec fn fold_settled(
    ex: Seq<ExportView>,
    groups: Seq<(Seq<char>, Seq<StarReference>)>,
    k: int,
    mods: Map<u32, ImportBindingUsage>,
    trig: bool,
) -> bool {
    forall|j: int| 0 <= j < k ==> group_settled(ex, (#[trigger] groups[j]).0, groups[j].1, mods, trig)
}

pub proof fn lemma_fold_settled_mono(
    a: Seq<ExportView>,
    b: Seq<ExportView>,
    groups: Seq<(Seq<char>, Seq<StarReference>)>,
    k: int,
    mods: Map<u32, ImportBindingUsage>,
    trig: bool,
)
    requires
        covers(a, b),
        fold_settled(a, groups, k, mods, trig),
    ensures
        fold_settled(b, groups, k, mods, trig),
{
    assert forall|j: int| 0 <= j < k implies group_settled(b, (#[trigger] groups[j]).0, groups[j].1, mods, trig) by {
        lemma_group_settled_mono(a, b, groups[j].0, groups[j].1, mods, trig);
    }
}

pub proof fn lemma_star_fold(
    ex: Seq<ExportView>,
    stubs: Set<(u32, Seq<char>, bool)>,
    sid: u32,
    groups: Seq<(Seq<char>, Seq<StarReference>)>,
    k: int,
    mods: Map<u32, ImportBindingUsage>,
    trig: bool,
)
    requires
        ex.len() <= usize::MAX,
        k <= groups.len(),
    ensures
        covers(ex, star_fold(ex, stubs, sid, groups, k, mods, trig, false).0),
        star_fold(ex, stubs, sid, groups, k, mods, trig, false).1 == stubs,
        fold_settled(star_fold(ex, stubs, sid, groups, k, mods, trig, false).0, groups, k, mods, trig),
        !star_fold(ex, stubs, sid, groups, k, mods, trig, false).2 ==> star_fold(ex, stubs, sid, groups, k, mods, trig, false).0
            == ex,
        fold_settled(ex, groups, k, mods, trig) ==> !star_fold(ex, stubs, sid, groups, k, mods, trig, false).2,
    decreases k,
{
    if k > 0 {
        lemma_star_fold(ex, stubs, sid, groups, k - 1, mods, trig);
        let prev = star_fold(ex, stubs, sid, groups, k - 1, mods, trig, false);
        let g = groups[k - 1];
        lemma_source_result(prev.0, prev.1, sid, g.0, g.1, mods, trig);
        let r = source_result(prev.0, prev.1, sid, g.0, g.1, mods, trig, false);
        lemma_covers_trans(ex, prev.0, r.0);
        lemma_fold_settled_mono(prev.0, r.0, groups, k - 1, mods, trig);
        assert forall|j: int| 0 <= j < k implies group_settled(r.0, (#[trigger] groups[j]).0, groups[j].1, mods, trig) by {
        }
        if fold_settled(ex, groups, k, mods, trig) {
            assert forall|j: int| 0 <= j < k - 1 implies group_settled(ex, (#[trigger] groups[j]).0, groups[j].1, mods, trig) by {
            }
            assert(group_settled(ex, groups[k - 1].0, groups[k - 1].1, mods, trig));
        }
    }
}


// ---------------------------------------------------------------------------
// Named re-exports: incoming references already merged
// ---------------------------------------------------------------------------

/// `refs` has a reference from the file of every incoming reference.
pub open spec fn refs_have(refs: Seq<SymbolReference>, incoming: Seq<SymbolReference>) -> bool {
    forall|j: int| 0 <= j < incoming.len() ==> has_ref_from(refs, (#[trigger] incoming[j]).from_file)
}

/// Every export named `name` has a reference from the file of every
/// incoming reference.
pub open spec fn merged(ex: Seq<ExportView>, name: Seq<char>, incoming: Seq<SymbolReference>) -> bool {
    forall|i: int| 0 <= i < ex.len() && name_matches(ex[i].name, name) ==> refs_have((#[trigger] ex[i]).references, incoming)
}

proof fn lemma_has_ref_concat(a: Seq<SymbolReference>, b: Seq<SymbolReference>, f: u32)
    requires
        has_ref_from(a, f) || has_ref_from(b, f),
    ensures
        has_ref_from(a + b, f),
{
    if has_ref_from(a, f) {
        let k = choose|k: int| 0 <= k < a.len() && (#[trigger] a[k]).from_file == f;
        assert((a + b)[k] == a[k]);
    } else {
        let k = choose|k: int| 0 <= k < b.len() && (#[trigger] b[k]).from_file == f;
        assert((a + b)[a.len() + k] == b[k]);
    }
}

proof fn lemma_refs_cover_concat(a: Seq<SymbolReference>, b: Seq<SymbolReference>)
    ensures
        refs_cover(a, a + b),
{
    assert forall|f: u32| has_ref_from(a, f) implies has_ref_from(a + b, f) by {
        lemma_has_ref_concat(a, b, f);
    }
}

proof fn lemma_new_refs_none(existing: Seq<SymbolReference>, incoming: Seq<SymbolReference>)
    requires
        refs_have(existing, incoming),
    ensures
        new_refs(existing, incoming) == Seq::<SymbolReference>::empty(),
    decreases incoming.len(),
{
    if incoming.len() > 0 {
        let d = incoming.drop_last();
        assert forall|j: int| 0 <= j < d.len() implies has_ref_from(existing, (#[trigger] d[j]).from_file) by {
            assert(d[j] == incoming[j]);
        }
        lemma_new_refs_none(existing, d);
        assert(has_ref_from(existing, incoming[incoming.len() - 1].from_file));
    }
}

proof fn lemma_new_refs_reach(existing: Seq<SymbolReference>, incoming: Seq<SymbolReference>)
    ensures
        forall|j: int|
            0 <= j < incoming.len() ==> has_ref_from(existing, (#[trigger] incoming[j]).from_file) || has_ref_from(
                new_refs(existing, incoming),
                incoming[j].from_file,
            ),
    decreases incoming.len(),
{
    if incoming.len() > 0 {
        let d = incoming.drop_last();
        lemma_new_refs_reach(existing, d);
        let prev = new_refs(existing, d);
        let cur = new_refs(existing, incoming);
        let last = incoming[incoming.len() - 1];
        assert forall|j: int| 0 <= j < incoming.len() implies has_ref_from(existing, (#[trigger] incoming[j]).from_file)
            || has_ref_from(cur, incoming[j].from_file) by {
            if !has_ref_from(existing, last.from_file) {
                assert(cur == prev.push(last));
                if j < incoming.len() - 1 {
                    assert(incoming[j] == d[j]);
                    if has_ref_from(prev, incoming[j].from_file) {
                        let k = choose|k: int| 0 <= k < prev.len() && (#[trigger] prev[k]).from_file == incoming[j].from_file;
                        assert(cur[k] == prev[k]);
                    }
                } else {
                    assert(cur[prev.len() as int] == last);
                }
            } else {
                assert(cur == prev);
                if j < incoming.len() - 1 {
                    assert(incoming[j] == d[j]);
                }
            }
        }
    }
}

pub proof fn lemma_merge_named(ex: Seq<ExportView>, name: Seq<char>, incoming: Seq<SymbolReference>)
    ensures
        covers(ex, merge_named(ex, name, incoming)),
        merged(merge_named(ex, name, incoming), name, incoming),
        !merge_adds(ex, name, incoming) ==> merge_named(ex, name, incoming) == ex,
        merged(ex, name, incoming) ==> !merge_adds(ex, name, incoming),
{
    let mn = merge_named(ex, name, incoming);
    assert forall|i: int| 0 <= i < ex.len() implies {
        &&& (#[trigger] mn[i]).name == ex[i].name
        &&& mn[i].is_type_only == ex[i].is_type_only
        &&& refs_cover(ex[i].references, mn[i].references)
    } by {
        if name_matches(ex[i].name, name) {
            lemma_refs_cover_concat(ex[i].references, new_refs(ex[i].references, incoming));
        }
    }
    assert forall|i: int| 0 <= i < mn.len() && name_matches(mn[i].name, name) implies refs_have((#[trigger] mn[i]).references, incoming) by {
        let e = ex[i].references;
        let x = new_refs(e, incoming);
        lemma_new_refs_reach(e, incoming);
        assert forall|j: int| 0 <= j < incoming.len() implies has_ref_from(e + x, (#[trigger] incoming[j]).from_file) by {
            lemma_has_ref_concat(e, x, incoming[j].from_file);
        }
    }
    if !merge_adds(ex, name, incoming) {
        assert forall|i: int| 0 <= i < ex.len() implies #[trigger] mn[i] == ex[i] by {
            if name_matches(ex[i].name, name) {
                assert(!(new_refs(ex[i].references, incoming).len() > 0));
                assert(ex[i].references + new_refs(ex[i].references, incoming) =~= ex[i].references);
            }
        }
        assert(mn =~= ex);
    }
    if merged(ex, name, incoming) {
        assert forall|i: int| 0 <= i < ex.len() && name_matches(ex[i].name, name) implies !(#[trigger] new_refs(
            ex[i].references,
            incoming,
        ).len() > 0) by {
            lemma_new_refs_none(ex[i].references, incoming);
        }
    }
}

pub proof fn lemma_merged_mono(a: Seq<ExportView>, b: Seq<ExportView>, name: Seq<char>, incoming: Seq<SymbolReference>)
    requires
        covers(a, b),
        merged(a, name, incoming),
    ensures
        merged(b, name, incoming),
{
    assert forall|i: int| 0 <= i < b.len() && name_matches(b[i].name, name) implies refs_have((#[trigger] b[i]).references, incoming) by {
        assert(b[i].name == a[i].name);
        assert(refs_have(a[i].references, incoming));
        assert(refs_cover(a[i].references, b[i].references));
        assert forall|j: int| 0 <= j < incoming.len() implies has_ref_from(b[i].references, (#[trigger] incoming[j]).from_file) by {
            assert(has_ref_from(a[i].references, incoming[j].from_file));
        }
    }
}


// ---------------------------------------------------------------------------
// One re-export edge
// ---------------------------------------------------------------------------

/// The barrel's `export *` from a source with exports `src` has nothing
/// left to add: an entry-point barrel (or one an entry point reaches through
/// `export *`) has marked every non-default export; otherwise the references
/// crossing the barrel are settled name by name.
pub open spec fn star_covered(
    barrel: ModuleNode,
    src: Seq<ExportView>,
    edges: Seq<Edge>,
    by_target: Map<u32, Vec<usize>>,
    mods: Map<u32, ImportBindingUsage>,
    barrel_id: u32,
    entry_star_targets: Set<u32>,
    trig: bool,
) -> bool {
    if barrel.entry_point || entry_star_targets.contains(barrel.file_id) {
        !attach_adds(src, non_default_indices(src, src.len() as int), re_export_reference(barrel_id))
    } else {
        let groups = star_refs_by_name(barrel, edges, by_target);
        fold_settled(src, groups, groups.len() as int, mods, trig)
    }
}

/// The barrel's named re-export of `imported` (as `exported`) from a source
/// with exports `src` has nothing left to add.
pub open spec fn named_covered(
    barrel: ModuleNode,
    src: Seq<ExportView>,
    barrel_id: u32,
    imported: Seq<char>,
    exported: Seq<char>,
) -> bool {
    let incoming = barrel_refs(exports_view(barrel.exports@), exported, barrel.exports@.len() as int);
    if incoming.len() == 0 {
        barrel.entry_point ==> !attach_adds(src, indices_named(src, imported, src.len() as int), re_export_reference(barrel_id))
    } else {
        merged(src, imported, incoming)
    }
}

/// One star propagation into a source that does not forward through its own
/// `export *`: it only adds references, leaves the stubs alone, changes
/// nothing when it reports no change, leaves the edge covered, and reports
/// no change on a covered edge.
pub proof fn lemma_star_step(
    barrel: ModuleNode,
    source: ModuleNode,
    edges: Seq<Edge>,
    by_target: Map<u32, Vec<usize>>,
    mods: Map<u32, ImportBindingUsage>,
    barrel_id: u32,
    source_id: u32,
    entry_star_targets: Set<u32>,
    trig: bool,
    stubs: Set<(u32, Seq<char>, bool)>,
)
    requires
        !forwards_star(source),
        source.exports@.len() <= usize::MAX,
    ensures
        ({
            let src = exports_view(source.exports@);
            let res = star_result(barrel, source, edges, by_target, mods, barrel_id, source_id, entry_star_targets, trig, stubs);
            &&& covers(src, res.0)
            &&& res.1 == stubs
            &&& !res.2 ==> res.0 == src
            &&& star_covered(barrel, res.0, edges, by_target, mods, barrel_id, entry_star_targets, trig)
            &&& star_covered(barrel, src, edges, by_target, mods, barrel_id, entry_star_targets, trig) ==> !res.2
        }),
{
    let src = exports_view(source.exports@);
    let res = star_result(barrel, source, edges, by_target, mods, barrel_id, source_id, entry_star_targets, trig, stubs);
    if barrel.entry_point || entry_star_targets.contains(barrel.file_id) {
        let targets = non_default_indices(src, src.len() as int);
        lemma_non_default_indices(src, src, src.len() as int);
        lemma_attach_to(src, targets, re_export_reference(barrel_id));
        lemma_attach_to_settles(src, targets, re_export_reference(barrel_id));
        lemma_non_default_indices(src, res.0, src.len() as int);
    } else {
        let groups = star_refs_by_name(barrel, edges, by_target);
        lemma_star_fold(src, stubs, source_id, groups, groups.len() as int, mods, trig);
    }
}

pub proof fn lemma_star_covered_mono(
    barrel: ModuleNode,
    a: Seq<ExportView>,
    b: Seq<ExportView>,
    edges: Seq<Edge>,
    by_target: Map<u32, Vec<usize>>,
    mods: Map<u32, ImportBindingUsage>,
    barrel_id: u32,
    entry_star_targets: Set<u32>,
    trig: bool,
)
    requires
        covers(a, b),
        star_covered(barrel, a, edges, by_target, mods, barrel_id, entry_star_targets, trig),
    ensures
        star_covered(barrel, b, edges, by_target, mods, barrel_id, entry_star_targets, trig),
{
    if barrel.entry_point || entry_star_targets.contains(barrel.file_id) {
        lemma_non_default_indices(a, b, a.len() as int);
        lemma_attach_adds_mono(a, b, non_default_indices(a, a.len() as int), re_export_reference(barrel_id));
    } else {
        let groups = star_refs_by_name(barrel, edges, by_target);
        lemma_fold_settled_mono(a, b, groups, groups.len() as int, mods, trig);
    }
}

/// One named propagation: the same facts as [`lemma_star_step`].
pub proof fn lemma_named_step(
    barrel: ModuleNode,
    src: Seq<ExportView>,
    barrel_id: u32,
    imported: Seq<char>,
    exported: Seq<char>,
)
    requires
        src.len() <= usize::MAX,
    ensures
        ({
            let res = named_result(barrel, src, barrel_id, imported, exported);
            &&& covers(src, res.0)
            &&& !res.1 ==> res.0 == src
            &&& named_covered(barrel, res.0, barrel_id, imported, exported)
            &&& named_covered(barrel, src, barrel_id, imported, exported) ==> !res.1
        }),
{
    let res = named_result(barrel, src, barrel_id, imported, exported);
    let incoming = barrel_refs(exports_view(barrel.exports@), exported, barrel.exports@.len() as int);
    if incoming.len() == 0 {
        let targets = indices_named(src, imported, src.len() as int);
        lemma_indices_named(src, src, imported, src.len() as int);
        lemma_attach_to(src, targets, re_export_reference(barrel_id));
        lemma_attach_to_settles(src, targets, re_export_reference(barrel_id));
        if barrel.entry_point {
            lemma_indices_named(src, res.0, imported, src.len() as int);
        } else {
            lemma_covers_refl(src);
        }
    } else {
        lemma_merge_named(src, imported, incoming);
    }
}

pub proof fn lemma_named_covered_mono(
    barrel: ModuleNode,
    a: Seq<ExportView>,
    b: Seq<ExportView>,
    barrel_id: u32,
    imported: Seq<char>,
    exported: Seq<char>,
)
    requires
        covers(a, b),
        named_covered(barrel, a, barrel_id, imported, exported),
    ensures
        named_covered(barrel, b, barrel_id, imported, exported),
{
    let incoming = barrel_refs(exports_view(barrel.exports@), exported, barrel.exports@.len() as int);
    if incoming.len() == 0 {
        if barrel.entry_point {
            lemma_indices_named(a, b, imported, a.len() as int);
            lemma_attach_adds_mono(a, b, indices_named(a, imported, a.len() as int), re_export_reference(barrel_id));
        }
    } else {
        lemma_merged_mono(a, b, imported, incoming);
    }
}


// ---------------------------------------------------------------------------
// Edges of the graph
// ---------------------------------------------------------------------------

/// No star re-export can synthesize exports: the source of every
/// `export *` edge that names a module of the graph does not forward through
/// an `export *` of its own. Where one does, the work queue can stop short
/// of a fixpoint: with `1: export { x } from 0` (1's own `x` used by file
/// 7), `2: export * from 0` (`x` imported from 2 by file 8) and
/// `0: export * from 3`, the star edge from 2 synthesizes `0.x` after the
/// named edge from 1 ran, and nothing queues that edge again.
pub open spec fn no_star_synthesis(modules: Seq<ModuleNode>, tuples: Seq<ReExportTuple>) -> bool {
    forall|k: int|
        0 <= k < tuples.len() && (#[trigger] tuples[k]).exported_name@ == "*"@ && (tuples[k].source as int) < modules.len()
            ==> !forwards_star(modules[tuples[k].source as int])
}

/// The edge `e` has nothing left to add to the graph `m`; an edge naming a
/// file outside the graph never has.
pub open spec fn entry_covered(
    m: Seq<ModuleNode>,
    edges: Seq<Edge>,
    by_target: Map<u32, Vec<usize>>,
    mods: Map<u32, ImportBindingUsage>,
    entry_star_targets: Set<u32>,
    e: ReExportTuple,
) -> bool {
    (e.barrel as int) < m.len() && (e.source as int) < m.len() ==> {
        let barrel = m[e.barrel as int];
        let src = exports_view(m[e.source as int].exports@);
        if e.exported_name@ == "*"@ {
            star_covered(barrel, src, edges, by_target, mods, e.barrel, entry_star_targets, e.is_type_only)
        } else {
            named_covered(barrel, src, e.barrel, e.imported_name@, e.exported_name@)
        }
    }
}

/// Propagating the edge `e` over the graph `m` (with no synthetic stubs
/// recorded) changes nothing and reports no change: the source's exports
/// and the stubs come back as they were.
pub open spec fn entry_settled(
    m: Seq<ModuleNode>,
    edges: Seq<Edge>,
    by_target: Map<u32, Vec<usize>>,
    mods: Map<u32, ImportBindingUsage>,
    entry_star_targets: Set<u32>,
    e: ReExportTuple,
) -> bool {
    (e.barrel as int) < m.len() && (e.source as int) < m.len() ==> {
        let src = exports_view(m[e.source as int].exports@);
        if e.exported_name@ == "*"@ {
            star_result(
                m[e.barrel as int],
                m[e.source as int],
                edges,
                by_target,
                mods,
                e.barrel,
                e.source,
                entry_star_targets,
                e.is_type_only,
                Set::empty(),
            ) == (src, Set::<(u32, Seq<char>, bool)>::empty(), false)
        } else {
            named_result(m[e.barrel as int], src, e.barrel, e.imported_name@, e.exported_name@) == (src, false)
        }
    }
}

pub proof fn lemma_exports_fit(m: ModuleNode)
    ensures
        m.exports@.len() <= usize::MAX,
        exports_view(m.exports@).len() == m.exports@.len(),
{
    assert(m.exports@.len() == m.exports.len());
}

/// A covered edge is settled.
pub proof fn lemma_covered_settled(
    m: Seq<ModuleNode>,
    edges: Seq<Edge>,
    by_target: Map<u32, Vec<usize>>,
    mods: Map<u32, ImportBindingUsage>,
    entry_star_targets: Set<u32>,
    e: ReExportTuple,
)
    requires
        entry_covered(m, edges, by_target, mods, entry_star_targets, e),
        e.exported_name@ == "*"@ && (e.source as int) < m.len() ==> !forwards_star(m[e.source as int]),
    ensures
        entry_settled(m, edges, by_target, mods, entry_star_targets, e),
{
    if (e.barrel as int) < m.len() && (e.source as int) < m.len() {
        let barrel = m[e.barrel as int];
        let source = m[e.source as int];
        lemma_exports_fit(source);
        if e.exported_name@ == "*"@ {
            lemma_star_step(
                barrel,
                source,
                edges,
                by_target,
                mods,
                e.barrel,
                e.source,
                entry_star_targets,
                e.is_type_only,
                Set::empty(),
            );
        } else {
            lemma_named_step(barrel, exports_view(source.exports@), e.barrel, e.imported_name@, e.exported_name@);
        }
    }
}

/// Coverage reads a barrel only through its file, its entry flag and its
/// exports.
pub proof fn lemma_barrel_congruence(
    b1: ModuleNode,
    b2: ModuleNode,
    src: Seq<ExportView>,
    edges: Seq<Edge>,
    by_target: Map<u32, Vec<usize>>,
    mods: Map<u32, ImportBindingUsage>,
    barrel_id: u32,
    entry_star_targets: Set<u32>,
    e: ReExportTuple,
)
    requires
        b1.file_id == b2.file_id,
        b1.entry_point == b2.entry_point,
        exports_view(b1.exports@) == exports_view(b2.exports@),
    ensures
        star_covered(b1, src, edges, by_target, mods, barrel_id, entry_star_targets, e.is_type_only) == star_covered(
            b2,
            src,
            edges,
            by_target,
            mods,
            barrel_id,
            entry_star_targets,
            e.is_type_only,
        ),
        named_covered(b1, src, barrel_id, e.imported_name@, e.exported_name@) == named_covered(
            b2,
            src,
            barrel_id,
            e.imported_name@,
            e.exported_name@,
        ),
{
    lemma_exports_fit(b1);
    lemma_exports_fit(b2);
    assert(star_refs_by_name(b1, edges, by_target) == star_refs_by_name(b2, edges, by_target));
}

/// One propagation step of the edge `e` (from `before` to `after`) keeps
/// another covered edge `f` covered, unless the step changed the module `f`
/// reads from its barrel side.
pub proof fn lemma_step_keeps_covered(
    before: Seq<ModuleNode>,
    after: Seq<ModuleNode>,
    edges: Seq<Edge>,
    by_target: Map<u32, Vec<usize>>,
    mods: Map<u32, ImportBindingUsage>,
    entry_star_targets: Set<u32>,
    e: ReExportTuple,
    f: ReExportTuple,
    changed: bool,
)
    requires
        (e.source as int) < before.len(),
        after.len() == before.len(),
        forall|j: int| 0 <= j < before.len() && j != e.source as int ==> #[trigger] after[j] == before[j],
        after[e.source as int].file_id == before[e.source as int].file_id,
        after[e.source as int].entry_point == before[e.source as int].entry_point,
        covers(exports_view(before[e.source as int].exports@), exports_view(after[e.source as int].exports@)),
        !changed ==> exports_view(after[e.source as int].exports@) == exports_view(before[e.source as int].exports@),
        changed ==> f.barrel != e.source,
        entry_covered(before, edges, by_target, mods, entry_star_targets, f),
    ensures
        entry_covered(after, edges, by_target, mods, entry_star_targets, f),
{
    let fb = f.barrel as int;
    let fs = f.source as int;
    if fb < before.len() && fs < before.len() {
        let s0 = exports_view(before[fs].exports@);
        let s1 = exports_view(after[fs].exports@);
        // The source side: unchanged, or it only gained references.
        if fs != e.source as int {
            assert(after[fs] == before[fs]);
            lemma_covers_refl(s0);
        }
        assert(covers(s0, s1));
        // The barrel side reads the same values.
        lemma_barrel_congruence(after[fb], before[fb], s1, edges, by_target, mods, f.barrel, entry_star_targets, f);
        if f.exported_name@ == "*"@ {
            lemma_star_covered_mono(before[fb], s0, s1, edges, by_target, mods, f.barrel, entry_star_targets, f.is_type_only);
        } else {
            lemma_named_covered_mono(before[fb], s0, s1, f.barrel, f.imported_name@, f.exported_name@);
        }
    }
}


/// What one propagation step of the edge `e` does (as the propagation
/// reports it, from no recorded stubs) when `e` cannot synthesize: no stub
/// is recorded, the source only gains references (none when the step
/// reports no change), and `e` is covered afterwards unless it is its own
/// observer and changed.
pub proof fn lemma_entry_step(
    before: Seq<ModuleNode>,
    after: Seq<ModuleNode>,
    edges: Seq<Edge>,
    by_target: Map<u32, Vec<usize>>,
    mods: Map<u32, ImportBindingUsage>,
    entry_star_targets: Set<u32>,
    e: ReExportTuple,
    stubs: Set<(u32, Seq<char>, bool)>,
    changed: bool,
)
    requires
        e.exported_name@ == "*"@ && (e.source as int) < before.len() ==> !forwards_star(before[e.source as int]),
        (e.barrel as int) >= before.len() || (e.source as int) >= before.len() ==> !changed && after == before && stubs
            == Set::<(u32, Seq<char>, bool)>::empty(),
        (e.barrel as int) < before.len() && (e.source as int) < before.len() ==> {
            let b = e.barrel as int;
            let s = e.source as int;
            &&& after.len() == before.len()
            &&& forall|j: int| 0 <= j < before.len() && j != s ==> #[trigger] after[j] == before[j]
            &&& after[s].file_id == before[s].file_id
            &&& after[s].entry_point == before[s].entry_point
            &&& if e.exported_name@ == "*"@ {
                (exports_view(after[s].exports@), stubs, changed) == star_result(
                    before[b],
                    before[s],
                    edges,
                    by_target,
                    mods,
                    e.barrel,
                    e.source,
                    entry_star_targets,
                    e.is_type_only,
                    Set::empty(),
                )
            } else {
                &&& (exports_view(after[s].exports@), changed) == named_result(
                    before[b],
                    exports_view(before[s].exports@),
                    e.barrel,
                    e.imported_name@,
                    e.exported_name@,
                )
                &&& stubs == Set::<(u32, Seq<char>, bool)>::empty()
            }
        },
    ensures
        stubs == Set::<(u32, Seq<char>, bool)>::empty(),
        (e.barrel as int) < before.len() && (e.source as int) < before.len() ==> covers(
            exports_view(before[e.source as int].exports@),
            exports_view(after[e.source as int].exports@),
        ) && (!changed ==> exports_view(after[e.source as int].exports@) == exports_view(before[e.source as int].exports@)),
        (e.barrel as int) < before.len() && (e.source as int) < before.len() && changed ==> gains_ref(
            exports_view(before[e.source as int].exports@),
            exports_view(after[e.source as int].exports@),
        ),
        !(changed && e.barrel == e.source) ==> entry_covered(after, edges, by_target, mods, entry_star_targets, e),
{
    let b = e.barrel as int;
    let s = e.source as int;
    if b < before.len() && s < before.len() {
        let src0 = exports_view(before[s].exports@);
        let src1 = exports_view(after[s].exports@);
        lemma_exports_fit(before[s]);
        lemma_step_gains(before[b], before[s], edges, by_target, mods, e, entry_star_targets);
        if e.exported_name@ == "*"@ {
            lemma_star_step(
                before[b],
                before[s],
                edges,
                by_target,
                mods,
                e.barrel,
                e.source,
                entry_star_targets,
                e.is_type_only,
                Set::empty(),
            );
        } else {
            lemma_named_step(before[b], src0, e.barrel, e.imported_name@, e.exported_name@);
        }
        if !(changed && e.barrel == e.source) {
            // The barrel reads as it did before the step.
            if b != s {
                assert(after[b] == before[b]);
            }
            lemma_barrel_congruence(after[b], before[b], src1, edges, by_target, mods, e.barrel, entry_star_targets, e);
        }
    }
}


// ---------------------------------------------------------------------------
// A reported change is a new reference
// ---------------------------------------------------------------------------

/// Some export of `b` has a reference from a file that the same export of
/// `a` has none from.
pub open spec fn gains_ref(a: Seq<ExportView>, b: Seq<ExportView>) -> bool {
    exists|i: int, f: u32|
        0 <= i < a.len() && i < b.len() && !has_ref_from(a[i].references, f) && #[trigger] has_ref_from(b[i].references, f)
}

proof fn lemma_gains_ref_then_covers(a: Seq<ExportView>, b: Seq<ExportView>, c: Seq<ExportView>)
    requires
        gains_ref(a, b),
        covers(b, c),
    ensures
        gains_ref(a, c),
{
    let (i, f) = choose|i: int, f: u32|
        0 <= i < a.len() && i < b.len() && !has_ref_from(a[i].references, f) && #[trigger] has_ref_from(b[i].references, f);
    assert(refs_cover(b[i].references, c[i].references));
    assert(has_ref_from(c[i].references, f));
}

proof fn lemma_covers_then_gains_ref(a: Seq<ExportView>, b: Seq<ExportView>, c: Seq<ExportView>)
    requires
        covers(a, b),
        gains_ref(b, c),
    ensures
        gains_ref(a, c),
{
    let (i, f) = choose|i: int, f: u32|
        0 <= i < b.len() && i < c.len() && !has_ref_from(b[i].references, f) && #[trigger] has_ref_from(c[i].references, f);
    assert(refs_cover(a[i].references, b[i].references));
    assert(!has_ref_from(a[i].references, f));
    assert(has_ref_from(c[i].references, f));
}

pub proof fn lemma_attach_gains(ex: Seq<ExportView>, l: Seq<usize>, r: SymbolReference)
    requires
        ex.len() <= usize::MAX,
        indices_within(l, ex.len() as int),
        attach_adds(ex, l, r),
    ensures
        gains_ref(ex, attach_to(ex, l, r)),
{
    let k = choose|k: int| 0 <= k < l.len() && !has_ref_from(ex[#[trigger] l[k] as int].references, r.from_file);
    lemma_attach_to(ex, l, r);
    assert(l[k] < ex.len());
    assert(has_ref_from(attach_to(ex, l, r)[l[k] as int].references, r.from_file));
}

pub proof fn lemma_attach_all_gains(
    ex: Seq<ExportView>,
    refs: Seq<StarReference>,
    k: int,
    tl: Seq<usize>,
    vl: Seq<usize>,
    mods: Map<u32, ImportBindingUsage>,
    trig: bool,
)
    requires
        ex.len() <= usize::MAX,
        k <= refs.len(),
        indices_within(tl, ex.len() as int),
        indices_within(vl, ex.len() as int),
        attach_all(ex, refs, k, tl, vl, mods, trig).1,
    ensures
        gains_ref(ex, attach_all(ex, refs, k, tl, vl, mods, trig).0),
    decreases k,
{
    let prev = attach_all(ex, refs, k - 1, tl, vl, mods, trig);
    let sr = refs[k - 1];
    let t = star_targets(sr, mods, tl.len() > 0, vl.len() > 0, trig);
    let ex1 = if t.0 {
        attach_to(prev.0, tl, sr.reference)
    } else {
        prev.0
    };
    let ex2 = if t.1 {
        attach_to(ex1, vl, sr.reference)
    } else {
        ex1
    };
    lemma_attach_all(ex, refs, k - 1, tl, vl, mods, trig);
    lemma_attach_to(prev.0, tl, sr.reference);
    lemma_attach_to(ex1, vl, sr.reference);
    lemma_covers_refl(ex1);
    lemma_covers_refl(prev.0);
    assert(covers(prev.0, ex1));
    assert(covers(ex1, ex2));
    lemma_covers_trans(prev.0, ex1, ex2);
    if prev.1 {
        lemma_attach_all_gains(ex, refs, k - 1, tl, vl, mods, trig);
        lemma_gains_ref_then_covers(ex, prev.0, ex2);
    } else if t.0 && attach_adds(prev.0, tl, sr.reference) {
        lemma_attach_gains(prev.0, tl, sr.reference);
        lemma_gains_ref_then_covers(ex, ex1, ex2);
    } else {
        lemma_attach_gains(ex1, vl, sr.reference);
        lemma_covers_then_gains_ref(ex, ex1, ex2);
    }
}

pub proof fn lemma_star_fold_gains(
    ex: Seq<ExportView>,
    stubs: Set<(u32, Seq<char>, bool)>,
    sid: u32,
    groups: Seq<(Seq<char>, Seq<StarReference>)>,
    k: int,
    mods: Map<u32, ImportBindingUsage>,
    trig: bool,
)
    requires
        ex.len() <= usize::MAX,
        k <= groups.len(),
        star_fold(ex, stubs, sid, groups, k, mods, trig, false).2,
    ensures
        gains_ref(ex, star_fold(ex, stubs, sid, groups, k, mods, trig, false).0),
    decreases k,
{
    let prev = star_fold(ex, stubs, sid, groups, k - 1, mods, trig, false);
    let g = groups[k - 1];
    lemma_star_fold(ex, stubs, sid, groups, k - 1, mods, trig);
    lemma_source_result(prev.0, prev.1, sid, g.0, g.1, mods, trig);
    let r = source_result(prev.0, prev.1, sid, g.0, g.1, mods, trig, false);
    if prev.2 {
        lemma_star_fold_gains(ex, stubs, sid, groups, k - 1, mods, trig);
        lemma_gains_ref_then_covers(ex, prev.0, r.0);
    } else {
        let m = named_indices(prev.0, export_name_of(g.0), prev.0.len() as int);
        lemma_named_indices(prev.0, prev.0, export_name_of(g.0), prev.0.len() as int);
        let tl = kind_indices(prev.0, m, true);
        let vl = kind_indices(prev.0, m, false);
        lemma_kind_indices(prev.0, prev.0, m, true);
        lemma_kind_indices(prev.0, prev.0, m, false);
        lemma_attach_all_gains(prev.0, g.1, g.1.len() as int, tl, vl, mods, trig);
    }
}

proof fn lemma_new_refs_fresh(existing: Seq<SymbolReference>, incoming: Seq<SymbolReference>)
    ensures
        forall|j: int| 0 <= j < new_refs(existing, incoming).len() ==> !has_ref_from(existing, (#[trigger] new_refs(existing, incoming)[j]).from_file),
    decreases incoming.len(),
{
    if incoming.len() > 0 {
        lemma_new_refs_fresh(existing, incoming.drop_last());
        let prev = new_refs(existing, incoming.drop_last());
        let cur = new_refs(existing, incoming);
        assert forall|j: int| 0 <= j < cur.len() implies !has_ref_from(existing, (#[trigger] cur[j]).from_file) by {
            if j < prev.len() {
                assert(cur[j] == prev[j]);
            }
        }
    }
}

/// Some module of `b` gained a reference on an export it had in `a`.
pub open spec fn graph_gains_ref(a: Seq<ModuleNode>, b: Seq<ModuleNode>) -> bool {
    exists|s: int| 0 <= s < a.len() && s < b.len() && #[trigger] gains_ref(exports_view(a[s].exports@), exports_view(b[s].exports@))
}

/// A gained reference stays gained as the exports keep growing.
pub proof fn lemma_gains_ref_grows(a: Seq<ExportView>, b: Seq<ExportView>, c: Seq<ExportView>)
    requires
        gains_ref(a, b),
        exports_grow(b, c),
    ensures
        gains_ref(a, c),
{
    let (i, f) = choose|i: int, f: u32|
        0 <= i < a.len() && i < b.len() && !has_ref_from(a[i].references, f) && #[trigger] has_ref_from(b[i].references, f);
    assert(export_grows(b[i], c[i]));
    let k = choose|k: int| 0 <= k < b[i].references.len() && (#[trigger] b[i].references[k]).from_file == f;
    assert(c[i].references.subrange(0, b[i].references.len() as int)[k] == c[i].references[k]);
    assert(has_ref_from(c[i].references, f));
}

/// A gain over grown exports of the same length is a gain over the
/// original ones.
pub proof fn lemma_grows_then_gains_ref(a: Seq<ExportView>, b: Seq<ExportView>, c: Seq<ExportView>)
    requires
        exports_grow(a, b),
        a.len() == b.len(),
        gains_ref(b, c),
    ensures
        gains_ref(a, c),
{
    let (i, f) = choose|i: int, f: u32|
        0 <= i < b.len() && i < c.len() && !has_ref_from(b[i].references, f) && #[trigger] has_ref_from(c[i].references, f);
    assert(export_grows(a[i], b[i]));
    if has_ref_from(a[i].references, f) {
        let k = choose|k: int| 0 <= k < a[i].references.len() && (#[trigger] a[i].references[k]).from_file == f;
        assert(b[i].references.subrange(0, a[i].references.len() as int)[k] == b[i].references[k]);
        assert(has_ref_from(b[i].references, f));
    }
}

/// A propagation step that reports a change gives the source a reference
/// from a new file.
pub proof fn lemma_step_gains(
    barrel: ModuleNode,
    source: ModuleNode,
    edges: Seq<Edge>,
    by_target: Map<u32, Vec<usize>>,
    mods: Map<u32, ImportBindingUsage>,
    e: ReExportTuple,
    entry_star_targets: Set<u32>,
)
    requires
        e.exported_name@ == "*"@ ==> !forwards_star(source),
    ensures
        e.exported_name@ == "*"@ && star_result(
            barrel,
            source,
            edges,
            by_target,
            mods,
            e.barrel,
            e.source,
            entry_star_targets,
            e.is_type_only,
            Set::empty(),
        ).2 ==> gains_ref(
            exports_view(source.exports@),
            star_result(
                barrel,
                source,
                edges,
                by_target,
                mods,
                e.barrel,
                e.source,
                entry_star_targets,
                e.is_type_only,
                Set::empty(),
            ).0,
        ),
        e.exported_name@ != "*"@ && named_result(barrel, exports_view(source.exports@), e.barrel, e.imported_name@, e.exported_name@).1
            ==> gains_ref(
            exports_view(source.exports@),
            named_result(barrel, exports_view(source.exports@), e.barrel, e.imported_name@, e.exported_name@).0,
        ),
{
    let src = exports_view(source.exports@);
    lemma_exports_fit(source);
    if e.exported_name@ == "*"@ {
        if barrel.entry_point || entry_star_targets.contains(barrel.file_id) {
            let targets = non_default_indices(src, src.len() as int);
            lemma_non_default_indices(src, src, src.len() as int);
            if attach_adds(src, targets, re_export_reference(e.barrel)) {
                lemma_attach_gains(src, targets, re_export_reference(e.barrel));
            }
        } else {
            let groups = star_refs_by_name(barrel, edges, by_target);
            if star_fold(src, Set::empty(), e.source, groups, groups.len() as int, mods, e.is_type_only, false).2 {
                lemma_star_fold_gains(src, Set::empty(), e.source, groups, groups.len() as int, mods, e.is_type_only);
            }
        }
    } else {
        let incoming = barrel_refs(exports_view(barrel.exports@), e.exported_name@, barrel.exports@.len() as int);
        if incoming.len() == 0 {
            let targets = indices_named(src, e.imported_name@, src.len() as int);
            lemma_indices_named(src, src, e.imported_name@, src.len() as int);
            if barrel.entry_point && attach_adds(src, targets, re_export_reference(e.barrel)) {
                lemma_attach_gains(src, targets, re_export_reference(e.barrel));
            }
        } else if merge_adds(src, e.imported_name@, incoming) {
            let i = choose|i: int| 0 <= i < src.len() && name_matches(src[i].name, e.imported_name@) && #[trigger] new_refs(
                src[i].references,
                incoming,
            ).len() > 0;
            let x = new_refs(src[i].references, incoming);
            lemma_new_refs_fresh(src[i].references, incoming);
            assert(!has_ref_from(src[i].references, x[0].from_file));
            let mn = merge_named(src, e.imported_name@, incoming);
            assert(mn[i].references == src[i].references + x);
            assert(mn[i].references[src[i].references.len() as int] == x[0]);
            assert(has_ref_from(mn[i].references, x[0].from_file));
        }
    }
}

} // verus!
