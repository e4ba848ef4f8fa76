//! Why re-export propagation stays within its step cap.
//!
//! Every reference in the graph comes from a file of the graph, and
//! propagation only copies references it finds (or makes one from a barrel
//! of the graph), so references stay within the graph's files. Each step
//! that reports a change gives some export a reference from a file it had
//! none from; the number of (export, file) pairs is bounded by the exports
//! times the files, which bounds the changing steps, and every other step
//! consumes a queued edge.

use vstd::prelude::*;

use crate::re_exports::attach::ImportBindingUsage;
use crate::re_exports::graph::{
    exports_view, has_ref_from, re_export_reference, Edge, ExportView, ModuleNode, SymbolReference,
};
use crate::re_exports::propagate::{
    attach_all, attach_to, barrel_pairs, barrel_refs, edge_indices_within, edges_into, export_ref_pairs, forwards_star,
    grouped, group_index, import_pairs, indices_named, indices_within, kind_indices, merge_named, named_indices,
    named_result, new_refs, non_default_indices, source_result, star_fold, star_refs_by_name, star_result,
    star_targets, symbol_pairs, with_ref, StarReference,
};
use crate::re_exports::settle::{
    covers, gains_ref, lemma_exports_fit, lemma_kind_indices, lemma_named_indices, lemma_non_default_indices,
    lemma_indices_named, refs_cover,
};

verus! {

// ---------------------------------------------------------------------------
// References come from files of the graph
// ---------------------------------------------------------------------------

pub open spec fn refs_within(refs: Seq<SymbolReference>, n: int) -> bool {
    forall|k: int| 0 <= k < refs.len() ==> (#[trigger] refs[k]).from_file < n
}

pub open spec fn exports_within(ex: Seq<ExportView>, n: int) -> bool {
    forall|i: int| 0 <= i < ex.len() ==> refs_within((#[trigger] ex[i]).references, n)
}

pub open spec fn star_refs_within(refs: Seq<StarReference>, n: int) -> bool {
    forall|k: int| 0 <= k < refs.len() ==> (#[trigger] refs[k]).reference.from_file < n
}

pub open spec fn pairs_within(p: Seq<(Seq<char>, StarReference)>, n: int) -> bool {
    forall|j: int| 0 <= j < p.len() ==> (#[trigger] p[j]).1.reference.from_file < n
}

pub open spec fn groups_within(g: Seq<(Seq<char>, Seq<StarReference>)>, n: int) -> bool {
    forall|j: int| 0 <= j < g.len() ==> star_refs_within((#[trigger] g[j]).1, n)
}

/// Every reference of every module comes from a file below `n`.
pub open spec fn modules_within(m: Seq<ModuleNode>, n: int) -> bool {
    forall|s: int| 0 <= s < m.len() ==> exports_within(exports_view((#[trigger] m[s]).exports@), n)
}

/// Every import edge comes from a file below `n`.
pub open spec fn edges_within(edges: Seq<Edge>, n: int) -> bool {
    forall|e: int| 0 <= e < edges.len() ==> (#[trigger] edges[e]).source < n
}

proof fn lemma_attach_to_within(ex: Seq<ExportView>, l: Seq<usize>, r: SymbolReference, n: int)
    requires
        exports_within(ex, n),
        r.from_file < n,
    ensures
        exports_within(attach_to(ex, l, r), n),
{
    let t = attach_to(ex, l, r);
    assert forall|i: int| 0 <= i < t.len() implies refs_within((#[trigger] t[i]).references, n) by {
        let e = ex[i];
        assert(refs_within(e.references, n));
        if !has_ref_from(e.references, r.from_file) {
            let p = e.references.push(r);
            assert forall|k: int| 0 <= k < p.len() implies (#[trigger] p[k]).from_file < n by {
                if k < e.references.len() {
                    assert(p[k] == e.references[k]);
                }
            }
        }
    }
}

proof fn lemma_attach_all_within(
    ex: Seq<ExportView>,
    refs: Seq<StarReference>,
    k: int,
    tl: Seq<usize>,
    vl: Seq<usize>,
    mods: Map<u32, ImportBindingUsage>,
    trig: bool,
    n: int,
)
    requires
        exports_within(ex, n),
        star_refs_within(refs, n),
        k <= refs.len(),
    ensures
        exports_within(attach_all(ex, refs, k, tl, vl, mods, trig).0, n),
    decreases k,
{
    if k > 0 {
        lemma_attach_all_within(ex, refs, k - 1, tl, vl, mods, trig, n);
        let prev = attach_all(ex, refs, k - 1, tl, vl, mods, trig);
        let sr = refs[k - 1];
        lemma_attach_to_within(prev.0, tl, sr.reference, n);
        lemma_attach_to_within(attach_to(prev.0, tl, sr.reference), vl, sr.reference, n);
        lemma_attach_to_within(prev.0, vl, sr.reference, n);
    }
}

proof fn lemma_star_fold_within(
    ex: Seq<ExportView>,
    stubs: Set<(u32, Seq<char>, bool)>,
    sid: u32,
    groups: Seq<(Seq<char>, Seq<StarReference>)>,
    k: int,
    mods: Map<u32, ImportBindingUsage>,
    trig: bool,
    n: int,
)
    requires
        exports_within(ex, n),
        groups_within(groups, n),
        k <= groups.len(),
    ensures
        exports_within(star_fold(ex, stubs, sid, groups, k, mods, trig, false).0, n),
    decreases k,
{
    if k > 0 {
        lemma_star_fold_within(ex, stubs, sid, groups, k - 1, mods, trig, n);
        let prev = star_fold(ex, stubs, sid, groups, k - 1, mods, trig, false);
        let g = groups[k - 1];
        assert(star_refs_within(g.1, n));
        let m = named_indices(prev.0, crate::re_exports::graph::export_name_of(g.0), prev.0.len() as int);
        if m.len() > 0 {
            lemma_attach_all_within(
                prev.0,
                g.1,
                g.1.len() as int,
                kind_indices(prev.0, m, true),
                kind_indices(prev.0, m, false),
                mods,
                trig,
                n,
            );
        }
    }
}

proof fn lemma_grouped_within(p: Seq<(Seq<char>, StarReference)>, n: int)
    requires
        pairs_within(p, n),
    ensures
        groups_within(grouped(p), n),
    decreases p.len(),
{
    if p.len() > 0 {
        let d = p.drop_last();
        assert forall|j: int| 0 <= j < d.len() implies (#[trigger] d[j]).1.reference.from_file < n by {
            assert(d[j] == p[j]);
        }
        lemma_grouped_within(d, n);
        let g = grouped(d);
        let (name, sr) = p.last();
        assert(p[p.len() - 1] == p.last());
        match group_index(g, name, g.len() as int) {
            Some(i) => {
                crate::re_exports::propagate::lemma_group_index(g, name, g.len() as int);
                let g2 = g.update(i, (name, g[i].1.push(sr)));
                assert forall|j: int| 0 <= j < g2.len() implies star_refs_within((#[trigger] g2[j]).1, n) by {
                    if j == i {
                        let s = g[i].1.push(sr);
                        assert(star_refs_within(g[i].1, n));
                        assert forall|k: int| 0 <= k < s.len() implies (#[trigger] s[k]).reference.from_file < n by {
                            if k < g[i].1.len() {
                                assert(s[k] == g[i].1[k]);
                            }
                        }
                    } else {
                        assert(g2[j] == g[j]);
                    }
                }
            },
            None => {
                let g2 = g.push((name, seq![sr]));
                assert forall|j: int| 0 <= j < g2.len() implies star_refs_within((#[trigger] g2[j]).1, n) by {
                    if j < g.len() {
                        assert(g2[j] == g[j]);
                    } else {
                        assert(g2[j].1 == seq![sr]);
                        assert forall|k: int| 0 <= k < g2[j].1.len() implies (#[trigger] g2[j].1[k]).reference.from_file < n by {
                            assert(g2[j].1[k] == sr);
                        }
                    }
                }
            },
        }
    }
}

proof fn lemma_pairs_concat(a: Seq<(Seq<char>, StarReference)>, b: Seq<(Seq<char>, StarReference)>, n: int)
    requires
        pairs_within(a, n),
        pairs_within(b, n),
    ensures
        pairs_within(a + b, n),
{
    assert forall|j: int| 0 <= j < (a + b).len() implies (#[trigger] (a + b)[j]).1.reference.from_file < n by {
        if j < a.len() {
            assert((a + b)[j] == a[j]);
        } else {
            assert((a + b)[j] == b[j - a.len()]);
        }
    }
}

proof fn lemma_symbol_pairs_within(edge: Edge, k: int, n: int)
    requires
        edge.source < n,
    ensures
        pairs_within(symbol_pairs(edge, k), n),
    decreases k,
{
    if k > 0 {
        lemma_symbol_pairs_within(edge, k - 1, n);
        let prev = symbol_pairs(edge, k - 1);
        let cur = symbol_pairs(edge, k);
        assert forall|j: int| 0 <= j < cur.len() implies (#[trigger] cur[j]).1.reference.from_file < n by {
            if j < prev.len() {
                assert(cur[j] == prev[j]);
            }
        }
    }
}

proof fn lemma_import_pairs_within(edges: Seq<Edge>, idxs: Seq<usize>, k: int, n: int)
    requires
        edges_within(edges, n),
        indices_within(idxs, edges.len() as int),
        k <= idxs.len(),
    ensures
        pairs_within(import_pairs(edges, idxs, k), n),
    decreases k,
{
    if k > 0 {
        lemma_import_pairs_within(edges, idxs, k - 1, n);
        let e = edges[idxs[k - 1] as int];
        assert(idxs[k - 1] < edges.len());
        lemma_symbol_pairs_within(e, e.symbols@.len() as int, n);
        lemma_pairs_concat(import_pairs(edges, idxs, k - 1), symbol_pairs(e, e.symbols@.len() as int), n);
    }
}

proof fn lemma_export_ref_pairs_within(edges: Seq<Edge>, e: ExportView, k: int, n: int)
    requires
        refs_within(e.references, n),
        k <= e.references.len(),
    ensures
        pairs_within(export_ref_pairs(edges, e, k), n),
    decreases k,
{
    if k > 0 {
        lemma_export_ref_pairs_within(edges, e, k - 1, n);
        let prev = export_ref_pairs(edges, e, k - 1);
        let cur = export_ref_pairs(edges, e, k);
        assert forall|j: int| 0 <= j < cur.len() implies (#[trigger] cur[j]).1.reference.from_file < n by {
            if j < prev.len() {
                assert(cur[j] == prev[j]);
            } else {
                assert(cur[j].1.reference == e.references[k - 1]);
            }
        }
    }
}

proof fn lemma_barrel_pairs_within(edges: Seq<Edge>, ex: Seq<ExportView>, k: int, n: int)
    requires
        exports_within(ex, n),
        k <= ex.len(),
    ensures
        pairs_within(barrel_pairs(edges, ex, k), n),
    decreases k,
{
    if k > 0 {
        lemma_barrel_pairs_within(edges, ex, k - 1, n);
        assert(refs_within(ex[k - 1].references, n));
        lemma_export_ref_pairs_within(edges, ex[k - 1], ex[k - 1].references.len() as int, n);
        lemma_pairs_concat(
            barrel_pairs(edges, ex, k - 1),
            export_ref_pairs(edges, ex[k - 1], ex[k - 1].references.len() as int),
            n,
        );
    }
}

proof fn lemma_star_refs_within(barrel: ModuleNode, edges: Seq<Edge>, by_target: Map<u32, Vec<usize>>, n: int)
    requires
        exports_within(exports_view(barrel.exports@), n),
        edges_within(edges, n),
        edge_indices_within(by_target, edges.len() as int),
    ensures
        groups_within(star_refs_by_name(barrel, edges, by_target), n),
{
    let idxs = edges_into(by_target, barrel.file_id);
    let ex = exports_view(barrel.exports@);
    assert forall|k: int| 0 <= k < idxs.len() implies (#[trigger] idxs[k]) < edges.len() by {
        assert(by_target[barrel.file_id]@[k] < edges.len());
    }
    lemma_import_pairs_within(edges, idxs, idxs.len() as int, n);
    lemma_barrel_pairs_within(edges, ex, ex.len() as int, n);
    lemma_pairs_concat(import_pairs(edges, idxs, idxs.len() as int), barrel_pairs(edges, ex, ex.len() as int), n);
    lemma_grouped_within(import_pairs(edges, idxs, idxs.len() as int) + barrel_pairs(edges, ex, ex.len() as int), n);
}

proof fn lemma_refs_concat_within(a: Seq<SymbolReference>, b: Seq<SymbolReference>, n: int)
    requires
        refs_within(a, n),
        refs_within(b, n),
    ensures
        refs_within(a + b, n),
{
    assert forall|k: int| 0 <= k < (a + b).len() implies (#[trigger] (a + b)[k]).from_file < n by {
        if k < a.len() {
            assert((a + b)[k] == a[k]);
        } else {
            assert((a + b)[k] == b[k - a.len()]);
        }
    }
}

proof fn lemma_barrel_refs_within(ex: Seq<ExportView>, name: Seq<char>, k: int, n: int)
    requires
        exports_within(ex, n),
        k <= ex.len(),
    ensures
        refs_within(barrel_refs(ex, name, k), n),
    decreases k,
{
    if k > 0 {
        lemma_barrel_refs_within(ex, name, k - 1, n);
        assert(refs_within(ex[k - 1].references, n));
        lemma_refs_concat_within(barrel_refs(ex, name, k - 1), ex[k - 1].references, n);
    }
}

proof fn lemma_new_refs_within(existing: Seq<SymbolReference>, incoming: Seq<SymbolReference>, n: int)
    requires
        refs_within(incoming, n),
    ensures
        refs_within(new_refs(existing, incoming), n),
    decreases incoming.len(),
{
    if incoming.len() > 0 {
        let d = incoming.drop_last();
        assert forall|k: int| 0 <= k < d.len() implies (#[trigger] d[k]).from_file < n by {
            assert(d[k] == incoming[k]);
        }
        lemma_new_refs_within(existing, d, n);
        let prev = new_refs(existing, d);
        let cur = new_refs(existing, incoming);
        assert forall|k: int| 0 <= k < cur.len() implies (#[trigger] cur[k]).from_file < n by {
            if k < prev.len() {
                assert(cur[k] == prev[k]);
            } else {
                assert(cur[k] == incoming.last());
                assert(incoming[incoming.len() - 1] == incoming.last());
            }
        }
    }
}

/// A propagation step (from no stubs, into a source that does not forward
/// through `export *`) keeps the source's references within the files of
/// the graph.
pub proof fn lemma_step_within(
    barrel: ModuleNode,
    source: ModuleNode,
    edges: Seq<Edge>,
    by_target: Map<u32, Vec<usize>>,
    mods: Map<u32, ImportBindingUsage>,
    e: crate::re_exports::resolve::ReExportTuple,
    entry_star_targets: Set<u32>,
    n: int,
)
    requires
        e.exported_name@ == "*"@ ==> !forwards_star(source),
        exports_within(exports_view(barrel.exports@), n),
        exports_within(exports_view(source.exports@), n),
        edges_within(edges, n),
        edge_indices_within(by_target, edges.len() as int),
        e.barrel < n,
    ensures
        e.exported_name@ == "*"@ ==> exports_within(
            star_result(
                barrel,
                source,
                edges,
                by_target,
                mods,
                e.barrel,
                e.source,
                entry_star_targets,
                e.is_type_only,
                Set::empty(),
            ).0,
            n,
        ),
        e.exported_name@ != "*"@ ==> exports_within(
            named_result(barrel, exports_view(source.exports@), e.barrel, e.imported_name@, e.exported_name@).0,
            n,
        ),
{
    let src = exports_view(source.exports@);
    let r = re_export_reference(e.barrel);
    if e.exported_name@ == "*"@ {
        if barrel.entry_point || entry_star_targets.contains(barrel.file_id) {
            lemma_attach_to_within(src, non_default_indices(src, src.len() as int), r, n);
        } else {
            let groups = star_refs_by_name(barrel, edges, by_target);
            lemma_star_refs_within(barrel, edges, by_target, n);
            lemma_star_fold_within(src, Set::empty(), e.source, groups, groups.len() as int, mods, e.is_type_only, n);
        }
    } else {
        let bex = exports_view(barrel.exports@);
        lemma_exports_fit(barrel);
        let incoming = barrel_refs(bex, e.exported_name@, barrel.exports@.len() as int);
        lemma_barrel_refs_within(bex, e.exported_name@, barrel.exports@.len() as int, n);
        if incoming.len() == 0 {
            if barrel.entry_point {
                lemma_attach_to_within(src, indices_named(src, e.imported_name@, src.len() as int), r, n);
            }
        } else {
            let mn = merge_named(src, e.imported_name@, incoming);
            assert forall|i: int| 0 <= i < mn.len() implies refs_within((#[trigger] mn[i]).references, n) by {
                assert(refs_within(src[i].references, n));
                if crate::re_exports::graph::name_matches(src[i].name, e.imported_name@) {
                    lemma_new_refs_within(src[i].references, incoming, n);
                    lemma_refs_concat_within(src[i].references, new_refs(src[i].references, incoming), n);
                }
            }
        }
    }
}


// ---------------------------------------------------------------------------
// Counting (export, file) pairs
// ---------------------------------------------------------------------------

/// How many files below `k` have a reference in `refs`.
pub open spec fn file_count(refs: Seq<SymbolReference>, k: int) -> nat
    decreases k,
{
    if k <= 0 {
        0
    } else {
        file_count(refs, k - 1) + if has_ref_from(refs, (k - 1) as u32) {
            1nat
        } else {
            0nat
        }
    }
}

/// The (export, file) pairs of the first `j` exports, files below `n`.
pub open spec fn exports_pot(ex: Seq<ExportView>, j: int, n: int) -> nat
    decreases j,
{
    if j <= 0 {
        0
    } else {
        exports_pot(ex, j - 1, n) + file_count(ex[j - 1].references, n)
    }
}

/// The (module, export, file) triples of the first `k` modules.
pub open spec fn graph_pot(m: Seq<ModuleNode>, k: int, n: int) -> nat
    decreases k,
{
    if k <= 0 {
        0
    } else {
        graph_pot(m, k - 1, n) + exports_pot(exports_view(m[k - 1].exports@), m[k - 1].exports@.len() as int, n)
    }
}

proof fn lemma_file_count_mono(a: Seq<SymbolReference>, b: Seq<SymbolReference>, k: int)
    requires
        refs_cover(a, b),
        k <= u32::MAX + 1,
    ensures
        file_count(a, k) <= file_count(b, k),
        file_count(a, k) <= if k < 0 { 0 } else { k },
    decreases k,
{
    if k > 0 {
        lemma_file_count_mono(a, b, k - 1);
        if has_ref_from(a, (k - 1) as u32) {
            assert(has_ref_from(b, (k - 1) as u32));
        }
    }
}

proof fn lemma_file_count_strict(a: Seq<SymbolReference>, b: Seq<SymbolReference>, f: u32, k: int)
    requires
        refs_cover(a, b),
        !has_ref_from(a, f),
        has_ref_from(b, f),
        f < k <= u32::MAX + 1,
    ensures
        file_count(a, k) < file_count(b, k),
    decreases k,
{
    lemma_file_count_mono(a, b, k - 1);
    if (k - 1) as u32 != f {
        lemma_file_count_strict(a, b, f, k - 1);
        if has_ref_from(a, (k - 1) as u32) {
            assert(has_ref_from(b, (k - 1) as u32));
        }
    } else {
        assert((k - 1) as u32 == f);
    }
}

proof fn lemma_exports_pot_mono(a: Seq<ExportView>, b: Seq<ExportView>, j: int, n: int)
    requires
        covers(a, b),
        j <= a.len(),
        0 <= n <= u32::MAX + 1,
    ensures
        exports_pot(a, j, n) <= exports_pot(b, j, n),
        exports_pot(a, j, n) <= if j < 0 { 0 } else { j * n },
    decreases j,
{
    if j > 0 {
        lemma_exports_pot_mono(a, b, j - 1, n);
        assert(refs_cover(a[j - 1].references, b[j - 1].references));
        lemma_file_count_mono(a[j - 1].references, b[j - 1].references, n);
        assert((j - 1) * n + n == j * n) by (nonlinear_arith);
    }
}

proof fn lemma_exports_pot_strict(a: Seq<ExportView>, b: Seq<ExportView>, j: int, n: int)
    requires
        covers(a, b),
        j <= a.len(),
        0 <= n <= u32::MAX + 1,
        exists|i: int, f: u32|
            0 <= i < j && f < n && !has_ref_from(a[i].references, f) && #[trigger] has_ref_from(b[i].references, f),
    ensures
        exports_pot(a, j, n) < exports_pot(b, j, n),
    decreases j,
{
    let (i, f) = choose|i: int, f: u32|
        0 <= i < j && f < n && !has_ref_from(a[i].references, f) && #[trigger] has_ref_from(b[i].references, f);
    lemma_exports_pot_mono(a, b, j - 1, n);
    assert(refs_cover(a[j - 1].references, b[j - 1].references));
    lemma_file_count_mono(a[j - 1].references, b[j - 1].references, n);
    if i == j - 1 {
        lemma_file_count_strict(a[i].references, b[i].references, f, n);
    } else {
        lemma_exports_pot_strict(a, b, j - 1, n);
    }
}

/// A gain on a covering step of exports whose references are within `n`
/// is a new (export, file) pair.
pub proof fn lemma_exports_pot_step(a: Seq<ExportView>, b: Seq<ExportView>, n: int)
    requires
        covers(a, b),
        exports_within(b, n),
        0 <= n <= u32::MAX + 1,
    ensures
        exports_pot(a, a.len() as int, n) <= exports_pot(b, b.len() as int, n),
        gains_ref(a, b) ==> exports_pot(a, a.len() as int, n) < exports_pot(b, b.len() as int, n),
{
    lemma_exports_pot_mono(a, b, a.len() as int, n);
    if gains_ref(a, b) {
        let (i, f) = choose|i: int, f: u32|
            0 <= i < a.len() && i < b.len() && !has_ref_from(a[i].references, f) && #[trigger] has_ref_from(
                b[i].references,
                f,
            );
        let k = choose|k: int| 0 <= k < b[i].references.len() && (#[trigger] b[i].references[k]).from_file == f;
        assert(refs_within(b[i].references, n));
        assert(f < n);
        assert(has_ref_from(b[i].references, f));
        lemma_exports_pot_strict(a, b, a.len() as int, n);
    }
}

/// The graph potential is at most the exports times `n`.
pub proof fn lemma_graph_pot_bound(m: Seq<ModuleNode>, k: int, n: int)
    requires
        0 <= k <= m.len(),
        0 <= n <= u32::MAX + 1,
    ensures
        graph_pot(m, k, n) <= crate::re_exports::resolve::total_exports(m, k) * n,
    decreases k,
{
    if k > 0 {
        lemma_graph_pot_bound(m, k - 1, n);
        let ex = exports_view(m[k - 1].exports@);
        lemma_exports_fit(m[k - 1]);
        crate::re_exports::settle::lemma_covers_refl(ex);
        lemma_exports_pot_mono(ex, ex, ex.len() as int, n);
        let t = crate::re_exports::resolve::total_exports(m, k - 1);
        let l = m[k - 1].exports@.len();
        assert(t * n + l * n == (t + l) * n) by (nonlinear_arith);
    }
}

/// One step changes only module `s`, whose exports are covered: the graph
/// potential does not drop, and rises when the step gained a reference.
pub proof fn lemma_graph_pot_step(before: Seq<ModuleNode>, after: Seq<ModuleNode>, s: int, k: int, n: int)
    requires
        after.len() == before.len(),
        0 <= s < before.len(),
        0 <= k <= before.len(),
        0 <= n <= u32::MAX + 1,
        forall|j: int| 0 <= j < before.len() && j != s ==> #[trigger] after[j] == before[j],
        covers(exports_view(before[s].exports@), exports_view(after[s].exports@)),
        exports_within(exports_view(after[s].exports@), n),
    ensures
        graph_pot(before, k, n) <= graph_pot(after, k, n),
        s < k && gains_ref(exports_view(before[s].exports@), exports_view(after[s].exports@)) ==> graph_pot(before, k, n)
            < graph_pot(after, k, n),
    decreases k,
{
    if k > 0 {
        lemma_graph_pot_step(before, after, s, k - 1, n);
        if k - 1 == s {
            let a = exports_view(before[s].exports@);
            let b = exports_view(after[s].exports@);
            lemma_exports_fit(before[s]);
            lemma_exports_fit(after[s]);
            lemma_exports_pot_step(a, b, n);
        } else {
            assert(after[k - 1] == before[k - 1]);
        }
    }
}

} // verus!
