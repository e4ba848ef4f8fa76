//! Re-export chain resolution over the whole module graph: the re-export
//! edges, the files reached by entry points through `export *`, the index of
//! import edges by target, and the bound on scheduler work.

use std::collections::{HashMap, HashSet, VecDeque};

use vstd::prelude::*;

use crate::re_exports::attach::ImportBindingUsage;
use crate::re_exports::cycles::{
    are_re_export_cycles, components_connected, cycles_view, edges_point_back, endpoints, find_re_export_cycles, flatten,
    is_re_export_graph, partitions_nodes, re_exports_point_back, self_loops, re_export_nodes, reported_cycles, GraphReExportCycle,
};
use crate::re_exports::graph::{Edge, ImportedName, ModuleNode, ReExport};
use crate::re_exports::propagate::{
    edge_indices_within, exports_grow, lemma_exports_grow_refl, lemma_exports_grow_trans, lemma_named_result_grows,
    lemma_star_result_grows, named_result, propagate_named_re_export, propagate_star_re_export, star_result,
    SyntheticStubs,
};
use crate::re_exports::graph::exports_view;
use crate::re_exports::bound::{
    edges_within, graph_pot, lemma_graph_pot_bound, lemma_graph_pot_step, lemma_step_within, modules_within,
};
use crate::re_exports::settle::{
    entry_covered, entry_settled, graph_gains_ref, lemma_covered_settled, lemma_entry_step, lemma_gains_ref_grows,
    lemma_exports_fit, lemma_grows_then_gains_ref, lemma_step_keeps_covered, no_star_synthesis,
};

verus! {

broadcast use vstd::std_specs::hash::group_hash_axioms;

/// One re-export edge of the module graph: `barrel` re-exports
/// `imported_name` of `source` as `exported_name` (`*` for a star
/// re-export).
#[derive(Debug, Clone)]
pub struct ReExportTuple {
    pub barrel: u32,
    pub source: u32,
    pub imported_name: String,
    pub exported_name: String,
    pub is_type_only: bool,
}

/// The tuple of one re-export of the module `m`.
pub open spec fn tuple_of(m: ModuleNode, re: ReExport) -> ReExportTuple {
    ReExportTuple {
        barrel: m.file_id,
        source: re.source_file,
        imported_name: re.imported_name,
        exported_name: re.exported_name,
        is_type_only: re.is_type_only,
    }
}

/// The tuples of the first `j` re-exports of `m`.
pub open spec fn module_tuples(m: ModuleNode, j: int) -> Seq<ReExportTuple>
    decreases j,
{
    if j <= 0 {
        seq![]
    } else {
        module_tuples(m, j - 1).push(tuple_of(m, m.re_exports@[j - 1]))
    }
}

/// The re-export edges of the first `k` modules, module by module.
pub open spec fn re_export_tuples(modules: Seq<ModuleNode>, k: int) -> Seq<ReExportTuple>
    decreases k,
{
    if k <= 0 {
        seq![]
    } else {
        re_export_tuples(modules, k - 1) + module_tuples(modules[k - 1], modules[k - 1].re_exports@.len() as int)
    }
}

/// Flatten every module's re-exports into one list of edges.
pub fn collect_re_export_tuples(modules: &Vec<ModuleNode>) -> (r: Vec<ReExportTuple>)
    ensures
        r@ == re_export_tuples(modules@, modules@.len() as int),
{
    let mut out: Vec<ReExportTuple> = Vec::new();
    let mut k: usize = 0;
    while k < modules.len()
        invariant
            k <= modules@.len(),
            out@ == re_export_tuples(modules@, k as int),
        decreases modules@.len() - k,
    {
        let m = &modules[k];
        let ghost base = out@;
        let mut j: usize = 0;
        while j < m.re_exports.len()
            invariant
                j <= m.re_exports@.len(),
                out@ == base + module_tuples(*m, j as int),
            decreases m.re_exports@.len() - j,
        {
            let re = &m.re_exports[j];
            let t = ReExportTuple {
                barrel: m.file_id,
                source: re.source_file,
                imported_name: re.imported_name.clone(),
                exported_name: re.exported_name.clone(),
                is_type_only: re.is_type_only,
            };
            assert(t == tuple_of(*m, m.re_exports@[j as int]));
            out.push(t);
            assert(out@ =~= base + module_tuples(*m, j + 1));
            j = j + 1;
        }
        k = k + 1;
    }
    out
}

// ---------------------------------------------------------------------------
// Files reached from entry points through `export *`
// ---------------------------------------------------------------------------

/// `re` is a star re-export.
pub open spec fn is_star(re: ReExport) -> bool {
    re.exported_name@ == "*"@
}

/// The sources of the star re-exports of entry-point modules.
pub open spec fn entry_star_sources(modules: Seq<ModuleNode>) -> Set<u32> {
    Set::new(
        |f: u32|
            exists|i: int, j: int|
                0 <= i < modules.len() && modules[i].entry_point && 0 <= j < modules[i].re_exports@.len()
                    && is_star(#[trigger] modules[i].re_exports@[j]) && modules[i].re_exports@[j].source_file == f,
    )
}

/// Every star re-export of a module in `s` (looked up by file id as index)
/// leads back into `s`.
pub open spec fn star_closed(modules: Seq<ModuleNode>, s: Set<u32>) -> bool {
    forall|x: u32, j: int|
        #![trigger s.contains(x), modules[x as int].re_exports@[j]]
        s.contains(x) && (x as int) < modules.len() && 0 <= j < modules[x as int].re_exports@.len() && is_star(
            modules[x as int].re_exports@[j],
        ) ==> s.contains(modules[x as int].re_exports@[j].source_file)
}

/// The `u32` values below `n`.
pub open spec fn below32(n: nat) -> Set<u32> {
    Set::new(|x: u32| (x as nat) < n)
}

proof fn lemma_below32(n: nat)
    requires
        n <= 0x1_0000_0000,
    ensures
        below32(n).finite(),
        below32(n).len() == n,
    decreases n,
{
    if n == 0 {
        assert(below32(0) =~= Set::<u32>::empty());
    } else {
        lemma_below32((n - 1) as nat);
        assert(below32(n) =~= below32((n - 1) as nat).insert((n - 1) as u32));
    }
}

/// A finite set of `u32` has at most 2^32 members.
proof fn lemma_u32_set_len(s: Set<u32>)
    requires
        s.finite(),
    ensures
        s.len() <= 0x1_0000_0000,
{
    lemma_below32(0x1_0000_0000);
    assert(s.subset_of(below32(0x1_0000_0000)));
    vstd::set_lib::lemma_len_subset(s, below32(0x1_0000_0000));
}

/// The files reached from entry-point barrels through chains of `export *`:
/// the least set that holds the star sources of entry points and is closed
/// under star re-exports.
pub fn collect_entry_star_targets(modules: &Vec<ModuleNode>) -> (r: HashSet<u32>)
    ensures
        entry_star_sources(modules@).subset_of(r@),
        star_closed(modules@, r@),
        forall|s: Set<u32>|
            entry_star_sources(modules@).subset_of(s) && star_closed(modules@, s) ==> #[trigger] r@.subset_of(s),
{
    let ghost init = entry_star_sources(modules@);
    let mut targets: HashSet<u32> = HashSet::new();
    let mut stack: Vec<u32> = Vec::new();
    let mut i: usize = 0;
    while i < modules.len()
        invariant
            i <= modules@.len(),
            init == entry_star_sources(modules@),
            targets@.finite(),
            forall|f: u32| #[trigger] targets@.contains(f) ==> init.contains(f),
            forall|f: u32| #[trigger] targets@.contains(f) <==> stack@.contains(f),
            stack@.no_duplicates(),
            forall|i2: int, j: int|
                0 <= i2 < i && modules@[i2].entry_point && 0 <= j < modules@[i2].re_exports@.len() && is_star(
                    #[trigger] modules@[i2].re_exports@[j],
                ) ==> targets@.contains(modules@[i2].re_exports@[j].source_file),
        decreases modules@.len() - i,
    {
        let m = &modules[i];
        if m.is_entry_point() {
            let mut j: usize = 0;
            while j < m.re_exports.len()
                invariant
                    i < modules@.len(),
                    *m == modules@[i as int],
                    m.entry_point,
                    j <= m.re_exports@.len(),
                    init == entry_star_sources(modules@),
                    targets@.finite(),
                    forall|f: u32| #[trigger] targets@.contains(f) ==> init.contains(f),
                    forall|f: u32| #[trigger] targets@.contains(f) <==> stack@.contains(f),
                    stack@.no_duplicates(),
                    forall|i2: int, j2: int|
                        0 <= i2 < i && modules@[i2].entry_point && 0 <= j2 < modules@[i2].re_exports@.len() && is_star(
                            #[trigger] modules@[i2].re_exports@[j2],
                        ) ==> targets@.contains(modules@[i2].re_exports@[j2].source_file),
                    forall|j2: int|
                        0 <= j2 < j && is_star(#[trigger] m.re_exports@[j2]) ==> targets@.contains(
                            m.re_exports@[j2].source_file,
                        ),
                decreases m.re_exports@.len() - j,
            {
                let re = &m.re_exports[j];
                if crate::text::str_eq(re.exported_name.as_str(), "*") {
                    let f = re.source_file;
                    proof {
                        assert(init.contains(f)) by {
                            assert(modules@[i as int].re_exports@[j as int] == *re);
                        }
                    }
                    if !targets.contains(&f) {
                        let ghost sb = stack@;
                        targets.insert(f);
                        stack.push(f);
                        proof {
                            assert(stack@ == sb.push(f));
                            assert forall|g: u32| #[trigger] targets@.contains(g) <==> stack@.contains(g) by {
                                if stack@.contains(g) && g != f {
                                    let k = choose|k: int| 0 <= k < stack@.len() && stack@[k] == g;
                                    assert(sb[k] == g);
                                }
                                if targets@.contains(g) && g != f {
                                    assert(sb.contains(g));
                                    let k = choose|k: int| 0 <= k < sb.len() && sb[k] == g;
                                    assert(stack@[k] == g);
                                }
                                if g == f {
                                    assert(stack@[stack@.len() - 1] == f);
                                }
                            }
                            assert(!sb.contains(f));
                            assert forall|i1: int, i2: int| 0 <= i1 < i2 < stack@.len() implies stack@[i1] != stack@[i2] by {
                                if i2 == stack@.len() - 1 {
                                    assert(stack@[i1] == sb[i1]);
                                    assert(sb.contains(sb[i1]));
                                }
                            }
                        }
                    }
                }
                j = j + 1;
            }
        }
        i = i + 1;
    }
    assert(init.subset_of(targets@)) by {
        assert forall|f: u32| init.contains(f) implies #[trigger] targets@.contains(f) by {
            let (i2, j2) = choose|i2: int, j2: int|
                0 <= i2 < modules@.len() && modules@[i2].entry_point && 0 <= j2 < modules@[i2].re_exports@.len()
                    && is_star(#[trigger] modules@[i2].re_exports@[j2]) && modules@[i2].re_exports@[j2].source_file
                    == f;
        }
    }
    while stack.len() > 0
        invariant
            init == entry_star_sources(modules@),
            init.subset_of(targets@),
            targets@.finite(),
            stack@.no_duplicates(),
            forall|f: u32| #[trigger] stack@.contains(f) ==> targets@.contains(f),
            forall|s: Set<u32>| init.subset_of(s) && star_closed(modules@, s) ==> #[trigger] targets@.subset_of(s),
            forall|x: u32, j: int|
                #![trigger targets@.contains(x), modules@[x as int].re_exports@[j]]
                targets@.contains(x) && !stack@.contains(x) && (x as int) < modules@.len() && 0 <= j
                    < modules@[x as int].re_exports@.len() && is_star(modules@[x as int].re_exports@[j])
                    ==> targets@.contains(modules@[x as int].re_exports@[j].source_file),
        decreases 0x1_0000_0000 - targets@.len(), stack@.len(),
    {
        proof {
            lemma_u32_set_len(targets@);
        }
        let ghost t0 = targets@;
        let ghost s0 = stack@;
        let file_id = stack.pop().unwrap();
        proof {
            assert(s0 == stack@.push(file_id));
            assert(!stack@.contains(file_id)) by {
                if stack@.contains(file_id) {
                    let k = choose|k: int| 0 <= k < stack@.len() && stack@[k] == file_id;
                    assert(s0[k] == s0[s0.len() - 1]);
                }
            }
            assert(s0.contains(file_id)) by {
                assert(s0[s0.len() - 1] == file_id);
            }
            assert forall|i1: int, i2: int| 0 <= i1 < i2 < stack@.len() implies stack@[i1] != stack@[i2] by {
                assert(s0[i1] == stack@[i1] && s0[i2] == stack@[i2]);
            }
            assert forall|f: u32| #[trigger] stack@.contains(f) implies targets@.contains(f) by {
                let k = choose|k: int| 0 <= k < stack@.len() && stack@[k] == f;
                assert(s0[k] == f);
                assert(s0.contains(f));
            }
        }
        let idx = file_id as usize;
        if idx < modules.len() {
            let m = &modules[idx];
            let mut j: usize = 0;
            while j < m.re_exports.len()
                invariant
                    idx < modules@.len(),
                    *m == modules@[idx as int],
                    idx as int == file_id as int,
                    j <= m.re_exports@.len(),
                    init == entry_star_sources(modules@),
                    init.subset_of(targets@),
                    t0.subset_of(targets@),
                    targets@.finite(),
                    targets@.contains(file_id),
                    !stack@.contains(file_id),
                    stack@.no_duplicates(),
                    forall|f: u32| #[trigger] stack@.contains(f) ==> targets@.contains(f),
                    forall|f: u32| #[trigger] targets@.contains(f) && !t0.contains(f) ==> stack@.contains(f),
                    forall|s: Set<u32>| init.subset_of(s) && star_closed(modules@, s) ==> #[trigger] targets@.subset_of(s),
                    forall|x: u32, j2: int|
                        #![trigger targets@.contains(x), modules@[x as int].re_exports@[j2]]
                        t0.contains(x) && x != file_id && !s0.contains(x) && (x as int) < modules@.len() && 0 <= j2
                            < modules@[x as int].re_exports@.len() && is_star(modules@[x as int].re_exports@[j2])
                            ==> targets@.contains(modules@[x as int].re_exports@[j2].source_file),
                    forall|j2: int|
                        0 <= j2 < j && is_star(#[trigger] m.re_exports@[j2]) ==> targets@.contains(
                            m.re_exports@[j2].source_file,
                        ),
                    forall|x: u32| #[trigger] s0.contains(x) && x != file_id ==> stack@.contains(x),
                    targets@.len() - t0.len() == stack@.len() - (s0.len() - 1),
                decreases m.re_exports@.len() - j,
            {
                let re = &m.re_exports[j];
                if crate::text::str_eq(re.exported_name.as_str(), "*") {
                    let f = re.source_file;
                    if !targets.contains(&f) {
                        let ghost tb = targets@;
                        let ghost sb = stack@;
                        proof {
                            assert forall|s: Set<u32>| init.subset_of(s) && star_closed(modules@, s) implies #[trigger] tb.insert(f).subset_of(s) by {
                                assert(tb.subset_of(s));
                                assert(s.contains(file_id));
                                assert(modules@[file_id as int].re_exports@[j as int] == *re);
                                assert(s.contains(modules@[file_id as int].re_exports@[j as int].source_file));
                            }
                            assert(!sb.contains(f));
                        }
                        targets.insert(f);
                        stack.push(f);
                        proof {
                            assert(stack@ == sb.push(f));
                            assert forall|g: u32| #[trigger] stack@.contains(g) implies targets@.contains(g) by {
                                if g != f {
                                    let k = choose|k: int| 0 <= k < stack@.len() && stack@[k] == g;
                                    assert(sb[k] == g);
                                    assert(sb.contains(g));
                                    assert(tb.contains(g));
                                }
                            }
                            assert forall|g: u32| #[trigger] targets@.contains(g) && !t0.contains(g) implies stack@.contains(g) by {
                                if g == f {
                                    assert(stack@[stack@.len() - 1] == f);
                                } else {
                                    assert(sb.contains(g));
                                    let k = choose|k: int| 0 <= k < sb.len() && sb[k] == g;
                                    assert(stack@[k] == g);
                                }
                            }
                            assert forall|x: u32| #[trigger] s0.contains(x) && x != file_id implies stack@.contains(x) by {
                                assert(sb.contains(x));
                                let k = choose|k: int| 0 <= k < sb.len() && sb[k] == x;
                                assert(stack@[k] == x);
                            }
                            assert forall|i1: int, i2: int| 0 <= i1 < i2 < stack@.len() implies stack@[i1] != stack@[i2] by {
                                if i2 == stack@.len() - 1 {
                                    assert(stack@[i1] == sb[i1]);
                                    assert(sb.contains(sb[i1]));
                                }
                            }
                        }
                    }
                    proof {
                        assert(targets@.contains(f));
                    }
                }
                j = j + 1;
            }
        }
        proof {
            lemma_u32_set_len(targets@);
            vstd::set_lib::lemma_len_subset(t0, targets@);
            assert forall|x: u32, j2: int|
                #![trigger targets@.contains(x), modules@[x as int].re_exports@[j2]]
                targets@.contains(x) && !stack@.contains(x) && (x as int) < modules@.len() && 0 <= j2
                    < modules@[x as int].re_exports@.len() && is_star(modules@[x as int].re_exports@[j2])
                    implies targets@.contains(modules@[x as int].re_exports@[j2].source_file) by {
                if x != file_id {
                    assert(t0.contains(x));
                    if s0.contains(x) {
                        assert(stack@.contains(x));
                    }
                }
            }
        }
    }
    assert(star_closed(modules@, targets@)) by {
        assert forall|x: u32, j: int|
            #![trigger targets@.contains(x), modules@[x as int].re_exports@[j]]
            targets@.contains(x) && (x as int) < modules@.len() && 0 <= j < modules@[x as int].re_exports@.len()
                && is_star(modules@[x as int].re_exports@[j]) implies targets@.contains(
            modules@[x as int].re_exports@[j].source_file,
        ) by {
            assert(!stack@.contains(x));
        }
    }
    targets
}

// ---------------------------------------------------------------------------
// Import edges by target
// ---------------------------------------------------------------------------

/// The indices (ascending) of the first `k` edges whose target is `t`.
pub open spec fn indices_to(edges: Seq<Edge>, t: u32, k: int) -> Seq<usize>
    decreases k,
{
    if k <= 0 {
        seq![]
    } else {
        let prev = indices_to(edges, t, k - 1);
        if edges[k - 1].target == t {
            prev.push((k - 1) as usize)
        } else {
            prev
        }
    }
}

proof fn lemma_indices_to_bound(edges: Seq<Edge>, t: u32, k: int)
    requires
        0 <= k,
    ensures
        forall|j: int| 0 <= j < indices_to(edges, t, k).len() ==> #[trigger] indices_to(edges, t, k)[j] < k,
    decreases k,
{
    if k > 0 {
        lemma_indices_to_bound(edges, t, k - 1);
        let prev = indices_to(edges, t, k - 1);
        assert forall|j: int| 0 <= j < indices_to(edges, t, k).len() implies #[trigger] indices_to(edges, t, k)[j] < k by {
            if j < prev.len() {
                assert(indices_to(edges, t, k)[j] == prev[j]);
            }
        }
    }
}

proof fn lemma_indices_to_none(edges: Seq<Edge>, t: u32, k: int)
    requires
        forall|i: int| 0 <= i < k ==> edges[i].target != t,
    ensures
        indices_to(edges, t, k) == Seq::<usize>::empty(),
    decreases k,
{
    if k > 0 {
        lemma_indices_to_none(edges, t, k - 1);
    }
}

/// Index every edge by its target file: each target maps to the indices of
/// its edges, in edge order; files no edge targets are absent.
pub fn build_edges_by_target(edges: &Vec<Edge>) -> (r: HashMap<u32, Vec<usize>>)
    ensures
        forall|t: u32| #[trigger] r@.contains_key(t) <==> exists|i: int| 0 <= i < edges@.len() && edges@[i].target == t,
        forall|t: u32| #[trigger] r@.contains_key(t) ==> r@[t]@ == indices_to(edges@, t, edges@.len() as int),
        crate::re_exports::propagate::edge_indices_within(r@, edges@.len() as int),
{
    let mut by_target: HashMap<u32, Vec<usize>> = HashMap::new();
    let mut k: usize = 0;
    while k < edges.len()
        invariant
            k <= edges@.len(),
            forall|t: u32| #[trigger] by_target@.contains_key(t) <==> exists|i: int| 0 <= i < k && edges@[i].target == t,
            forall|t: u32| #[trigger] by_target@.contains_key(t) ==> by_target@[t]@ == indices_to(edges@, t, k as int),
        decreases edges@.len() - k,
    {
        let t = edges[k].target;
        let ghost m0 = by_target@;
        let mut list = match by_target.remove(&t) {
            Some(v) => v,
            None => Vec::new(),
        };
        assert(list@ == if m0.contains_key(t) {
            indices_to(edges@, t, k as int)
        } else {
            Seq::<usize>::empty()
        });
        proof {
            if !m0.contains_key(t) {
                assert forall|i: int| 0 <= i < k implies edges@[i].target != t by {
                    if edges@[i].target == t {
                        assert(exists|i2: int| 0 <= i2 < k && edges@[i2].target == t);
                    }
                }
                lemma_indices_to_none(edges@, t, k as int);
            }
        }
        list.push(k);
        by_target.insert(t, list);
        proof {
            assert forall|u: u32| #[trigger] by_target@.contains_key(u) <==> exists|i: int| 0 <= i < k + 1 && edges@[i].target == u by {
                if u != t && by_target@.contains_key(u) {
                    let i = choose|i: int| 0 <= i < k && edges@[i].target == u;
                }
                if exists|i: int| 0 <= i < k + 1 && edges@[i].target == u {
                    if u != t {
                        let i = choose|i: int| 0 <= i < k + 1 && edges@[i].target == u;
                        assert(i < k);
                    }
                }
            }
        }
        k = k + 1;
    }
    proof {
        assert forall|t: u32, j: int| by_target@.contains_key(t) && 0 <= j < by_target@[t]@.len() implies #[trigger] by_target@[t]@[j] < edges@.len() by {
            lemma_indices_to_bound(edges@, t, edges@.len() as int);
        }
    }
    by_target
}

// ---------------------------------------------------------------------------
// Bound on scheduler work
// ---------------------------------------------------------------------------

/// `n` saturated to `usize::MAX`.
pub open spec fn sat(n: nat) -> nat {
    if n > usize::MAX {
        usize::MAX as nat
    } else {
        n
    }
}

/// `usize::saturating_mul`.
fn saturating_mul(a: usize, b: usize) -> (r: usize)
    ensures
        r == sat(a as nat * b as nat),
{
    match a.checked_mul(b) {
        Some(p) => p,
        None => usize::MAX,
    }
}

/// Total number of exports over the first `k` modules.
pub open spec fn total_exports(modules: Seq<ModuleNode>, k: int) -> nat
    decreases k,
{
    if k <= 0 {
        0
    } else {
        total_exports(modules, k - 1) + modules[k - 1].exports@.len()
    }
}

/// Number of by-name import bindings over the first `k` edges.
pub open spec fn named_import_count(edges: Seq<Edge>, k: int) -> nat
    decreases k,
{
    if k <= 0 {
        0
    } else {
        named_import_count(edges, k - 1) + named_in(edges[k - 1].symbols@, edges[k - 1].symbols@.len() as int)
    }
}

/// Number of by-name bindings among the first `k` symbols.
pub open spec fn named_in(symbols: Seq<crate::re_exports::graph::ImportSymbol>, k: int) -> nat
    decreases k,
{
    if k <= 0 {
        0
    } else {
        named_in(symbols, k - 1) + if symbols[k - 1].imported_name is Named {
            1nat
        } else {
            0nat
        }
    }
}

/// Number of the first `k` modules that have a star re-export.
pub open spec fn star_hosts(modules: Seq<ModuleNode>, k: int) -> nat
    decreases k,
{
    if k <= 0 {
        0
    } else {
        star_hosts(modules, k - 1) + if crate::re_exports::propagate::forwards_star(modules[k - 1]) {
            1nat
        } else {
            0nat
        }
    }
}

/// The finite-state bound on propagation steps: every step that changes
/// anything adds an export (at most the initial ones plus two synthetic ones
/// per star host and named input) or a reference (at most one per export and
/// module); each change can re-enqueue every edge. Saturating throughout,
/// and never below the number of edges.
pub open spec fn safety_cap(exports: nat, named: nat, edges: nat, modules: nat, hosts: nat) -> nat {
    let named_inputs = sat(sat(named + exports) + edges);
    let synthetic_exports = sat(sat(hosts * named_inputs) * 2);
    let max_exports = sat(exports + synthetic_exports);
    let reference_additions = sat(max_exports * modules);
    let state_changes = sat(synthetic_exports + reference_additions);
    let cap = sat(edges + sat(state_changes * edges));
    if cap < edges {
        edges
    } else {
        cap
    }
}

proof fn lemma_sat_at_least(x: nat, y: nat)
    requires
        y <= x,
        y <= usize::MAX,
    ensures
        y <= sat(x),
{
}

/// Without saturation, the cap allows every edge once plus every edge once
/// more for each (export, module) pair.
pub proof fn lemma_cap_room(exports: nat, named: nat, edges: nat, modules: nat, hosts: nat)
    requires
        edges >= 1,
        edges + exports * modules * edges <= usize::MAX,
    ensures
        edges + exports * modules * edges <= safety_cap(exports, named, edges, modules, hosts),
{
    let named_inputs = sat(sat(named + exports) + edges);
    let synthetic_exports = sat(sat(hosts * named_inputs) * 2);
    let max_exports = sat(exports + synthetic_exports);
    let reference_additions = sat(max_exports * modules);
    let state_changes = sat(synthetic_exports + reference_additions);
    let em = exports * modules;
    assert(em <= em * edges) by (nonlinear_arith)
        requires
            edges >= 1,
    ;
    assert(exports <= em * edges || modules == 0) by (nonlinear_arith)
        requires
            edges >= 1,
            em == exports * modules,
    ;
    if modules > 0 {
        lemma_sat_at_least(exports + synthetic_exports, exports);
    }
    assert(max_exports * modules >= em) by (nonlinear_arith)
        requires
            max_exports >= exports || modules == 0,
            em == exports * modules,
    ;
    lemma_sat_at_least(max_exports * modules, em);
    lemma_sat_at_least(synthetic_exports + reference_additions, em);
    assert(state_changes * edges >= em * edges) by (nonlinear_arith)
        requires
            state_changes >= em,
    ;
    lemma_sat_at_least(state_changes * edges, em * edges);
    lemma_sat_at_least(edges + sat(state_changes * edges), edges + em * edges);
}

proof fn lemma_total_exports_same(a: Seq<ModuleNode>, b: Seq<ModuleNode>, k: int)
    requires
        0 <= k <= a.len(),
        a.len() == b.len(),
        forall|j: int| 0 <= j < a.len() ==> (#[trigger] b[j]).exports@.len() == a[j].exports@.len(),
    ensures
        total_exports(a, k) == total_exports(b, k),
    decreases k,
{
    if k > 0 {
        lemma_total_exports_same(a, b, k - 1);
        assert(b[k - 1].exports@.len() == a[k - 1].exports@.len());
    }
}

/// Bound the scheduler's work by the finite set of exports, synthetic names
/// and reference sources that monotone propagation can add (see
/// [`safety_cap`]).
pub fn re_export_transition_safety_cap(modules: &Vec<ModuleNode>, edges: &Vec<Edge>, tuples: &Vec<ReExportTuple>) -> (r: usize)
    requires
        total_exports(modules@, modules@.len() as int) <= usize::MAX,
        named_import_count(edges@, edges@.len() as int) <= usize::MAX,
    ensures
        r == safety_cap(
            total_exports(modules@, modules@.len() as int),
            named_import_count(edges@, edges@.len() as int),
            tuples@.len(),
            modules@.len(),
            star_hosts(modules@, modules@.len() as int),
        ),
{
    let mut initial_exports: usize = 0;
    let mut i: usize = 0;
    while i < modules.len()
        invariant
            i <= modules@.len(),
            total_exports(modules@, modules@.len() as int) <= usize::MAX,
            initial_exports == total_exports(modules@, i as int),
        decreases modules@.len() - i,
    {
        proof {
            lemma_total_exports_mono(modules@, i + 1, modules@.len() as int);
        }
        initial_exports = initial_exports + modules[i].exports.len();
        i = i + 1;
    }
    let mut named: usize = 0;
    let mut e: usize = 0;
    while e < edges.len()
        invariant
            e <= edges@.len(),
            named_import_count(edges@, edges@.len() as int) <= usize::MAX,
            named == named_import_count(edges@, e as int),
        decreases edges@.len() - e,
    {
        let symbols = &edges[e].symbols;
        let mut k: usize = 0;
        let ghost base = named as nat;
        proof {
            lemma_named_count_mono(edges@, e + 1, edges@.len() as int);
        }
        while k < symbols.len()
            invariant
                k <= symbols@.len(),
                symbols@ == edges@[e as int].symbols@,
                e < edges@.len(),
                base == named_import_count(edges@, e as int),
                base + named_in(symbols@, symbols@.len() as int) <= usize::MAX,
                named == base + named_in(symbols@, k as int),
            decreases symbols@.len() - k,
        {
            proof {
                lemma_named_in_mono(symbols@, k + 1, symbols@.len() as int);
            }
            match &symbols[k].imported_name {
                ImportedName::Named(_) => {
                    named = named + 1;
                },
                _ => {},
            }
            k = k + 1;
        }
        e = e + 1;
    }
    let named_inputs = named.saturating_add(initial_exports).saturating_add(tuples.len());
    let module_count = modules.len();
    let mut hosts: usize = 0;
    let mut m: usize = 0;
    while m < modules.len()
        invariant
            m <= modules@.len(),
            hosts == star_hosts(modules@, m as int),
            hosts <= m,
        decreases modules@.len() - m,
    {
        let mut j: usize = 0;
        let mut has_star = false;
        while j < modules[m].re_exports.len()
            invariant
                m < modules@.len(),
                j <= modules@[m as int].re_exports@.len(),
                has_star == exists|i2: int|
                    0 <= i2 < j && (#[trigger] modules@[m as int].re_exports@[i2]).exported_name@ == "*"@,
            decreases modules@[m as int].re_exports@.len() - j,
        {
            if crate::text::str_eq(modules[m].re_exports[j].exported_name.as_str(), "*") {
                has_star = true;
            }
            j = j + 1;
        }
        if has_star {
            hosts = hosts + 1;
        }
        m = m + 1;
    }
    let synthetic_exports = saturating_mul(saturating_mul(hosts, named_inputs), 2);
    let max_exports = initial_exports.saturating_add(synthetic_exports);
    let reference_additions = saturating_mul(max_exports, module_count);
    let state_changes = synthetic_exports.saturating_add(reference_additions);
    let cap = tuples.len().saturating_add(saturating_mul(state_changes, tuples.len()));
    if cap < tuples.len() {
        tuples.len()
    } else {
        cap
    }
}

proof fn lemma_total_exports_mono(modules: Seq<ModuleNode>, a: int, b: int)
    requires
        0 <= a <= b,
    ensures
        total_exports(modules, a) <= total_exports(modules, b),
    decreases b - a,
{
    if a < b {
        lemma_total_exports_mono(modules, a, b - 1);
    }
}

proof fn lemma_named_count_mono(edges: Seq<Edge>, a: int, b: int)
    requires
        0 <= a <= b,
    ensures
        named_import_count(edges, a) <= named_import_count(edges, b),
    decreases b - a,
{
    if a < b {
        lemma_named_count_mono(edges, a, b - 1);
    }
}

proof fn lemma_named_in_mono(symbols: Seq<crate::re_exports::graph::ImportSymbol>, a: int, b: int)
    requires
        0 <= a <= b,
    ensures
        named_in(symbols, a) <= named_in(symbols, b),
    decreases b - a,
{
    if a < b {
        lemma_named_in_mono(symbols, a, b - 1);
    }
}

// ---------------------------------------------------------------------------
// Work queue
// ---------------------------------------------------------------------------

/// The indices (ascending) of the first `k` tuples whose barrel is `b`.
pub open spec fn observers_of(tuples: Seq<ReExportTuple>, b: u32, k: int) -> Seq<usize>
    decreases k,
{
    if k <= 0 {
        seq![]
    } else {
        let prev = observers_of(tuples, b, k - 1);
        if tuples[k - 1].barrel == b {
            prev.push((k - 1) as usize)
        } else {
            prev
        }
    }
}

proof fn lemma_observers_shape(tuples: Seq<ReExportTuple>, b: u32, k: int)
    requires
        0 <= k <= usize::MAX,
    ensures
        forall|j: int| 0 <= j < observers_of(tuples, b, k).len() ==> #[trigger] observers_of(tuples, b, k)[j] < k,
        observers_of(tuples, b, k).no_duplicates(),
    decreases k,
{
    if k > 0 {
        lemma_observers_shape(tuples, b, k - 1);
        let prev = observers_of(tuples, b, k - 1);
        let cur = observers_of(tuples, b, k);
        if tuples[k - 1].barrel == b {
            assert(cur == prev.push((k - 1) as usize));
            assert forall|j: int| 0 <= j < cur.len() implies #[trigger] cur[j] < k by {
                if j < prev.len() {
                    assert(cur[j] == prev[j]);
                }
            }
            assert forall|i: int, j: int| 0 <= i < j < cur.len() implies cur[i] != cur[j] by {
                assert(cur[i] == prev[i]);
                assert(prev[i] < k - 1);
                if j < prev.len() {
                    assert(cur[j] == prev[j]);
                }
            }
        } else {
            assert(cur == prev);
        }
    }
}

proof fn lemma_observers_none(tuples: Seq<ReExportTuple>, b: u32, k: int)
    requires
        forall|i: int| 0 <= i < k ==> tuples[i].barrel != b,
    ensures
        observers_of(tuples, b, k) == Seq::<usize>::empty(),
    decreases k,
{
    if k > 0 {
        lemma_observers_none(tuples, b, k - 1);
    }
}

/// The observers not already queued, in order.
pub open spec fn not_queued(obs: Seq<usize>, queue: Seq<usize>) -> Seq<usize>
    decreases obs.len(),
{
    if obs.len() == 0 {
        seq![]
    } else {
        let prev = not_queued(obs.drop_last(), queue);
        if queue.contains(obs.last()) {
            prev
        } else {
            prev.push(obs.last())
        }
    }
}

proof fn lemma_observers_contains(tuples: Seq<ReExportTuple>, b: u32, k: int, x: int)
    requires
        0 <= x < k <= usize::MAX,
        tuples[x].barrel == b,
    ensures
        observers_of(tuples, b, k).contains(x as usize),
    decreases k,
{
    if x < k - 1 {
        lemma_observers_contains(tuples, b, k - 1, x);
        let prev = observers_of(tuples, b, k - 1);
        let j = choose|j: int| 0 <= j < prev.len() && prev[j] == x as usize;
        if tuples[k - 1].barrel == b {
            assert(observers_of(tuples, b, k)[j] == prev[j]);
        }
    } else {
        let prev = observers_of(tuples, b, k - 1);
        assert(observers_of(tuples, b, k)[prev.len() as int] == x as usize);
    }
}

proof fn lemma_not_queued_contains(obs: Seq<usize>, queue: Seq<usize>, x: usize)
    requires
        obs.contains(x),
        !queue.contains(x),
    ensures
        not_queued(obs, queue).contains(x),
    decreases obs.len(),
{
    let prev = not_queued(obs.drop_last(), queue);
    if obs.last() == x {
        assert(not_queued(obs, queue)[prev.len() as int] == x);
    } else {
        let j = choose|j: int| 0 <= j < obs.len() && obs[j] == x;
        assert(obs.drop_last()[j] == x);
        lemma_not_queued_contains(obs.drop_last(), queue, x);
        let i = choose|i: int| 0 <= i < prev.len() && prev[i] == x;
        assert(not_queued(obs, queue)[i] == x);
    }
}

proof fn lemma_not_queued_len(obs: Seq<usize>, queue: Seq<usize>)
    ensures
        not_queued(obs, queue).len() <= obs.len(),
    decreases obs.len(),
{
    if obs.len() > 0 {
        lemma_not_queued_len(obs.drop_last(), queue);
    }
}

proof fn lemma_observers_len(tuples: Seq<ReExportTuple>, b: u32, k: int)
    requires
        0 <= k,
    ensures
        observers_of(tuples, b, k).len() <= k,
    decreases k,
{
    if k > 0 {
        lemma_observers_len(tuples, b, k - 1);
    }
}

/// Deterministic scheduler for monotone re-export propagation: every edge is
/// queued once at the start; when an edge changes its source module, the
/// edges whose barrel is that module are queued again (unless already
/// queued), in their original order.
pub struct ReExportPropagationPlan {
    observers_by_module: HashMap<u32, Vec<usize>>,
    queue: VecDeque<usize>,
    enqueued: Vec<bool>,
}

impl ReExportPropagationPlan {
    /// The edges waiting, in order.
    pub closed spec fn waiting(&self) -> Seq<usize> {
        self.queue@
    }

    /// The number of edges scheduled over.
    pub closed spec fn size(&self) -> nat {
        self.enqueued@.len()
    }

    /// The edges that observe module `b` (those whose barrel it is).
    pub closed spec fn observers(&self, b: u32) -> Seq<usize> {
        if self.observers_by_module@.contains_key(b) {
            self.observers_by_module@[b]@
        } else {
            seq![]
        }
    }

    /// Queue flags agree with the queue, which holds distinct edges.
    pub closed spec fn wf(&self) -> bool {
        &&& forall|i: int| 0 <= i < self.enqueued@.len() ==> (#[trigger] self.enqueued@[i] <==> self.queue@.contains(i as usize))
        &&& self.queue@.no_duplicates()
        &&& forall|k: int| 0 <= k < self.queue@.len() ==> #[trigger] self.queue@[k] < self.enqueued@.len()
        &&& forall|b: u32, k: int|
            self.observers_by_module@.contains_key(b) && 0 <= k < self.observers_by_module@[b]@.len()
                ==> #[trigger] self.observers_by_module@[b]@[k] < self.enqueued@.len()
        &&& forall|b: u32| #[trigger] self.observers_by_module@.contains_key(b) ==> self.observers_by_module@[b]@.no_duplicates()
    }

    /// Every edge queued once, in order.
    pub fn new(re_export_info: &Vec<ReExportTuple>) -> (r: Self)
        ensures
            r.wf(),
            r.size() == re_export_info@.len(),
            r.waiting() == Seq::new(re_export_info@.len(), |i: int| i as usize),
            forall|b: u32| #[trigger] r.observers(b) == observers_of(re_export_info@, b, re_export_info@.len() as int),
    {
        let n = re_export_info.len();
        let mut observers_by_module: HashMap<u32, Vec<usize>> = HashMap::new();
        let mut queue: VecDeque<usize> = VecDeque::new();
        let mut enqueued: Vec<bool> = Vec::new();
        let mut idx: usize = 0;
        while idx < n
            invariant
                idx <= n == re_export_info@.len(),
                queue@ == Seq::new(idx as nat, |i: int| i as usize),
                enqueued@.len() == idx,
                forall|i: int| 0 <= i < idx ==> #[trigger] enqueued@[i],
                forall|b: u32|
                    #[trigger] observers_by_module@.contains_key(b) <==> exists|i: int|
                        0 <= i < idx && re_export_info@[i].barrel == b,
                forall|b: u32|
                    #[trigger] observers_by_module@.contains_key(b) ==> observers_by_module@[b]@ == observers_of(
                        re_export_info@,
                        b,
                        idx as int,
                    ),
            decreases n - idx,
        {
            let b = re_export_info[idx].barrel;
            let ghost m0 = observers_by_module@;
            let mut list = match observers_by_module.remove(&b) {
                Some(v) => v,
                None => Vec::new(),
            };
            proof {
                if !m0.contains_key(b) {
                    assert forall|i: int| 0 <= i < idx implies re_export_info@[i].barrel != b by {
                        if re_export_info@[i].barrel == b {
                            assert(exists|i2: int| 0 <= i2 < idx && re_export_info@[i2].barrel == b);
                        }
                    }
                    lemma_observers_none(re_export_info@, b, idx as int);
                }
            }
            list.push(idx);
            observers_by_module.insert(b, list);
            queue.push_back(idx);
            enqueued.push(true);
            proof {
                assert(queue@ =~= Seq::new((idx + 1) as nat, |i: int| i as usize));
                assert forall|u: u32|
                    #[trigger] observers_by_module@.contains_key(u) <==> exists|i: int|
                        0 <= i < idx + 1 && re_export_info@[i].barrel == u by {
                    if u != b && observers_by_module@.contains_key(u) {
                        let i = choose|i: int| 0 <= i < idx && re_export_info@[i].barrel == u;
                    }
                    if exists|i: int| 0 <= i < idx + 1 && re_export_info@[i].barrel == u {
                        if u != b {
                            let i = choose|i: int| 0 <= i < idx + 1 && re_export_info@[i].barrel == u;
                            assert(i < idx);
                        }
                    }
                }
            }
            idx = idx + 1;
        }
        let r = ReExportPropagationPlan { observers_by_module, queue, enqueued };
        proof {
            assert forall|i: int| 0 <= i < r.enqueued@.len() implies (#[trigger] r.enqueued@[i] <==> r.queue@.contains(i as usize)) by {
                assert(r.queue@[i] == i as usize);
            }
            assert forall|b: u32, k: int|
                r.observers_by_module@.contains_key(b) && 0 <= k < r.observers_by_module@[b]@.len()
                    implies #[trigger] r.observers_by_module@[b]@[k] < r.enqueued@.len() by {
                lemma_observers_shape(re_export_info@, b, n as int);
            }
            assert forall|b: u32| #[trigger] r.observers_by_module@.contains_key(b) implies r.observers_by_module@[b]@.no_duplicates() by {
                lemma_observers_shape(re_export_info@, b, n as int);
            }
            assert forall|b: u32| #[trigger] r.observers(b) == observers_of(re_export_info@, b, n as int) by {
                if !r.observers_by_module@.contains_key(b) {
                    assert forall|i: int| 0 <= i < n implies re_export_info@[i].barrel != b by {
                        if re_export_info@[i].barrel == b {
                            assert(exists|i2: int| 0 <= i2 < n && re_export_info@[i2].barrel == b);
                        }
                    }
                    lemma_observers_none(re_export_info@, b, n as int);
                }
            }
        }
        r
    }

    /// Take the next waiting edge.
    pub fn pop_front(&mut self) -> (r: Option<usize>)
        requires
            old(self).wf(),
        ensures
            final(self).wf(),
            final(self).size() == old(self).size(),
            forall|b: u32| #[trigger] final(self).observers(b) == old(self).observers(b),
            old(self).waiting().len() == 0 ==> r is None && final(self).waiting() == old(self).waiting(),
            old(self).waiting().len() > 0 ==> r == Some(old(self).waiting()[0]) && final(self).waiting()
                == old(self).waiting().drop_first(),
            r matches Some(i) ==> i < old(self).size(),
    {
        // Every index below the flags' length is a `usize`.
        let _size = self.enqueued.len();
        let idx = match self.queue.pop_front() {
            Some(i) => i,
            None => {
                return None;
            },
        };
        let ghost q0 = old(self).queue@;
        self.enqueued.set(idx, false);
        proof {
            assert(q0[0] == idx);
            assert(self.queue@ == q0.drop_first());
            assert forall|i: int| 0 <= i < self.enqueued@.len() implies (#[trigger] self.enqueued@[i] <==> self.queue@.contains(i as usize)) by {
                if i == idx {
                    if self.queue@.contains(idx) {
                        let k = choose|k: int| 0 <= k < self.queue@.len() && self.queue@[k] == idx;
                        assert(q0[k + 1] == q0[0]);
                    }
                } else {
                    assert(old(self).enqueued@[i] <==> q0.contains(i as usize));
                    if q0.contains(i as usize) {
                        let k = choose|k: int| 0 <= k < q0.len() && q0[k] == i as usize;
                        assert(k != 0);
                        assert(self.queue@[k - 1] == i as usize);
                    }
                    if self.queue@.contains(i as usize) {
                        let k = choose|k: int| 0 <= k < self.queue@.len() && self.queue@[k] == i as usize;
                        assert(q0[k + 1] == i as usize);
                    }
                }
            }
            assert forall|k: int| 0 <= k < self.queue@.len() implies #[trigger] self.queue@[k] < self.enqueued@.len() by {
                assert(self.queue@[k] == q0[k + 1]);
            }
        }
        Some(idx)
    }

    /// Queue again the edges observing `changed_module` that are not queued.
    pub fn enqueue_observers(&mut self, changed_module: u32)
        requires
            old(self).wf(),
        ensures
            final(self).wf(),
            final(self).size() == old(self).size(),
            forall|b: u32| #[trigger] final(self).observers(b) == old(self).observers(b),
            final(self).waiting() == old(self).waiting() + not_queued(old(self).observers(changed_module), old(self).waiting()),
    {
        let empty: Vec<usize> = Vec::new();
        let observers = match self.observers_by_module.get(&changed_module) {
            Some(v) => v,
            None => &empty,
        };
        assert(observers@ == old(self).observers(changed_module));
        let ghost obs = observers@;
        let ghost q0 = self.queue@;
        let len0 = self.enqueued.len();
        let mut k: usize = 0;
        while k < observers.len()
            invariant
                k <= obs.len(),
                obs == observers@,
                obs.no_duplicates(),
                forall|j: int| 0 <= j < obs.len() ==> #[trigger] obs[j] < self.enqueued@.len(),
                self.observers_by_module@ == old(self).observers_by_module@,
                self.enqueued@.len() == old(self).enqueued@.len(),
                self.enqueued@.len() == len0,
                self.queue@ == q0 + not_queued(obs.subrange(0, k as int), q0),
                forall|i: int| 0 <= i < self.enqueued@.len() ==> (#[trigger] self.enqueued@[i] <==> self.queue@.contains(i as usize)),
                self.queue@.no_duplicates(),
                forall|j: int| 0 <= j < self.queue@.len() ==> #[trigger] self.queue@[j] < self.enqueued@.len(),
                forall|j: int, l: int| k <= j < obs.len() && 0 <= l < self.queue@.len() - q0.len() ==> #[trigger] obs[j] != #[trigger] self.queue@[q0.len() + l],
            decreases obs.len() - k,
        {
            let idx = observers[k];
            let ghost q1 = self.queue@;
            proof {
                assert(obs.subrange(0, k + 1).drop_last() =~= obs.subrange(0, k as int));
                assert(obs.subrange(0, k + 1).last() == idx);
            }
            if !self.enqueued[idx] {
                self.enqueued.set(idx, true);
                self.queue.push_back(idx);
                proof {
                    assert(!q1.contains(idx));
                    assert(!q0.contains(idx)) by {
                        if q0.contains(idx) {
                            let j = choose|j: int| 0 <= j < q0.len() && q0[j] == idx;
                            assert(q1[j] == idx);
                        }
                    }
                    assert(self.queue@ =~= q0 + not_queued(obs.subrange(0, k + 1), q0));
                    assert forall|i: int| 0 <= i < self.enqueued@.len() implies (#[trigger] self.enqueued@[i] <==> self.queue@.contains(i as usize)) by {
                        if i != idx {
                            if q1.contains(i as usize) {
                                let j = choose|j: int| 0 <= j < q1.len() && q1[j] == i as usize;
                                assert(self.queue@[j] == i as usize);
                            }
                            if self.queue@.contains(i as usize) {
                                let j = choose|j: int| 0 <= j < self.queue@.len() && self.queue@[j] == i as usize;
                                assert(self.queue@[q1.len() as int] == idx);
                                assert(j < q1.len());
                                assert(q1[j] == i as usize);
                            }
                        } else {
                            assert(self.queue@[self.queue@.len() - 1] == idx);
                        }
                    }
                    assert forall|a: int, c: int| 0 <= a < c < self.queue@.len() implies self.queue@[a] != self.queue@[c] by {
                        if c == self.queue@.len() - 1 {
                            assert(q1.contains(q1[a]));
                        }
                    }
                    assert forall|j: int, l: int| k + 1 <= j < obs.len() && 0 <= l < self.queue@.len() - q0.len() implies #[trigger] obs[j] != #[trigger] self.queue@[q0.len() + l] by {
                        if l == self.queue@.len() - q0.len() - 1 {
                            assert(self.queue@[q0.len() + l] == idx);
                            assert(obs[k as int] == idx);
                        } else {
                            assert(self.queue@[q0.len() + l] == q1[q0.len() + l]);
                        }
                    }
                }
            } else {
                proof {
                    assert(q1.contains(idx));
                    assert(q0.contains(idx)) by {
                        let j = choose|j: int| 0 <= j < q1.len() && q1[j] == idx;
                        if j >= q0.len() {
                            assert(obs[k as int] != q1[q0.len() + (j - q0.len())]);
                        }
                    }
                    assert(self.queue@ =~= q0 + not_queued(obs.subrange(0, k + 1), q0));
                }
            }
            k = k + 1;
        }
        proof {
            assert(obs.subrange(0, k as int) =~= obs);
        }
    }
}

// ---------------------------------------------------------------------------
// Propagation to a fixpoint
// ---------------------------------------------------------------------------

/// `b` is `a` with possibly more exports and references: same modules, same
/// files, entry points and re-exports, every export kept in place.
pub open spec fn modules_grow(a: Seq<ModuleNode>, b: Seq<ModuleNode>) -> bool {
    &&& a.len() == b.len()
    &&& forall|i: int|
        0 <= i < a.len() ==> {
            &&& (#[trigger] b[i]).file_id == a[i].file_id
            &&& b[i].entry_point == a[i].entry_point
            &&& b[i].re_exports == a[i].re_exports
            &&& exports_grow(exports_view(a[i].exports@), exports_view(b[i].exports@))
        }
}

pub proof fn lemma_modules_grow_refl(a: Seq<ModuleNode>)
    ensures
        modules_grow(a, a),
{
    assert forall|i: int| 0 <= i < a.len() implies exports_grow(exports_view(a[i].exports@), exports_view(a[i].exports@)) by {
        lemma_exports_grow_refl(exports_view(a[i].exports@));
    }
}

pub proof fn lemma_modules_grow_trans(a: Seq<ModuleNode>, b: Seq<ModuleNode>, c: Seq<ModuleNode>)
    requires
        modules_grow(a, b),
        modules_grow(b, c),
    ensures
        modules_grow(a, c),
{
    assert forall|i: int| 0 <= i < a.len() implies exports_grow(exports_view(a[i].exports@), exports_view(c[i].exports@)) by {
        assert(b[i] == b[i]);
        assert(c[i] == c[i]);
        lemma_exports_grow_trans(exports_view(a[i].exports@), exports_view(b[i].exports@), exports_view(c[i].exports@));
    }
}

/// Propagate references for one re-export edge: a star re-export through
/// [`propagate_star_re_export`], a named one through
/// [`propagate_named_re_export`]; an edge naming a file outside the graph
/// changes nothing. `true` when anything was added.
pub fn propagate_re_export_entry(
    modules: &mut Vec<ModuleNode>,
    edges: &Vec<Edge>,
    entry: &ReExportTuple,
    edges_by_target: &HashMap<u32, Vec<usize>>,
    module_by_id: &HashMap<u32, ImportBindingUsage>,
    entry_star_targets: &HashSet<u32>,
    synthetic_stubs: &mut SyntheticStubs,
) -> (r: bool)
    requires
        edge_indices_within(edges_by_target@, edges@.len() as int),
    ensures
        modules_grow(old(modules)@, final(modules)@),
        forall|j: int| 0 <= j < old(modules)@.len() && j != entry.source as int ==> #[trigger] final(modules)@[j] == old(modules)@[j],
        (entry.barrel as int) >= old(modules)@.len() || (entry.source as int) >= old(modules)@.len() ==> !r
            && final(modules)@ == old(modules)@ && final(synthetic_stubs)@ == old(synthetic_stubs)@,
        (entry.barrel as int) < old(modules)@.len() && (entry.source as int) < old(modules)@.len() ==> {
            let barrel = old(modules)@[entry.barrel as int];
            let source = old(modules)@[entry.source as int];
            if entry.exported_name@ == "*"@ {
                (exports_view(final(modules)@[entry.source as int].exports@), final(synthetic_stubs)@, r) == star_result(
                    barrel,
                    source,
                    edges@,
                    edges_by_target@,
                    module_by_id@,
                    entry.barrel,
                    entry.source,
                    entry_star_targets@,
                    entry.is_type_only,
                    old(synthetic_stubs)@,
                )
            } else {
                (exports_view(final(modules)@[entry.source as int].exports@), r) == named_result(
                    barrel,
                    exports_view(source.exports@),
                    entry.barrel,
                    entry.imported_name@,
                    entry.exported_name@,
                ) && final(synthetic_stubs)@ == old(synthetic_stubs)@
            }
        },
{
    let barrel_idx = entry.barrel as usize;
    let source_idx = entry.source as usize;
    if barrel_idx >= modules.len() || source_idx >= modules.len() {
        proof {
            lemma_modules_grow_refl(modules@);
        }
        return false;
    }
    let ghost m0 = modules@;
    if crate::text::str_eq(entry.exported_name.as_str(), "*") {
        let r = propagate_star_re_export(
            modules,
            edges,
            edges_by_target,
            module_by_id,
            entry.barrel,
            barrel_idx,
            entry.source,
            source_idx,
            entry_star_targets,
            entry.is_type_only,
            synthetic_stubs,
        );
        proof {
            lemma_star_result_grows(
                m0[barrel_idx as int],
                m0[source_idx as int],
                edges@,
                edges_by_target@,
                module_by_id@,
                entry.barrel,
                entry.source,
                entry_star_targets@,
                entry.is_type_only,
                old(synthetic_stubs)@,
            );
            assert forall|i: int| 0 <= i < m0.len() implies exports_grow(exports_view(m0[i].exports@), exports_view(modules@[i].exports@)) by {
                if i != source_idx {
                    assert(modules@[i] == m0[i]);
                    lemma_exports_grow_refl(exports_view(m0[i].exports@));
                }
            }
        }
        r
    } else {
        let r = propagate_named_re_export(
            modules,
            entry.barrel,
            barrel_idx,
            source_idx,
            entry.imported_name.as_str(),
            entry.exported_name.as_str(),
        );
        proof {
            lemma_named_result_grows(
                m0[barrel_idx as int],
                exports_view(m0[source_idx as int].exports@),
                entry.barrel,
                entry.imported_name@,
                entry.exported_name@,
            );
            assert forall|i: int| 0 <= i < m0.len() implies exports_grow(exports_view(m0[i].exports@), exports_view(modules@[i].exports@)) by {
                if i != source_idx {
                    assert(modules@[i] == m0[i]);
                    lemma_exports_grow_refl(exports_view(m0[i].exports@));
                }
            }
        }
        r
    }
}

/// The graphs on which work-queue propagation provably reaches its fixpoint
/// before the step cap: no star re-export can synthesize exports (see
/// [`no_star_synthesis`]), every reference and every import edge comes from
/// a file of the graph (file ids index the modules), and the cap does not
/// saturate.
pub open spec fn propagation_bounded(modules: Seq<ModuleNode>, edges: Seq<Edge>, tuples: Seq<ReExportTuple>) -> bool {
    &&& no_star_synthesis(modules, tuples)
    &&& modules_within(modules, modules.len() as int)
    &&& edges_within(edges, modules.len() as int)
    &&& modules.len() <= u32::MAX + 1
    &&& tuples.len() + total_exports(modules, modules.len() as int) * modules.len() * tuples.len() <= usize::MAX
}

/// A step within a bounded graph keeps references within the graph and
/// never lowers the count of (module, export, file) triples, raising it when
/// the step reports a change.
proof fn lemma_bounded_step(
    m0: Seq<ModuleNode>,
    before: Seq<ModuleNode>,
    after: Seq<ModuleNode>,
    edges: Seq<Edge>,
    by_target: Map<u32, Vec<usize>>,
    mods: Map<u32, ImportBindingUsage>,
    targets: Set<u32>,
    tuples: Seq<ReExportTuple>,
    idx: int,
    changed: bool,
    changes: nat,
    mm: int,
)
    requires
        propagation_bounded(m0, edges, tuples),
        mm == m0.len(),
        0 <= idx < tuples.len(),
        edge_indices_within(by_target, edges.len() as int),
        modules_grow(m0, before),
        modules_within(before, mm),
        changes + graph_pot(m0, mm, mm) <= graph_pot(before, mm, mm),
        forall|j: int| 0 <= j < m0.len() ==> (#[trigger] before[j]).exports@.len() == m0[j].exports@.len(),
        ({
            let e = tuples[idx];
            let b = e.barrel as int;
            let s = e.source as int;
            &&& (b >= before.len() || s >= before.len()) ==> !changed && after == before
            &&& (b < before.len() && s < before.len()) ==> {
                &&& after.len() == before.len()
                &&& forall|j: int| 0 <= j < before.len() && j != s ==> #[trigger] after[j] == before[j]
                &&& if e.exported_name@ == "*"@ {
                    (exports_view(after[s].exports@), changed) == ({
                        let r = star_result(
                            before[b],
                            before[s],
                            edges,
                            by_target,
                            mods,
                            e.barrel,
                            e.source,
                            targets,
                            e.is_type_only,
                            Set::empty(),
                        );
                        (r.0, r.2)
                    })
                } else {
                    (exports_view(after[s].exports@), changed) == named_result(
                        before[b],
                        exports_view(before[s].exports@),
                        e.barrel,
                        e.imported_name@,
                        e.exported_name@,
                    )
                }
            }
        }),
    ensures
        modules_within(after, mm),
        (if changed { changes + 1 } else { changes }) + graph_pot(m0, mm, mm) <= graph_pot(after, mm, mm),
{
    let e = tuples[idx];
    let b = e.barrel as int;
    let s = e.source as int;
    if b < before.len() && s < before.len() {
        lemma_exports_fit(before[s]);
        if e.exported_name@ == "*"@ {
            assert(before[s].re_exports == m0[s].re_exports);
            assert(!crate::re_exports::propagate::forwards_star(m0[s]));
            crate::re_exports::settle::lemma_star_step(
                before[b],
                before[s],
                edges,
                by_target,
                mods,
                e.barrel,
                e.source,
                targets,
                e.is_type_only,
                Set::empty(),
            );
        } else {
            lemma_exports_fit(before[s]);
            crate::re_exports::settle::lemma_named_step(
                before[b],
                exports_view(before[s].exports@),
                e.barrel,
                e.imported_name@,
                e.exported_name@,
            );
        }
        crate::re_exports::settle::lemma_step_gains(before[b], before[s], edges, by_target, mods, e, targets);
        lemma_step_within(before[b], before[s], edges, by_target, mods, e, targets, mm);
        assert forall|t: int| 0 <= t < after.len() implies crate::re_exports::bound::exports_within(
            exports_view((#[trigger] after[t]).exports@),
            mm,
        ) by {
            if t != s {
                assert(after[t] == before[t]);
            }
        }
        lemma_graph_pot_step(before, after, s, mm, mm);
    }
}

/// In a bounded graph the steps taken stay below the cap while an edge is
/// still queued.
proof fn lemma_cap_not_reached(
    m0: Seq<ModuleNode>,
    cur: Seq<ModuleNode>,
    edges: Seq<Edge>,
    tuples: Seq<ReExportTuple>,
    changes: nat,
    processed: nat,
    waiting: nat,
    mm: int,
)
    requires
        propagation_bounded(m0, edges, tuples),
        mm == m0.len(),
        cur.len() == m0.len(),
        forall|j: int| 0 <= j < m0.len() ==> (#[trigger] cur[j]).exports@.len() == m0[j].exports@.len(),
        changes + graph_pot(m0, mm, mm) <= graph_pot(cur, mm, mm),
        processed + waiting <= tuples.len() + changes * tuples.len(),
        waiting >= 1,
    ensures
        processed < safety_cap(
            total_exports(m0, mm),
            named_import_count(edges, edges.len() as int),
            tuples.len(),
            m0.len(),
            star_hosts(m0, mm),
        ),
{
    let n = tuples.len();
    let e = total_exports(m0, mm);
    lemma_graph_pot_bound(cur, mm, mm);
    lemma_total_exports_same(m0, cur, mm);
    assert(changes <= e * mm);
    assert(changes * n <= e * mm * n) by (nonlinear_arith)
        requires
            changes <= e * mm,
    ;
    if n == 0 {
        assert(processed + waiting <= 0nat + changes * 0nat);
        assert(changes * 0nat == 0) by (nonlinear_arith);
    } else {
        lemma_cap_room(e, named_import_count(edges, edges.len() as int), n, m0.len(), star_hosts(m0, mm));
    }
}

/// Run monotone propagation over the re-export edges with the work queue of
/// [`ReExportPropagationPlan`], revisiting only edges whose barrel changed,
/// for at most `safety_cap` steps. Propagation only adds: every module keeps
/// its file, entry flag, re-exports and exports (in place), gaining at most
/// new references and synthetic exports. Returns the number of steps taken.
///
/// On a bounded graph (see [`propagation_bounded`]) the cap never cuts the
/// run short and the result is a fixpoint: propagating any edge again
/// changes nothing. Without the file bounds, the same holds whenever fewer
/// steps than the cap were taken (and a run the cap cut short has given some
/// export a reference from a new file), as long as no star re-export can
/// synthesize exports: a synthesized export can appear after an edge that
/// would have fed it already ran, and nothing queues that edge again.
pub fn run_re_export_fixpoint(
    modules: &mut Vec<ModuleNode>,
    edges: &Vec<Edge>,
    re_export_info: &Vec<ReExportTuple>,
    entry_star_targets: &HashSet<u32>,
    edges_by_target: &HashMap<u32, Vec<usize>>,
    module_by_id: &HashMap<u32, ImportBindingUsage>,
) -> (steps: usize)
    requires
        edge_indices_within(edges_by_target@, edges@.len() as int),
        total_exports(old(modules)@, old(modules)@.len() as int) <= usize::MAX,
        named_import_count(edges@, edges@.len() as int) <= usize::MAX,
    ensures
        modules_grow(old(modules)@, final(modules)@),
        steps <= safety_cap(
            total_exports(old(modules)@, old(modules)@.len() as int),
            named_import_count(edges@, edges@.len() as int),
            re_export_info@.len(),
            old(modules)@.len(),
            star_hosts(old(modules)@, old(modules)@.len() as int),
        ),
        no_star_synthesis(old(modules)@, re_export_info@) && steps < safety_cap(
            total_exports(old(modules)@, old(modules)@.len() as int),
            named_import_count(edges@, edges@.len() as int),
            re_export_info@.len(),
            old(modules)@.len(),
            star_hosts(old(modules)@, old(modules)@.len() as int),
        ) ==> forall|k: int|
            0 <= k < re_export_info@.len() ==> entry_settled(
                final(modules)@,
                edges@,
                edges_by_target@,
                module_by_id@,
                entry_star_targets@,
                #[trigger] re_export_info@[k],
            ),
        no_star_synthesis(old(modules)@, re_export_info@) ==> (forall|k: int|
            0 <= k < re_export_info@.len() ==> entry_settled(
                final(modules)@,
                edges@,
                edges_by_target@,
                module_by_id@,
                entry_star_targets@,
                #[trigger] re_export_info@[k],
            )) || graph_gains_ref(old(modules)@, final(modules)@),
        propagation_bounded(old(modules)@, edges@, re_export_info@) ==> forall|k: int|
            0 <= k < re_export_info@.len() ==> entry_settled(
                final(modules)@,
                edges@,
                edges_by_target@,
                module_by_id@,
                entry_star_targets@,
                #[trigger] re_export_info@[k],
            ),
{
    let safety = re_export_transition_safety_cap(modules, edges, re_export_info);
    let mut processed: usize = 0;
    let mut plan = ReExportPropagationPlan::new(re_export_info);
    let mut synthetic_stubs = SyntheticStubs::new();
    let ghost m0 = modules@;
    let ghost tuples = re_export_info@;
    let ghost nsyn = no_star_synthesis(m0, tuples);
    let ghost mut changed_any = false;
    let ghost bounded = propagation_bounded(m0, edges@, tuples);
    let ghost mm: int = m0.len() as int;
    let ghost mut changes: nat = 0;
    proof {
        lemma_modules_grow_refl(modules@);
        assert(tuples.len() == re_export_info.len());
        assert(safety >= tuples.len());
        assert forall|k: int| #![trigger tuples[k]] 0 <= k < tuples.len() implies plan.waiting().contains(k as usize) by {
            assert(plan.waiting()[k] == k as usize);
        }
    }
    loop
        invariant_except_break
            nsyn ==> forall|k: int|
                0 <= k < tuples.len() && !plan.waiting().contains(k as usize) ==> entry_covered(
                    modules@,
                    edges@,
                    edges_by_target@,
                    module_by_id@,
                    entry_star_targets@,
                    #[trigger] tuples[k],
                ),
            !changed_any ==> processed + plan.waiting().len() == tuples.len(),
        invariant
            edge_indices_within(edges_by_target@, edges@.len() as int),
            plan.wf(),
            plan.size() == re_export_info@.len(),
            forall|b: u32| #[trigger] plan.observers(b) == observers_of(tuples, b, tuples.len() as int),
            processed <= safety,
            modules_grow(old(modules)@, modules@),
            m0 == old(modules)@,
            tuples == re_export_info@,
            tuples.len() <= usize::MAX,
            nsyn == no_star_synthesis(m0, tuples),
            nsyn ==> synthetic_stubs@ == Set::<(u32, Seq<char>, bool)>::empty(),
            nsyn ==> forall|j: int| 0 <= j < m0.len() ==> (#[trigger] modules@[j]).exports@.len() == m0[j].exports@.len(),
            nsyn && changed_any ==> graph_gains_ref(m0, modules@),
            safety >= tuples.len(),
            bounded == propagation_bounded(m0, edges@, tuples),
            mm == m0.len(),
            safety == safety_cap(
                total_exports(m0, mm),
                named_import_count(edges@, edges@.len() as int),
                tuples.len(),
                m0.len(),
                star_hosts(m0, mm),
            ),
            bounded ==> modules_within(modules@, mm),
            bounded ==> changes + graph_pot(m0, mm, mm) <= graph_pot(modules@, mm, mm),
            bounded ==> processed + plan.waiting().len() <= tuples.len() + changes * tuples.len(),
        ensures
            processed <= safety,
            modules_grow(old(modules)@, modules@),
            nsyn && processed < safety ==> forall|k: int|
                0 <= k < tuples.len() ==> entry_covered(
                    modules@,
                    edges@,
                    edges_by_target@,
                    module_by_id@,
                    entry_star_targets@,
                    #[trigger] tuples[k],
                ),
            nsyn ==> (forall|k: int|
                0 <= k < tuples.len() ==> entry_covered(
                    modules@,
                    edges@,
                    edges_by_target@,
                    module_by_id@,
                    entry_star_targets@,
                    #[trigger] tuples[k],
                )) || graph_gains_ref(m0, modules@),
            bounded ==> forall|k: int|
                0 <= k < tuples.len() ==> entry_covered(
                    modules@,
                    edges@,
                    edges_by_target@,
                    module_by_id@,
                    entry_star_targets@,
                    #[trigger] tuples[k],
                ),
        decreases safety - processed,
    {
        let ghost w0 = plan.waiting();
        let entry_idx = match plan.pop_front() {
            Some(i) => i,
            None => {
                break;
            },
        };
        if processed >= safety {
            proof {
                if bounded {
                    lemma_cap_not_reached(m0, modules@, edges@, tuples, changes, processed as nat, w0.len(), mm);
                }
            }
            break;
        }
        processed = processed + 1;
        let entry = &re_export_info[entry_idx];
        let ghost before = modules@;
        let ghost w1 = plan.waiting();
        let changed = propagate_re_export_entry(
            modules,
            edges,
            entry,
            edges_by_target,
            module_by_id,
            entry_star_targets,
            &mut synthetic_stubs,
        );
        proof {
            lemma_modules_grow_trans(old(modules)@, before, modules@);
        }
        if changed {
            plan.enqueue_observers(entry.source);
        }
        proof {
            if !changed {
                assert(plan.waiting() == w1);
            }
            let prev_changed = changed_any;
            changed_any = changed_any || changed;
            let prev_changes = changes;
            if changed {
                changes = changes + 1;
            }
            if bounded {
                lemma_bounded_step(
                    m0,
                    before,
                    modules@,
                    edges@,
                    edges_by_target@,
                    module_by_id@,
                    entry_star_targets@,
                    tuples,
                    entry_idx as int,
                    changed,
                    prev_changes,
                    mm,
                );
                if changed {
                    lemma_not_queued_len(observers_of(tuples, entry.source, tuples.len() as int), w1);
                    lemma_observers_len(tuples, entry.source, tuples.len() as int);
                    assert(plan.waiting().len() <= w1.len() + tuples.len());
                    assert((prev_changes + 1) * tuples.len() == prev_changes * tuples.len() + tuples.len()) by (nonlinear_arith);
                }
            }
            if nsyn {
                let e = tuples[entry_idx as int];
                assert(e == *entry);
                let s = e.source as int;
                if e.exported_name@ == "*"@ && s < before.len() {
                    assert(tuples[entry_idx as int].exported_name@ == "*"@);
                    assert(before[s].re_exports == m0[s].re_exports);
                    assert(!crate::re_exports::propagate::forwards_star(m0[s]));
                }
                lemma_entry_step(
                    before,
                    modules@,
                    edges@,
                    edges_by_target@,
                    module_by_id@,
                    entry_star_targets@,
                    e,
                    synthetic_stubs@,
                    changed,
                );
                // Export counts stay put, and gained references stay gained.
                assert forall|j: int| 0 <= j < m0.len() implies (#[trigger] modules@[j]).exports@.len() == m0[j].exports@.len() by {
                    if j != s {
                        assert(modules@[j] == before[j]);
                    } else {
                        assert(exports_view(modules@[j].exports@).len() == modules@[j].exports@.len());
                        assert(exports_view(before[j].exports@).len() == before[j].exports@.len());
                    }
                }
                if prev_changed {
                    let g = choose|g: int|
                        0 <= g < m0.len() && g < before.len() && #[trigger] crate::re_exports::settle::gains_ref(
                            exports_view(m0[g].exports@),
                            exports_view(before[g].exports@),
                        );
                    lemma_gains_ref_grows(exports_view(m0[g].exports@), exports_view(before[g].exports@), exports_view(modules@[g].exports@));
                    assert(graph_gains_ref(m0, modules@));
                }
                if changed {
                    assert(exports_view(m0[s].exports@).len() == m0[s].exports@.len());
                    assert(exports_view(before[s].exports@).len() == before[s].exports@.len());
                    lemma_grows_then_gains_ref(exports_view(m0[s].exports@), exports_view(before[s].exports@), exports_view(modules@[s].exports@));
                    assert(graph_gains_ref(m0, modules@));
                }
                let w2 = plan.waiting();
                assert forall|k: int| 0 <= k < tuples.len() && !w2.contains(k as usize) implies entry_covered(
                    modules@,
                    edges@,
                    edges_by_target@,
                    module_by_id@,
                    entry_star_targets@,
                    #[trigger] tuples[k],
                ) by {
                    let f = tuples[k];
                    // Whatever was queued after the pop is still queued.
                    if w1.contains(k as usize) {
                        let i = choose|i: int| 0 <= i < w1.len() && w1[i] == k as usize;
                        if changed {
                            assert(w2[i] == w1[i]);
                        }
                    }
                    // A changed source queues every edge that reads it as a barrel.
                    if changed && f.barrel == e.source {
                        lemma_observers_contains(tuples, e.source, tuples.len() as int, k);
                        lemma_not_queued_contains(observers_of(tuples, e.source, tuples.len() as int), w1, k as usize);
                        let i = choose|i: int|
                            0 <= i < not_queued(observers_of(tuples, e.source, tuples.len() as int), w1).len()
                                && not_queued(observers_of(tuples, e.source, tuples.len() as int), w1)[i] == k as usize;
                        assert(w2[w1.len() + i] == k as usize);
                    }
                    if k != entry_idx as int {
                        assert(!w0.contains(k as usize)) by {
                            if w0.contains(k as usize) {
                                let i = choose|i: int| 0 <= i < w0.len() && w0[i] == k as usize;
                                assert(i != 0);
                                assert(w1[i - 1] == w0[i]);
                            }
                        }
                        if (e.barrel as int) < before.len() && s < before.len() {
                            lemma_step_keeps_covered(
                                before,
                                modules@,
                                edges@,
                                edges_by_target@,
                                module_by_id@,
                                entry_star_targets@,
                                e,
                                f,
                                changed,
                            );
                        }
                    }
                }
            }
        }
    }
    proof {
        if nsyn && (forall|k: int|
            0 <= k < tuples.len() ==> entry_covered(
                modules@,
                edges@,
                edges_by_target@,
                module_by_id@,
                entry_star_targets@,
                #[trigger] tuples[k],
            )) {
            assert forall|k: int| 0 <= k < re_export_info@.len() implies entry_settled(
                modules@,
                edges@,
                edges_by_target@,
                module_by_id@,
                entry_star_targets@,
                #[trigger] re_export_info@[k],
            ) by {
                let e = tuples[k];
                let s = e.source as int;
                assert(entry_covered(modules@, edges@, edges_by_target@, module_by_id@, entry_star_targets@, tuples[k]));
                if e.exported_name@ == "*"@ && s < modules@.len() {
                    assert(modules@[s].re_exports == m0[s].re_exports);
                    assert(!crate::re_exports::propagate::forwards_star(m0[s]));
                }
                lemma_covered_settled(modules@, edges@, edges_by_target@, module_by_id@, entry_star_targets@, e);
            }
        }
    }
    processed
}

/// `by_target` indexes the edges by target file, as
/// [`build_edges_by_target`] builds it.
pub open spec fn indexes_edges(by_target: Map<u32, Vec<usize>>, edges: Seq<Edge>) -> bool {
    &&& forall|t: u32| #[trigger] by_target.contains_key(t) <==> exists|i: int| 0 <= i < edges.len() && edges[i].target == t
    &&& forall|t: u32| #[trigger] by_target.contains_key(t) ==> by_target[t]@ == indices_to(edges, t, edges.len() as int)
}

/// `s` is the least set that holds the star sources of entry points and is
/// closed under star re-exports, as [`collect_entry_star_targets`] builds it.
pub open spec fn is_entry_star_closure(modules: Seq<ModuleNode>, s: Set<u32>) -> bool {
    &&& entry_star_sources(modules).subset_of(s)
    &&& star_closed(modules, s)
    &&& forall|t: Set<u32>| entry_star_sources(modules).subset_of(t) && star_closed(modules, t) ==> #[trigger] s.subset_of(t)
}

proof fn lemma_settled_congruence(
    m: Seq<ModuleNode>,
    edges: Seq<Edge>,
    b1: Map<u32, Vec<usize>>,
    b2: Map<u32, Vec<usize>>,
    mods: Map<u32, ImportBindingUsage>,
    targets: Set<u32>,
    e: ReExportTuple,
)
    requires
        indexes_edges(b1, edges),
        indexes_edges(b2, edges),
    ensures
        entry_settled(m, edges, b1, mods, targets, e) == entry_settled(m, edges, b2, mods, targets, e),
{
    if (e.barrel as int) < m.len() {
        let f = m[e.barrel as int].file_id;
        assert(b1.contains_key(f) == b2.contains_key(f));
        assert(crate::re_exports::propagate::edges_into(b1, f) == crate::re_exports::propagate::edges_into(b2, f));
        assert(crate::re_exports::propagate::star_refs_by_name(m[e.barrel as int], edges, b1)
            == crate::re_exports::propagate::star_refs_by_name(m[e.barrel as int], edges, b2));
    }
}

/// Resolve re-export chains over the module graph: references reaching a
/// barrel's re-exported symbols also count for the module it re-exports
/// from, transitively (see [`run_re_export_fixpoint`]). Returns the
/// re-export cycles and self-loops of the graph (see
/// [`find_re_export_cycles`]); `displays[i]` is the display form of the
/// path of file `i`. On a bounded graph (see [`propagation_bounded`]) the
/// modules end at a fixpoint of propagation over the edge index and the
/// entry-point star closure.
pub fn resolve_re_export_chains(
    modules: &mut Vec<ModuleNode>,
    edges: &Vec<Edge>,
    module_by_id: &HashMap<u32, ImportBindingUsage>,
    displays: &Vec<String>,
) -> (r: Vec<GraphReExportCycle>)
    requires
        total_exports(old(modules)@, old(modules)@.len() as int) <= usize::MAX,
        named_import_count(edges@, edges@.len() as int) <= usize::MAX,
        2 * re_export_tuples(old(modules)@, old(modules)@.len() as int).len() < u32::MAX,
    ensures
        modules_grow(old(modules)@, final(modules)@),
        are_re_export_cycles(re_export_tuples(old(modules)@, old(modules)@.len() as int), displays@, r@),
        no_star_synthesis(old(modules)@, re_export_tuples(old(modules)@, old(modules)@.len() as int)) ==> forall|
            by_target: Map<u32, Vec<usize>>,
            targets: Set<u32>,
        |
            #![trigger indexes_edges(by_target, edges@), is_entry_star_closure(old(modules)@, targets)]
            indexes_edges(by_target, edges@) && is_entry_star_closure(old(modules)@, targets) ==> (forall|k: int|
                0 <= k < re_export_tuples(old(modules)@, old(modules)@.len() as int).len() ==> entry_settled(
                    final(modules)@,
                    edges@,
                    by_target,
                    module_by_id@,
                    targets,
                    #[trigger] re_export_tuples(old(modules)@, old(modules)@.len() as int)[k],
                )) || graph_gains_ref(old(modules)@, final(modules)@),
        propagation_bounded(old(modules)@, edges@, re_export_tuples(old(modules)@, old(modules)@.len() as int)) ==> forall|
            by_target: Map<u32, Vec<usize>>,
            targets: Set<u32>,
        |
            #![trigger indexes_edges(by_target, edges@), is_entry_star_closure(old(modules)@, targets)]
            indexes_edges(by_target, edges@) && is_entry_star_closure(old(modules)@, targets) ==> forall|k: int|
                0 <= k < re_export_tuples(old(modules)@, old(modules)@.len() as int).len() ==> entry_settled(
                    final(modules)@,
                    edges@,
                    by_target,
                    module_by_id@,
                    targets,
                    #[trigger] re_export_tuples(old(modules)@, old(modules)@.len() as int)[k],
                ),
{
    let re_export_info = collect_re_export_tuples(modules);
    if re_export_info.len() == 0 {
        let none: Vec<GraphReExportCycle> = Vec::new();
        proof {
            lemma_modules_grow_refl(modules@);
            let sccs = Seq::<Vec<usize>>::empty();
            assert(endpoints(re_export_info@, 0) =~= Seq::<u32>::empty());
            assert(re_export_nodes(re_export_info@) =~= Seq::<u32>::empty());
            assert(flatten(sccs) =~= Seq::<usize>::empty());
            assert(self_loops(re_export_info@, 0) =~= Seq::<u32>::empty());
            assert(cycles_view(none@) =~= reported_cycles(re_export_info@, sccs, displays@));
            assert(re_export_info@ == re_export_tuples(old(modules)@, old(modules)@.len() as int));
            assert(partitions_nodes(sccs, re_export_nodes(re_export_info@).len() as usize));
            let adj = Seq::<Vec<usize>>::empty();
            assert(is_re_export_graph(re_export_info@, adj));
            assert(edges_point_back(sccs, adj));
            assert(components_connected(sccs, adj));
            assert(re_exports_point_back(re_export_info@, sccs));
        }
        return none;
    }
    let cycles = find_re_export_cycles(&re_export_info, displays);
    let entry_star_targets = collect_entry_star_targets(modules);
    let edges_by_target = build_edges_by_target(edges);
    let ghost m0 = modules@;
    let _steps = run_re_export_fixpoint(modules, edges, &re_export_info, &entry_star_targets, &edges_by_target, module_by_id);
    proof {
        let tuples = re_export_info@;
        assert forall|by_target: Map<u32, Vec<usize>>, targets: Set<u32>|
            #![trigger indexes_edges(by_target, edges@), is_entry_star_closure(m0, targets)]
            no_star_synthesis(m0, tuples) && indexes_edges(by_target, edges@) && is_entry_star_closure(m0, targets) implies (
            forall|k: int|
                0 <= k < tuples.len() ==> entry_settled(
                    modules@,
                    edges@,
                    by_target,
                    module_by_id@,
                    targets,
                    #[trigger] tuples[k],
                )) || graph_gains_ref(m0, modules@) by {
            assert(targets.subset_of(entry_star_targets@));
            assert(entry_star_targets@.subset_of(targets));
            assert(targets =~= entry_star_targets@);
            if !graph_gains_ref(m0, modules@) {
                assert forall|k: int| 0 <= k < tuples.len() implies entry_settled(
                    modules@,
                    edges@,
                    by_target,
                    module_by_id@,
                    targets,
                    #[trigger] tuples[k],
                ) by {
                    assert(entry_settled(modules@, edges@, edges_by_target@, module_by_id@, entry_star_targets@, tuples[k]));
                    lemma_settled_congruence(modules@, edges@, edges_by_target@, by_target, module_by_id@, targets, tuples[k]);
                }
            }
        }
        assert forall|by_target: Map<u32, Vec<usize>>, targets: Set<u32>|
            #![trigger indexes_edges(by_target, edges@), is_entry_star_closure(m0, targets)]
            propagation_bounded(m0, edges@, tuples) && indexes_edges(by_target, edges@) && is_entry_star_closure(
                m0,
                targets,
            ) implies forall|k: int|
            0 <= k < tuples.len() ==> entry_settled(modules@, edges@, by_target, module_by_id@, targets, #[trigger] tuples[k]) by {
            assert(targets.subset_of(entry_star_targets@));
            assert(entry_star_targets@.subset_of(targets));
            assert(targets =~= entry_star_targets@);
            assert forall|k: int| 0 <= k < tuples.len() implies entry_settled(
                modules@,
                edges@,
                by_target,
                module_by_id@,
                targets,
                #[trigger] tuples[k],
            ) by {
                assert(entry_settled(modules@, edges@, edges_by_target@, module_by_id@, entry_star_targets@, tuples[k]));
                lemma_settled_congruence(modules@, edges@, edges_by_target@, by_target, module_by_id@, targets, tuples[k]);
            }
        }
    }
    cycles
}

} // verus!
