//! Strongly connected components of the re-export graph.
//!
//! Re-export cycles (`a` re-exports from `b`, `b` from `a`) leave chain
//! propagation incomplete and are reported to the user. They are found with
//! an iterative Tarjan SCC over dense node indices, proved to return exactly
//! the strongly connected components, in reverse topological order. The "on
//! stack" flags are a `fixedbitset::FixedBitSet`; everything else is proved
//! here.

use std::collections::HashMap;

use vstd::prelude::*;
use vstd::string::StringSliceAdditionalSpecFns;
use vstd::utf8::encode_utf8;

use crate::re_exports::resolve::ReExportTuple;
use crate::text;
use crate::text::{bytes_less, bytes_less_exec};

verus! {

// ---------------------------------------------------------------------------
// fixedbitset
// ---------------------------------------------------------------------------

#[verifier::external_type_specification]
#[verifier::external_body]
pub struct ExFixedBitSet(fixedbitset::FixedBitSet);

/// The enabled bits of a `FixedBitSet`.
pub uninterp spec fn bitset_members(set: fixedbitset::FixedBitSet) -> Set<usize>;

/// The number of bits a `FixedBitSet` holds (`FixedBitSet::len`).
pub uninterp spec fn bitset_len(set: fixedbitset::FixedBitSet) -> usize;

/// `FixedBitSet::with_capacity`: `bits` bits, all clear.
#[verifier::external_body]
fn bitset_with_capacity(bits: usize) -> (r: fixedbitset::FixedBitSet)
    ensures
        bitset_members(r) == Set::<usize>::empty(),
        bitset_len(r) == bits,
{
    fixedbitset::FixedBitSet::with_capacity(bits)
}

/// `FixedBitSet::insert`: enables `bit`; it panics past the length, which
/// `requires` rules out.
#[verifier::external_body]
fn bitset_insert(set: &mut fixedbitset::FixedBitSet, bit: usize)
    requires
        bit < bitset_len(*old(set)),
    ensures
        bitset_members(*final(set)) == bitset_members(*old(set)).insert(bit),
        bitset_len(*final(set)) == bitset_len(*old(set)),
{
    set.insert(bit)
}

/// `FixedBitSet::remove`: disables `bit`; it panics past the length, which
/// `requires` rules out.
#[verifier::external_body]
fn bitset_remove(set: &mut fixedbitset::FixedBitSet, bit: usize)
    requires
        bit < bitset_len(*old(set)),
    ensures
        bitset_members(*final(set)) == bitset_members(*old(set)).remove(bit),
        bitset_len(*final(set)) == bitset_len(*old(set)),
{
    set.remove(bit)
}

/// `FixedBitSet::contains`: whether `bit` is enabled (false past the length).
#[verifier::external_body]
fn bitset_contains(set: &fixedbitset::FixedBitSet, bit: usize) -> (r: bool)
    ensures
        r == bitset_members(*set).contains(bit),
{
    set.contains(bit)
}

// ---------------------------------------------------------------------------
// Specification
// ---------------------------------------------------------------------------

/// The components, concatenated in order.
pub open spec fn flatten(sccs: Seq<Vec<usize>>) -> Seq<usize>
    decreases sccs.len(),
{
    if sccs.len() == 0 {
        seq![]
    } else {
        flatten(sccs.drop_last()) + sccs.last()@
    }
}

/// Every successor listed for a node below `n` is itself below `n`.
pub open spec fn adjacency_within(n: usize, adj: Seq<Vec<usize>>) -> bool {
    &&& n <= adj.len()
    &&& forall|v: int, j: int| 0 <= v < n && 0 <= j < adj[v]@.len() ==> (#[trigger] adj[v]@[j]) < n
}

/// `sccs` partitions the nodes `0..n` into non-empty components: every node
/// appears in exactly one component, exactly once, and nothing else appears.
pub open spec fn partitions_nodes(sccs: Seq<Vec<usize>>, n: usize) -> bool {
    &&& flatten(sccs).no_duplicates()
    &&& forall|v: usize| v < n ==> flatten(sccs).contains(v)
    &&& forall|i: int| 0 <= i < flatten(sccs).len() ==> (#[trigger] flatten(sccs)[i]) < n
    &&& forall|k: int| 0 <= k < sccs.len() ==> (#[trigger] sccs[k])@.len() > 0
}

/// The nodes below `n`.
pub open spec fn below(n: usize) -> Set<usize> {
    Set::new(|x: usize| x < n)
}

proof fn lemma_below(n: usize)
    ensures
        below(n).finite(),
        below(n).len() == n,
    decreases n,
{
    if n == 0 {
        assert(below(0) =~= Set::<usize>::empty());
    } else {
        lemma_below((n - 1) as usize);
        assert(below(n) =~= below((n - 1) as usize).insert((n - 1) as usize));
    }
}

/// Distinct nodes below `n` number at most `n`.
proof fn lemma_distinct_below(s: Seq<usize>, n: usize)
    requires
        s.no_duplicates(),
        forall|i: int| 0 <= i < s.len() ==> s[i] < n,
    ensures
        s.len() <= n,
{
    s.unique_seq_to_set();
    lemma_below(n);
    assert(s.to_set().subset_of(below(n)));
    vstd::set_lib::lemma_len_subset(s.to_set(), below(n));
}

/// A concatenation without duplicates splits into two duplicate-free,
/// disjoint parts.
proof fn lemma_no_dup_split(a: Seq<usize>, b: Seq<usize>)
    requires
        (a + b).no_duplicates(),
    ensures
        a.no_duplicates(),
        b.no_duplicates(),
        forall|i: int, j: int| 0 <= i < a.len() && 0 <= j < b.len() ==> a[i] != b[j],
{
    let s = a + b;
    assert forall|i: int, j: int| 0 <= i < j < a.len() implies a[i] != a[j] by {
        assert(s[i] == a[i] && s[j] == a[j]);
    }
    assert forall|i: int, j: int| 0 <= i < j < b.len() implies b[i] != b[j] by {
        assert(s[a.len() + i] == b[i] && s[a.len() + j] == b[j]);
    }
    assert forall|i: int, j: int| 0 <= i < a.len() && 0 <= j < b.len() implies a[i] != b[j] by {
        assert(s[i] == a[i] && s[a.len() + j] == b[j]);
    }
}

proof fn lemma_flatten_push(sccs: Seq<Vec<usize>>, x: Vec<usize>)
    ensures
        flatten(sccs.push(x)) == flatten(sccs) + x@,
{
    assert(sccs.push(x).drop_last() =~= sccs);
}

// ---------------------------------------------------------------------------
// Tarjan
// ---------------------------------------------------------------------------

/// One node of the explicit DFS stack and the index of its next successor.
#[derive(Clone, Copy)]
struct TarjanFrame {
    node: usize,
    next_succ: usize,
}

/// Mutable Tarjan SCC state shared across the iterative DFS.
struct TarjanState {
    index_counter: u32,
    indices: Vec<u32>,
    lowlinks: Vec<u32>,
    on_stack: fixedbitset::FixedBitSet,
    stack: Vec<usize>,
    sccs: Vec<Vec<usize>>,
}

impl TarjanState {
    /// The nodes discovered so far: those in a finished component, then those
    /// on the stack.
    spec fn seen(&self) -> Seq<usize> {
        flatten(self.sccs@) + self.stack@
    }

    spec fn discovered(&self, v: usize) -> bool {
        self.indices@[v as int] != u32::MAX
    }

    /// Bookkeeping that holds between all steps.
    spec fn inv(&self) -> bool {
        let n = self.indices@.len();
        &&& n < u32::MAX
        &&& self.lowlinks@.len() == n
        &&& bitset_len(self.on_stack) == n
        &&& forall|x: usize| #[trigger] bitset_members(self.on_stack).contains(x) <==> self.stack@.contains(x)
        &&& self.seen().no_duplicates()
        &&& forall|i: int| 0 <= i < self.seen().len() ==> (#[trigger] self.seen()[i]) < n
        &&& forall|v: usize| v < n ==> (self.discovered(v) <==> #[trigger] self.seen().contains(v))
        &&& self.index_counter == self.seen().len()
        &&& forall|v: usize|
            v < n && #[trigger] self.discovered(v) ==> self.lowlinks@[v as int] <= self.indices@[v as int]
                && self.indices@[v as int] < self.index_counter
        &&& forall|k: int| 0 <= k < self.sccs@.len() ==> (#[trigger] self.sccs@[k])@.len() > 0
    }

    /// Facts of the DFS tree rooted at the node with index `s0`: every node on
    /// the stack was discovered in it, and lowlinks inside it never drop
    /// below `s0`.
    spec fn tree_inv(&self, s0: u32) -> bool {
        &&& forall|i: int| 0 <= i < self.stack@.len() ==> self.indices@[#[trigger] self.stack@[i] as int] >= s0
        &&& forall|v: usize|
            v < self.indices@.len() && #[trigger] self.discovered(v) && self.indices@[v as int] >= s0
                ==> self.lowlinks@[v as int] >= s0
    }

    fn new(n: usize) -> (r: Self)
        requires
            n < u32::MAX,
        ensures
            r.inv(),
            r.indices@.len() == n,
            r.stack@.len() == 0,
            r.sccs@.len() == 0,
            r.index_counter == 0,
            forall|v: usize| v < n ==> !#[trigger] r.discovered(v),
    {
        let mut indices: Vec<u32> = Vec::new();
        let mut lowlinks: Vec<u32> = Vec::new();
        let mut i: usize = 0;
        while i < n
            invariant
                i <= n,
                indices@.len() == i,
                lowlinks@.len() == i,
                forall|j: int| 0 <= j < i ==> indices@[j] == u32::MAX,
            decreases n - i,
        {
            indices.push(u32::MAX);
            lowlinks.push(0);
            i = i + 1;
        }
        let r = TarjanState {
            index_counter: 0,
            indices,
            lowlinks,
            on_stack: bitset_with_capacity(n),
            stack: Vec::new(),
            sccs: Vec::new(),
        };
        assert(r.seen() =~= Seq::<usize>::empty());
        r
    }

    /// Assign the next DFS index to `node` and push it onto the SCC stack.
    fn discover(&mut self, node: usize)
        requires
            old(self).inv(),
            node < old(self).indices@.len(),
            !old(self).discovered(node),
        ensures
            final(self).inv(),
            final(self).indices@ == old(self).indices@.update(node as int, old(self).index_counter),
            final(self).lowlinks@ == old(self).lowlinks@.update(node as int, old(self).index_counter),
            final(self).index_counter == old(self).index_counter + 1,
            final(self).stack@ == old(self).stack@.push(node),
            final(self).sccs@ == old(self).sccs@,
    {
        let ghost n = self.indices@.len();
        proof {
            let s = self.seen().push(node);
            assert(!self.seen().contains(node));
            assert forall|i: int, j: int| 0 <= i < j < s.len() implies s[i] != s[j] by {
                if j == s.len() - 1 {
                    assert(self.seen()[i] == s[i]);
                }
            }
            lemma_distinct_below(s, n as usize);
        }
        let c = self.index_counter;
        self.indices.set(node, c);
        self.lowlinks.set(node, c);
        self.index_counter = c + 1;
        self.stack.push(node);
        bitset_insert(&mut self.on_stack, node);
        proof {
            assert(self.seen() =~= old(self).seen().push(node));
            assert forall|x: usize| #[trigger] bitset_members(self.on_stack).contains(x) <==> self.stack@.contains(x) by {
                if x != node {
                    assert(old(self).stack@.contains(x) ==> self.stack@.contains(x)) by {
                        if old(self).stack@.contains(x) {
                            let k = choose|k: int| 0 <= k < old(self).stack@.len() && old(self).stack@[k] == x;
                            assert(self.stack@[k] == x);
                        }
                    }
                    assert(self.stack@.contains(x) ==> old(self).stack@.contains(x)) by {
                        if self.stack@.contains(x) {
                            let k = choose|k: int| 0 <= k < self.stack@.len() && self.stack@[k] == x;
                            assert(k < old(self).stack@.len());
                            assert(old(self).stack@[k] == x);
                        }
                    }
                } else {
                    assert(self.stack@[self.stack@.len() - 1] == node);
                }
            }
            assert forall|v: usize| v < n implies (self.discovered(v) <==> #[trigger] self.seen().contains(v)) by {
                if v != node {
                    assert(old(self).seen().contains(v) ==> self.seen().contains(v)) by {
                        if old(self).seen().contains(v) {
                            let k = choose|k: int| 0 <= k < old(self).seen().len() && old(self).seen()[k] == v;
                            assert(self.seen()[k] == v);
                        }
                    }
                    assert(self.seen().contains(v) ==> old(self).seen().contains(v)) by {
                        if self.seen().contains(v) {
                            let k = choose|k: int| 0 <= k < self.seen().len() && self.seen()[k] == v;
                            assert(k < old(self).seen().len());
                            assert(old(self).seen()[k] == v);
                        }
                    }
                } else {
                    assert(self.seen()[self.seen().len() - 1] == node);
                }
            }
            assert forall|v: usize| v < n && #[trigger] self.discovered(v) implies self.lowlinks@[v as int]
                <= self.indices@[v as int] && self.indices@[v as int] < self.index_counter by {
                if v != node {
                    assert(old(self).discovered(v));
                }
            }
        }
    }

    /// Advance one successor of the current frame: a new successor is
    /// discovered and returned (the caller descends into it); one already on
    /// the stack lowers the frame's lowlink to its index.
    fn step_successor(&mut self, frame: &mut TarjanFrame, adj: &[Vec<usize>]) -> (r: Option<usize>)
        requires
            old(self).inv(),
            adjacency_within(old(self).indices@.len() as usize, adj@),
            old(frame).node < old(self).indices@.len(),
            old(frame).next_succ < adj@[old(frame).node as int]@.len(),
            old(self).discovered(old(frame).node),
        ensures
            final(self).inv(),
            final(frame).node == old(frame).node,
            final(frame).next_succ == old(frame).next_succ + 1,
            ({
                let v = old(frame).node;
                let w = adj@[v as int]@[old(frame).next_succ as int];
                if !old(self).discovered(w) {
                    &&& r == Some(w)
                    &&& final(self).indices@ == old(self).indices@.update(w as int, old(self).index_counter)
                    &&& final(self).lowlinks@ == old(self).lowlinks@.update(w as int, old(self).index_counter)
                    &&& final(self).index_counter == old(self).index_counter + 1
                    &&& final(self).stack@ == old(self).stack@.push(w)
                    &&& final(self).sccs@ == old(self).sccs@
                } else {
                    &&& r is None
                    &&& final(self).indices@ == old(self).indices@
                    &&& final(self).index_counter == old(self).index_counter
                    &&& final(self).stack@ == old(self).stack@
                    &&& final(self).sccs@ == old(self).sccs@
                    &&& final(self).lowlinks@ == if old(self).stack@.contains(w) && old(self).indices@[w as int]
                        < old(self).lowlinks@[v as int] {
                        old(self).lowlinks@.update(v as int, old(self).indices@[w as int])
                    } else {
                        old(self).lowlinks@
                    }
                }
            }),
    {
        let v = frame.node;
        let succs = &adj[v];
        let w = succs[frame.next_succ];
        assert(frame.next_succ < succs.len());
        frame.next_succ = frame.next_succ.saturating_add(1);
        if self.indices[w] == u32::MAX {
            self.discover(w);
            Some(w)
        } else {
            if bitset_contains(&self.on_stack, w) {
                let iw = self.indices[w];
                if iw < self.lowlinks[v] {
                    self.lowlinks.set(v, iw);
                }
            }
            proof {
                let n = self.indices@.len();
                assert forall|u: usize| u < n && #[trigger] self.discovered(u) implies self.lowlinks@[u as int]
                    <= self.indices@[u as int] && self.indices@[u as int] < self.index_counter by {
                    assert(old(self).discovered(u));
                }
            }
            None
        }
    }

    /// Finish the frame of `v`, which sits at position `p` of the stack: when
    /// `v` is the root of a component (lowlink equals index), pop the stack
    /// down to `v` into a new component; then lower the parent's lowlink to
    /// `v`'s.
    fn finish_frame(&mut self, v: usize, parent: Option<usize>, Ghost(p): Ghost<int>)
        requires
            old(self).inv(),
            v < old(self).indices@.len(),
            old(self).discovered(v),
            0 <= p < old(self).stack@.len(),
            old(self).stack@[p] == v,
            parent matches Some(pv) ==> pv < old(self).indices@.len() && old(self).discovered(pv),
        ensures
            final(self).inv(),
            final(self).indices@ == old(self).indices@,
            final(self).index_counter == old(self).index_counter,
            old(self).lowlinks@[v as int] == old(self).indices@[v as int] ==> final(self).stack@
                == old(self).stack@.subrange(0, p),
            old(self).lowlinks@[v as int] != old(self).indices@[v as int] ==> final(self).stack@
                == old(self).stack@ && final(self).sccs@ == old(self).sccs@,
            old(self).lowlinks@[v as int] == old(self).indices@[v as int] ==> {
                &&& final(self).sccs@.len() == old(self).sccs@.len() + 1
                &&& final(self).sccs@.drop_last() == old(self).sccs@
                &&& forall|x: usize|
                    #[trigger] final(self).sccs@.last()@.contains(x) <==> old(self).stack@.subrange(
                        p,
                        old(self).stack@.len() as int,
                    ).contains(x)
            },
            final(self).lowlinks@ == match parent {
                Some(pv) => if old(self).lowlinks@[v as int] < old(self).lowlinks@[pv as int] {
                    old(self).lowlinks@.update(pv as int, old(self).lowlinks@[v as int])
                } else {
                    old(self).lowlinks@
                },
                None => old(self).lowlinks@,
            },
    {
        let ghost n = self.indices@.len();
        if self.lowlinks[v] == self.indices[v] {
            let mut scc: Vec<usize> = Vec::new();
            let ghost f = flatten(self.sccs@);
            let ghost s0 = self.seen();
            loop
                invariant_except_break
                    self.stack@.len() > p,
                invariant
                    old(self).inv(),
                    s0 == old(self).seen(),
                    n == old(self).indices@.len(),
                    0 <= p < old(self).stack@.len(),
                    old(self).stack@[p] == v,
                    self.inv_fields_kept(old(self)),
                    self.sccs@ == old(self).sccs@,
                    f == flatten(self.sccs@),
                    self.stack@ == old(self).stack@.subrange(0, self.stack@.len() as int),
                    p <= self.stack@.len() <= old(self).stack@.len(),
                    forall|x: usize| #[trigger] bitset_members(self.on_stack).contains(x) <==> self.stack@.contains(x),
                    bitset_len(self.on_stack) == n,
                    (f + scc@ + self.stack@).no_duplicates(),
                    (f + scc@ + self.stack@).len() == s0.len(),
                    forall|x: usize| #[trigger] (f + scc@ + self.stack@).contains(x) <==> s0.contains(x),
                    self.stack@.len() < old(self).stack@.len() ==> scc@.len() > 0,
                    forall|x: usize|
                        #[trigger] scc@.contains(x) <==> old(self).stack@.subrange(
                            self.stack@.len() as int,
                            old(self).stack@.len() as int,
                        ).contains(x),
                ensures
                    self.stack@.len() == p,
                    scc@.len() > 0,
                decreases self.stack@.len(),
            {
                let ghost before = self.stack@;
                let ghost sc = scc@;
                match self.stack.pop() {
                    Some(w) => {
                        proof {
                            lemma_no_dup_split(f + sc, before);
                            assert(before == before.drop_last().push(w));
                            assert(w < n) by {
                                assert(s0.contains(w)) by {
                                    assert((f + sc + before)[(f + sc).len() + before.len() - 1] == w);
                                    assert((f + sc + before).contains(w));
                                }
                                let k = choose|k: int| 0 <= k < s0.len() && s0[k] == w;
                            }
                        }
                        bitset_remove(&mut self.on_stack, w);
                        scc.push(w);
                        proof {
                            let a = f + scc@;
                            let b = self.stack@;
                            assert(f + scc@ == (f + sc).push(w));
                            assert forall|i: int, j: int| 0 <= i < j < a.len() implies a[i] != a[j] by {
                                if j == a.len() - 1 {
                                    assert(a[i] == (f + sc)[i]);
                                    assert(before[before.len() - 1] == w);
                                }
                            }
                            assert forall|i: int, j: int| 0 <= i < a.len() && 0 <= j < b.len() implies a[i] != b[j] by {
                                assert(b[j] == before[j]);
                                if i == a.len() - 1 {
                                    assert(before[before.len() - 1] == w);
                                } else {
                                    assert(a[i] == (f + sc)[i]);
                                }
                            }
                            vstd::seq_lib::lemma_no_dup_in_concat(a, b);
                            assert(f + scc@ + self.stack@ =~= a + b);
                            assert forall|x: usize| #[trigger] (f + scc@ + self.stack@).contains(x) <==> s0.contains(x) by {
                                let old_all = f + sc + before;
                                let new_all = f + scc@ + self.stack@;
                                if new_all.contains(x) {
                                    let k = choose|k: int| 0 <= k < new_all.len() && new_all[k] == x;
                                    if k < (f + sc).len() {
                                        assert(old_all[k] == x);
                                    } else if k == (f + sc).len() {
                                        assert(old_all[old_all.len() - 1] == x);
                                    } else {
                                        assert(old_all[k - 1] == x);
                                    }
                                }
                                if old_all.contains(x) {
                                    let k = choose|k: int| 0 <= k < old_all.len() && old_all[k] == x;
                                    if k < (f + sc).len() {
                                        assert(new_all[k] == x);
                                    } else if k == old_all.len() - 1 {
                                        assert(new_all[(f + sc).len() as int] == x);
                                    } else {
                                        assert(new_all[k + 1] == x);
                                    }
                                }
                            }
                            assert forall|x: usize| #[trigger] bitset_members(self.on_stack).contains(x) <==> self.stack@.contains(x) by {
                                if self.stack@.contains(x) {
                                    let k = choose|k: int| 0 <= k < self.stack@.len() && self.stack@[k] == x;
                                    assert(before[k] == x);
                                    assert(x != w);
                                }
                                if before.contains(x) && x != w {
                                    let k = choose|k: int| 0 <= k < before.len() && before[k] == x;
                                    assert(k != before.len() - 1);
                                    assert(self.stack@[k] == x);
                                }
                            }
                            assert(self.stack@ =~= old(self).stack@.subrange(0, self.stack@.len() as int));
                            assert forall|x: usize|
                                #[trigger] scc@.contains(x) <==> old(self).stack@.subrange(
                                    self.stack@.len() as int,
                                    old(self).stack@.len() as int,
                                ).contains(x) by {
                                let nl = self.stack@.len() as int;
                                let ol = old(self).stack@.len() as int;
                                let tail_new = old(self).stack@.subrange(nl, ol);
                                let tail_old = old(self).stack@.subrange(nl + 1, ol);
                                assert(old(self).stack@[nl] == w);
                                assert(before.len() == nl + 1);
                                assert(sc.contains(x) <==> tail_old.contains(x));
                                if scc@.contains(x) {
                                    let k = choose|k: int| 0 <= k < scc@.len() && scc@[k] == x;
                                    if k < sc.len() {
                                        assert(sc[k] == x);
                                        assert(sc.contains(x));
                                        let m = choose|m: int| 0 <= m < tail_old.len() && tail_old[m] == x;
                                        assert(tail_new[m + 1] == x);
                                    } else {
                                        assert(tail_new[0] == x);
                                    }
                                }
                                if tail_new.contains(x) {
                                    let m = choose|m: int| 0 <= m < tail_new.len() && tail_new[m] == x;
                                    if m == 0 {
                                        assert(scc@[sc.len() as int] == x);
                                    } else {
                                        assert(tail_old[m - 1] == x);
                                        assert(tail_old.contains(x));
                                        let k = choose|k: int| 0 <= k < sc.len() && sc[k] == x;
                                        assert(scc@[k] == x);
                                    }
                                }
                            }
                            assert(before.len() > p);
                            assert(before[p] == old(self).stack@[p]);
                            assert(before[before.len() - 1] == w);
                            if self.stack@.len() != p {
                                assert(p < before.len() - 1);
                                assert(before[p] != before[before.len() - 1]) by {
                                    assert((f + sc + before)[(f + sc).len() + p] == before[p]);
                                    assert((f + sc + before)[(f + sc).len() + before.len() - 1] == before[before.len() - 1]);
                                }
                            }
                        }
                        if w == v {
                            break;
                        }
                    },
                    None => {
                        break;
                    },
                }
            }
            let ghost sc = scc@;
            self.sccs.push(scc);
            proof {
                assert(self.sccs@.drop_last() =~= old(self).sccs@);
                assert(self.sccs@.last()@ == sc);
                lemma_flatten_push(old(self).sccs@, scc);
                assert(self.seen() =~= f + sc + self.stack@);
                assert(self.stack@ =~= old(self).stack@.subrange(0, p));
                assert forall|v2: usize| v2 < n implies (self.discovered(v2) <==> #[trigger] self.seen().contains(v2)) by {
                    assert(old(self).discovered(v2) <==> s0.contains(v2));
                }
                assert forall|i: int| 0 <= i < self.seen().len() implies (#[trigger] self.seen()[i]) < n by {
                    let x = self.seen()[i];
                    assert(self.seen().contains(x));
                    let k = choose|k: int| 0 <= k < s0.len() && s0[k] == x;
                }
                assert forall|k: int| 0 <= k < self.sccs@.len() implies (#[trigger] self.sccs@[k])@.len() > 0 by {
                    if k < old(self).sccs@.len() {
                        assert(self.sccs@[k] == old(self).sccs@[k]);
                    }
                }
            }
        }
        if let Some(pv) = parent {
            let lv = self.lowlinks[v];
            if lv < self.lowlinks[pv] {
                self.lowlinks.set(pv, lv);
            }
        }
        proof {
            assert forall|u: usize| u < n && #[trigger] self.discovered(u) implies self.lowlinks@[u as int]
                <= self.indices@[u as int] && self.indices@[u as int] < self.index_counter by {
                assert(old(self).discovered(u));
            }
        }
    }

    /// Fields that popping the stack leaves alone.
    spec fn inv_fields_kept(&self, o: &Self) -> bool {
        &&& self.indices@ == o.indices@
        &&& self.lowlinks@ == o.lowlinks@
        &&& self.index_counter == o.index_counter
    }
}

/// Successors still to visit, over all frames of the DFS stack.
spec fn remaining(adj: Seq<Vec<usize>>, frames: Seq<TarjanFrame>) -> nat
    decreases frames.len(),
{
    if frames.len() == 0 {
        0
    } else {
        remaining(adj, frames.drop_last()) + (adj[frames.last().node as int]@.len() - frames.last().next_succ) as nat
    }
}

// ---------------------------------------------------------------------------
// Order of the components
// ---------------------------------------------------------------------------

/// Some component up to the `k`-th holds `w`.
pub open spec fn emitted_within(sccs: Seq<Vec<usize>>, k: int, w: usize) -> bool {
    exists|k2: int| 0 <= k2 <= k && #[trigger] sccs[k2]@.contains(w)
}

/// The components are in reverse topological order: every edge out of a
/// member of a component leads into that component or an earlier one.
pub open spec fn edges_point_back(sccs: Seq<Vec<usize>>, adj: Seq<Vec<usize>>) -> bool {
    forall|k: int, i: int, j: int|
        0 <= k < sccs.len() && 0 <= i < sccs[k]@.len() && 0 <= j < adj[sccs[k]@[i] as int]@.len()
            ==> emitted_within(sccs, k, #[trigger] adj[#[trigger] sccs[k]@[i] as int]@[j])
}

/// Successor `j` of `u` has been discovered, and when it is still on the
/// stack its index is at least `u`'s lowlink.
spec fn edge_ok(st: TarjanState, adj: Seq<Vec<usize>>, u: usize, j: int) -> bool {
    let w = adj[u as int]@[j];
    &&& w < st.indices@.len()
    &&& st.discovered(w)
    &&& st.stack@.contains(w) ==> st.lowlinks@[u as int] <= st.indices@[w as int]
}

/// Where the stack part above frame `i` ends.
spec fn next_pos(fpos: Seq<int>, i: int, end: int) -> int {
    if i + 1 < fpos.len() {
        fpos[i + 1]
    } else {
        end
    }
}

/// What the DFS keeps true for the order of the components: the examined
/// edges of the frames and of the finished nodes still on the stack are
/// [`edge_ok`]; a finished node's lowlink is at least that of the frame
/// below it; the stack is ordered by index; and the emitted components point
/// back.
#[verifier::opaque]
spec fn order_inv(st: TarjanState, adj: Seq<Vec<usize>>, frames: Seq<TarjanFrame>, fpos: Seq<int>) -> bool {
    &&& forall|i: int, j: int|
        0 <= i < frames.len() && 0 <= j < frames[i].next_succ ==> #[trigger] edge_ok(st, adj, frames[i].node, j)
    &&& forall|q: int, j: int|
        0 <= q < st.stack@.len() && !fpos.contains(q) && 0 <= j < adj[st.stack@[q] as int]@.len() ==> #[trigger] edge_ok(
            st,
            adj,
            st.stack@[q],
            j,
        )
    &&& forall|i: int, q: int|
        #![trigger frames[i], st.stack@[q]]
        0 <= i < frames.len() && fpos[i] < q < next_pos(fpos, i, st.stack@.len() as int) ==> st.lowlinks@[frames[i].node as int]
            <= st.lowlinks@[st.stack@[q] as int]
    &&& forall|a: int, b: int|
        0 <= a < b < st.stack@.len() ==> st.indices@[#[trigger] st.stack@[a] as int] < st.indices@[#[trigger] st.stack@[b] as int]
    &&& edges_point_back(st.sccs@, adj)
}

/// The frames sit on the stack at increasing positions `fpos`, the first at
/// the bottom.
spec fn frames_placed(st: TarjanState, adj: Seq<Vec<usize>>, frames: Seq<TarjanFrame>, fpos: Seq<int>) -> bool {
    &&& frames.len() == fpos.len()
    &&& frames.len() > 0 ==> fpos[0] == 0
    &&& forall|i: int|
        0 <= i < frames.len() ==> 0 <= #[trigger] fpos[i] < st.stack@.len() && st.stack@[fpos[i]] == frames[i].node
            && frames[i].node < st.indices@.len() && st.discovered(frames[i].node) && frames[i].next_succ
            <= adj[frames[i].node as int]@.len()
    &&& forall|i: int, j: int| 0 <= i < j < frames.len() ==> #[trigger] fpos[i] < #[trigger] fpos[j]
}

/// A node discovered in a finished component lies in one of them.
proof fn lemma_flatten_member_of(sccs: Seq<Vec<usize>>, w: usize)
    requires
        flatten(sccs).contains(w),
    ensures
        exists|k: int| 0 <= k < sccs.len() && #[trigger] sccs[k]@.contains(w),
    decreases sccs.len(),
{
    let p = sccs.drop_last();
    let i = choose|i: int| 0 <= i < flatten(sccs).len() && flatten(sccs)[i] == w;
    if i < flatten(p).len() {
        assert(flatten(p)[i] == w);
        lemma_flatten_member_of(p, w);
        let k = choose|k: int| 0 <= k < p.len() && #[trigger] p[k]@.contains(w);
        assert(sccs[k] == p[k]);
    } else {
        let last = sccs[sccs.len() - 1];
        assert(last@[i - flatten(p).len()] == w);
        assert(sccs[sccs.len() - 1]@.contains(w));
    }
}

/// `x` is on the stack at some position.
proof fn lemma_stack_position(st: TarjanState, x: usize) -> (q: int)
    requires
        st.stack@.contains(x),
    ensures
        0 <= q < st.stack@.len(),
        st.stack@[q] == x,
{
    choose|q: int| 0 <= q < st.stack@.len() && st.stack@[q] == x
}

/// Discovered nodes off the stack are in a finished component.
proof fn lemma_discovered_off_stack(st: TarjanState, w: usize)
    requires
        st.inv(),
        w < st.indices@.len(),
        st.discovered(w),
        !st.stack@.contains(w),
    ensures
        exists|k: int| 0 <= k < st.sccs@.len() && #[trigger] st.sccs@[k]@.contains(w),
{
    assert(st.seen().contains(w));
    let i = choose|i: int| 0 <= i < st.seen().len() && st.seen()[i] == w;
    if i >= flatten(st.sccs@).len() {
        assert(st.stack@[i - flatten(st.sccs@).len()] == w);
    }
    assert(flatten(st.sccs@)[i] == w);
    lemma_flatten_member_of(st.sccs@, w);
}

/// A node on the stack is a discovered node of the graph.
proof fn lemma_stack_node(st: TarjanState, q: int)
    requires
        st.inv(),
        0 <= q < st.stack@.len(),
    ensures
        st.stack@[q] < st.indices@.len(),
        st.discovered(st.stack@[q]),
        st.indices@[st.stack@[q] as int] < st.index_counter,
        st.lowlinks@[st.stack@[q] as int] <= st.indices@[st.stack@[q] as int],
{
    let k = flatten(st.sccs@).len() + q;
    assert(st.seen()[k] == st.stack@[q]);
    assert(st.seen()[k] < st.indices@.len());
    assert(st.seen().contains(st.stack@[q]));
}

/// Stack positions of distinct frames hold distinct nodes, and a frame node
/// sits only at its own position.
proof fn lemma_stack_distinct(st: TarjanState, a: int, b: int)
    requires
        st.inv(),
        0 <= a < st.stack@.len(),
        0 <= b < st.stack@.len(),
        a != b,
    ensures
        st.stack@[a] != st.stack@[b],
{
    let f = flatten(st.sccs@);
    assert(st.seen()[f.len() + a] == st.stack@[a]);
    assert(st.seen()[f.len() + b] == st.stack@[b]);
}

/// Descending into a newly discovered successor keeps the order invariant.
#[verifier::spinoff_prover]
#[verifier::rlimit(50)]
proof fn lemma_order_descend(
    st0: TarjanState,
    st1: TarjanState,
    adj: Seq<Vec<usize>>,
    frames0: Seq<TarjanFrame>,
    fpos0: Seq<int>,
    w: usize,
)
    requires
        st0.inv(),
        st1.inv(),
        order_inv(st0, adj, frames0, fpos0),
        frames_placed(st0, adj, frames0, fpos0),
        frames0.len() > 0,
        frames0.last().next_succ < adj[frames0.last().node as int]@.len(),
        w == adj[frames0.last().node as int]@[frames0.last().next_succ as int],
        w < st0.indices@.len(),
        !st0.discovered(w),
        st1.indices@ == st0.indices@.update(w as int, st0.index_counter),
        st1.lowlinks@ == st0.lowlinks@.update(w as int, st0.index_counter),
        st1.index_counter == st0.index_counter + 1,
        st1.stack@ == st0.stack@.push(w),
        st1.sccs@ == st0.sccs@,
    ensures
        order_inv(
            st1,
            adj,
            frames0.update(
                frames0.len() - 1,
                TarjanFrame { node: frames0.last().node, next_succ: (frames0.last().next_succ + 1) as usize },
            ).push(TarjanFrame { node: w, next_succ: 0 }),
            fpos0.push(st0.stack@.len() as int),
        ),
{
    reveal(order_inv);
    let top = frames0.len() - 1;
    let v = frames0[top].node;
    let frames1 = frames0.update(top, TarjanFrame { node: v, next_succ: (frames0[top].next_succ + 1) as usize }).push(
        TarjanFrame { node: w, next_succ: 0 },
    );
    let fpos1 = fpos0.push(st0.stack@.len() as int);
    let len0 = st0.stack@.len() as int;
    // An edge examined before still is.
    assert forall|u: usize, j: int|
        u < st0.indices@.len() && u != w && 0 <= j < adj[u as int]@.len() && edge_ok(st0, adj, u, j) implies edge_ok(
        st1,
        adj,
        u,
        j,
    ) by {
        let x = adj[u as int]@[j];
        assert(x != w);
        if st1.stack@.contains(x) {
            let q = lemma_stack_position(st1, x);
            assert(q < len0);
            assert(st0.stack@[q] == x);
        }
    }
    assert forall|i: int, j: int| 0 <= i < frames1.len() && 0 <= j < frames1[i].next_succ implies #[trigger] edge_ok(
        st1,
        adj,
        frames1[i].node,
        j,
    ) by {
        if i < top {
            assert(frames1[i] == frames0[i]);
            assert(edge_ok(st0, adj, frames0[i].node, j));
            assert(frames0[i].node != w);
        } else if i == top {
            if j < frames0[top].next_succ {
                assert(edge_ok(st0, adj, v, j));
                assert(v != w);
            } else {
                assert(st0.lowlinks@[v as int] <= st0.indices@[v as int] < st0.index_counter);
            }
        }
    }
    assert forall|q: int, j: int|
        0 <= q < st1.stack@.len() && !fpos1.contains(q) && 0 <= j < adj[st1.stack@[q] as int]@.len() implies #[trigger] edge_ok(
        st1,
        adj,
        st1.stack@[q],
        j,
    ) by {
        if q == len0 {
            assert(fpos1[fpos1.len() - 1] == q);
        } else {
            assert(st1.stack@[q] == st0.stack@[q]);
            if fpos0.contains(q) {
                let i = choose|i: int| 0 <= i < fpos0.len() && fpos0[i] == q;
                assert(fpos1[i] == q);
            }
            assert(edge_ok(st0, adj, st0.stack@[q], j));
            lemma_stack_node(st0, q);
            assert(st0.stack@[q] != w);
        }
    }
    assert forall|i: int, q: int|
        #![trigger frames1[i], st1.stack@[q]]
        0 <= i < frames1.len() && fpos1[i] < q < next_pos(fpos1, i, st1.stack@.len() as int) implies st1.lowlinks@[frames1[i].node as int]
        <= st1.lowlinks@[st1.stack@[q] as int] by {
        if i <= top {
            assert(next_pos(fpos1, i, st1.stack@.len() as int) == next_pos(fpos0, i, len0));
            assert(frames1[i].node == frames0[i].node);
            assert(st1.stack@[q] == st0.stack@[q]);
            assert(st0.lowlinks@[frames0[i].node as int] <= st0.lowlinks@[st0.stack@[q] as int]);
            assert(frames0[i].node != w);
            lemma_stack_node(st0, q);
            assert(st0.stack@[q] != w);
        }
    }
    assert forall|a: int, b: int| 0 <= a < b < st1.stack@.len() implies st1.indices@[#[trigger] st1.stack@[a] as int]
        < st1.indices@[#[trigger] st1.stack@[b] as int] by {
        lemma_stack_node(st0, a);
        assert(st1.stack@[a] == st0.stack@[a]);
        assert(st0.stack@[a] != w);
        if b < len0 {
            lemma_stack_node(st0, b);
            assert(st1.stack@[b] == st0.stack@[b]);
            assert(st0.stack@[b] != w);
            assert(st0.indices@[st0.stack@[a] as int] < st0.indices@[st0.stack@[b] as int]);
        } else {
            assert(st1.stack@[b] == w);
        }
    }
}

/// Examining an already discovered successor keeps the order invariant.
#[verifier::spinoff_prover]
#[verifier::rlimit(50)]
proof fn lemma_order_examine(
    st0: TarjanState,
    st1: TarjanState,
    adj: Seq<Vec<usize>>,
    frames0: Seq<TarjanFrame>,
    fpos0: Seq<int>,
    w: usize,
)
    requires
        st0.inv(),
        order_inv(st0, adj, frames0, fpos0),
        frames_placed(st0, adj, frames0, fpos0),
        frames0.len() > 0,
        frames0.last().next_succ < adj[frames0.last().node as int]@.len(),
        w == adj[frames0.last().node as int]@[frames0.last().next_succ as int],
        w < st0.indices@.len(),
        st0.discovered(w),
        st1.indices@ == st0.indices@,
        st1.stack@ == st0.stack@,
        st1.sccs@ == st0.sccs@,
        st1.lowlinks@ == if st0.stack@.contains(w) && st0.indices@[w as int] < st0.lowlinks@[frames0.last().node as int] {
            st0.lowlinks@.update(frames0.last().node as int, st0.indices@[w as int])
        } else {
            st0.lowlinks@
        },
    ensures
        order_inv(
            st1,
            adj,
            frames0.update(
                frames0.len() - 1,
                TarjanFrame { node: frames0.last().node, next_succ: (frames0.last().next_succ + 1) as usize },
            ),
            fpos0,
        ),
{
    reveal(order_inv);
    let top = frames0.len() - 1;
    let v = frames0[top].node;
    let frames1 = frames0.update(top, TarjanFrame { node: v, next_succ: (frames0[top].next_succ + 1) as usize });
    assert(v < st0.indices@.len());
    assert forall|i: int, j: int| 0 <= i < frames1.len() && 0 <= j < frames1[i].next_succ implies #[trigger] edge_ok(
        st1,
        adj,
        frames1[i].node,
        j,
    ) by {
        let u = frames0[i].node;
        assert(frames1[i].node == u);
        assert(u < st0.indices@.len());
        assert(st1.lowlinks@[u as int] <= st0.lowlinks@[u as int]);
        if i < top || j < frames0[top].next_succ {
            assert(edge_ok(st0, adj, u, j));
        }
    }
    assert forall|q: int, j: int|
        0 <= q < st1.stack@.len() && !fpos0.contains(q) && 0 <= j < adj[st1.stack@[q] as int]@.len() implies #[trigger] edge_ok(
        st1,
        adj,
        st1.stack@[q],
        j,
    ) by {
        let u = st0.stack@[q];
        lemma_stack_node(st0, q);
        assert(st1.lowlinks@[u as int] <= st0.lowlinks@[u as int]);
        assert(edge_ok(st0, adj, u, j));
    }
    assert forall|i: int, q: int|
        #![trigger frames1[i], st1.stack@[q]]
        0 <= i < frames1.len() && fpos0[i] < q < next_pos(fpos0, i, st1.stack@.len() as int) implies st1.lowlinks@[frames1[i].node as int]
        <= st1.lowlinks@[st1.stack@[q] as int] by {
        let u = st0.stack@[q];
        let f = frames0[i].node;
        assert(frames1[i].node == f);
        assert(f < st0.indices@.len());
        assert(st0.lowlinks@[f as int] <= st0.lowlinks@[u as int]);
        assert(u != v) by {
            assert(st0.stack@[fpos0[top]] == v);
            if i < top {
                assert(fpos0[i + 1] <= fpos0[top]);
            }
            lemma_stack_distinct(st0, q, fpos0[top]);
        }
        lemma_stack_node(st0, q);
        assert(st1.lowlinks@[u as int] == st0.lowlinks@[u as int]);
        assert(st1.lowlinks@[f as int] <= st0.lowlinks@[f as int]);
    }
}

/// The lowlink of the finished frame's parent after finishing it.
spec fn parent_lowlinks(lowlinks: Seq<u32>, v: usize, parent: Option<usize>) -> Seq<u32> {
    match parent {
        Some(pv) => if lowlinks[v as int] < lowlinks[pv as int] {
            lowlinks.update(pv as int, lowlinks[v as int])
        } else {
            lowlinks
        },
        None => lowlinks,
    }
}

/// The parent of the top frame, if any.
spec fn parent_of(frames: Seq<TarjanFrame>) -> Option<usize> {
    if frames.len() > 1 {
        Some(frames[frames.len() - 2].node)
    } else {
        None
    }
}

/// Finishing a frame that is not the root of a component keeps the order
/// invariant: its node stays on the stack as a finished node.
#[verifier::spinoff_prover]
#[verifier::rlimit(50)]
proof fn lemma_order_finish_inner(
    st0: TarjanState,
    st1: TarjanState,
    adj: Seq<Vec<usize>>,
    frames0: Seq<TarjanFrame>,
    fpos0: Seq<int>,
)
    requires
        st0.inv(),
        order_inv(st0, adj, frames0, fpos0),
        frames_placed(st0, adj, frames0, fpos0),
        frames0.len() > 0,
        frames0.last().next_succ == adj[frames0.last().node as int]@.len(),
        st0.lowlinks@[frames0.last().node as int] != st0.indices@[frames0.last().node as int],
        st1.indices@ == st0.indices@,
        st1.stack@ == st0.stack@,
        st1.sccs@ == st0.sccs@,
        st1.lowlinks@ == parent_lowlinks(st0.lowlinks@, frames0.last().node, parent_of(frames0)),
    ensures
        order_inv(st1, adj, frames0.drop_last(), fpos0.drop_last()),
{
    reveal(order_inv);
    let top = frames0.len() - 1;
    let v = frames0[top].node;
    let p = fpos0[top];
    let frames1 = frames0.drop_last();
    let fpos1 = fpos0.drop_last();
    assert forall|u: usize| u < st0.indices@.len() implies #[trigger] st1.lowlinks@[u as int] <= st0.lowlinks@[u as int] by {}
    assert forall|i: int, j: int| 0 <= i < frames1.len() && 0 <= j < frames1[i].next_succ implies #[trigger] edge_ok(
        st1,
        adj,
        frames1[i].node,
        j,
    ) by {
        assert(frames1[i] == frames0[i]);
        assert(edge_ok(st0, adj, frames0[i].node, j));
        assert(st1.lowlinks@[frames0[i].node as int] <= st0.lowlinks@[frames0[i].node as int]);
    }
    assert forall|q: int, j: int|
        0 <= q < st1.stack@.len() && !fpos1.contains(q) && 0 <= j < adj[st1.stack@[q] as int]@.len() implies #[trigger] edge_ok(
        st1,
        adj,
        st1.stack@[q],
        j,
    ) by {
        lemma_stack_node(st0, q);
        if q == p {
            assert(st0.stack@[q] == v);
            assert(edge_ok(st0, adj, frames0[top].node, j));
        } else {
            if fpos0.contains(q) {
                let i = choose|i: int| 0 <= i < fpos0.len() && fpos0[i] == q;
                assert(i != top);
                assert(fpos1[i] == q);
            }
            assert(edge_ok(st0, adj, st0.stack@[q], j));
        }
        assert(st1.lowlinks@[st0.stack@[q] as int] <= st0.lowlinks@[st0.stack@[q] as int]);
    }
    assert forall|i: int, q: int|
        #![trigger frames1[i], st1.stack@[q]]
        0 <= i < frames1.len() && fpos1[i] < q < next_pos(fpos1, i, st1.stack@.len() as int) implies st1.lowlinks@[frames1[i].node as int]
        <= st1.lowlinks@[st1.stack@[q] as int] by {
        let u = st0.stack@[q];
        lemma_stack_node(st0, q);
        assert(frames1[i] == frames0[i]);
        assert(frames0[i].node < st0.indices@.len());
        assert(st1.lowlinks@[frames0[i].node as int] <= st0.lowlinks@[frames0[i].node as int]);
        // `u` is not the parent frame's node (a frame position).
        assert(u != frames0[top - 1].node) by {
            assert(st0.stack@[fpos0[top - 1]] == frames0[top - 1].node);
            if i < top - 1 {
                assert(fpos0[i + 1] <= fpos0[top - 1]);
            }
            lemma_stack_distinct(st0, q, fpos0[top - 1]);
        }
        assert(st1.lowlinks@[u as int] == st0.lowlinks@[u as int]);
        if i < top - 1 {
            assert(next_pos(fpos1, i, st1.stack@.len() as int) == next_pos(fpos0, i, st0.stack@.len() as int));
            assert(st0.lowlinks@[frames0[i].node as int] <= st0.lowlinks@[u as int]);
        } else {
            // The parent's range now runs to the top of the stack.
            assert(i == top - 1);
            let pv = frames0[top - 1].node;
            assert(parent_of(frames0) == Some(pv));
            assert(st1.lowlinks@[pv as int] <= st0.lowlinks@[v as int]);
            if q < p {
                assert(next_pos(fpos0, i, st0.stack@.len() as int) == p);
                assert(st0.lowlinks@[pv as int] <= st0.lowlinks@[u as int]);
            } else if q == p {
                assert(u == v);
            } else {
                assert(st0.lowlinks@[frames0[top].node as int] <= st0.lowlinks@[st0.stack@[q] as int]);
            }
        }
    }
}

/// Finishing the root of a component keeps the order invariant: every edge
/// out of the new component leads into it or into an earlier one.
#[verifier::spinoff_prover]
#[verifier::rlimit(50)]
proof fn lemma_order_finish_root(
    st0: TarjanState,
    st1: TarjanState,
    adj: Seq<Vec<usize>>,
    frames0: Seq<TarjanFrame>,
    fpos0: Seq<int>,
)
    requires
        st0.inv(),
        adjacency_within(st0.indices@.len() as usize, adj),
        order_inv(st0, adj, frames0, fpos0),
        frames_placed(st0, adj, frames0, fpos0),
        frames0.len() > 0,
        frames0.last().next_succ == adj[frames0.last().node as int]@.len(),
        st0.lowlinks@[frames0.last().node as int] == st0.indices@[frames0.last().node as int],
        st1.indices@ == st0.indices@,
        st1.stack@ == st0.stack@.subrange(0, fpos0.last()),
        st1.sccs@.len() == st0.sccs@.len() + 1,
        st1.sccs@.drop_last() == st0.sccs@,
        forall|x: usize|
            #[trigger] st1.sccs@.last()@.contains(x) <==> st0.stack@.subrange(
                fpos0.last(),
                st0.stack@.len() as int,
            ).contains(x),
        st1.lowlinks@ == parent_lowlinks(st0.lowlinks@, frames0.last().node, parent_of(frames0)),
    ensures
        order_inv(st1, adj, frames0.drop_last(), fpos0.drop_last()),
{
    reveal(order_inv);
    let top = frames0.len() - 1;
    let v = frames0[top].node;
    let p = fpos0[top];
    let frames1 = frames0.drop_last();
    let fpos1 = fpos0.drop_last();
    let n = st0.indices@.len();
    let k = st0.sccs@.len() as int;
    let c = st1.sccs@[k];
    let tail = st0.stack@.subrange(p, st0.stack@.len() as int);
    assert forall|u: usize| u < n implies #[trigger] st1.lowlinks@[u as int] <= st0.lowlinks@[u as int] by {}
    // Edges examined from nodes still on the stack stay fine.
    assert forall|u: usize, j: int|
        u < n && 0 <= j < adj[u as int]@.len() && edge_ok(st0, adj, u, j) implies edge_ok(st1, adj, u, j) by {
        let x = adj[u as int]@[j];
        if st1.stack@.contains(x) {
            let q = lemma_stack_position(st1, x);
            assert(st0.stack@[q] == x);
        }
        assert(st1.lowlinks@[u as int] <= st0.lowlinks@[u as int]);
    }
    assert forall|i: int, j: int| 0 <= i < frames1.len() && 0 <= j < frames1[i].next_succ implies #[trigger] edge_ok(
        st1,
        adj,
        frames1[i].node,
        j,
    ) by {
        assert(frames1[i] == frames0[i]);
        assert(edge_ok(st0, adj, frames0[i].node, j));
    }
    assert forall|q: int, j: int|
        0 <= q < st1.stack@.len() && !fpos1.contains(q) && 0 <= j < adj[st1.stack@[q] as int]@.len() implies #[trigger] edge_ok(
        st1,
        adj,
        st1.stack@[q],
        j,
    ) by {
        lemma_stack_node(st0, q);
        assert(st1.stack@[q] == st0.stack@[q]);
        if fpos0.contains(q) {
            let i = choose|i: int| 0 <= i < fpos0.len() && fpos0[i] == q;
            assert(i != top);
            assert(fpos1[i] == q);
        }
        assert(edge_ok(st0, adj, st0.stack@[q], j));
    }
    assert forall|i: int, q: int|
        #![trigger frames1[i], st1.stack@[q]]
        0 <= i < frames1.len() && fpos1[i] < q < next_pos(fpos1, i, st1.stack@.len() as int) implies st1.lowlinks@[frames1[i].node as int]
        <= st1.lowlinks@[st1.stack@[q] as int] by {
        lemma_stack_node(st0, q);
        assert(frames1[i] == frames0[i]);
        assert(frames0[i].node < n);
        assert(st1.stack@[q] == st0.stack@[q]);
        assert(next_pos(fpos1, i, st1.stack@.len() as int) == next_pos(fpos0, i, st0.stack@.len() as int));
        assert(st0.lowlinks@[frames0[i].node as int] <= st0.lowlinks@[st0.stack@[q] as int]);
        assert(st0.stack@[q] != frames0[top - 1].node) by {
            assert(st0.stack@[fpos0[top - 1]] == frames0[top - 1].node);
            if i < top - 1 {
                assert(fpos0[i + 1] <= fpos0[top - 1]);
            }
            lemma_stack_distinct(st0, q, fpos0[top - 1]);
        }
    }
    assert forall|a: int, b: int| 0 <= a < b < st1.stack@.len() implies st1.indices@[#[trigger] st1.stack@[a] as int]
        < st1.indices@[#[trigger] st1.stack@[b] as int] by {
        assert(st1.stack@[a] == st0.stack@[a]);
        assert(st1.stack@[b] == st0.stack@[b]);
    }
    // The new component points back.
    assert forall|kk: int, i: int, j: int|
        0 <= kk < st1.sccs@.len() && 0 <= i < st1.sccs@[kk]@.len() && 0 <= j < adj[st1.sccs@[kk]@[i] as int]@.len()
            implies emitted_within(st1.sccs@, kk, #[trigger] adj[#[trigger] st1.sccs@[kk]@[i] as int]@[j]) by {
        let x = st1.sccs@[kk]@[i];
        let w = adj[x as int]@[j];
        if kk < k {
            assert(st1.sccs@[kk] == st0.sccs@[kk]);
            assert(emitted_within(st0.sccs@, kk, w));
            let k2 = choose|k2: int| 0 <= k2 <= kk && #[trigger] st0.sccs@[k2]@.contains(w);
            assert(st1.sccs@[k2] == st0.sccs@[k2]);
        } else {
            assert(c@.contains(x));
            assert(st1.sccs@.last() == c);
            assert(st1.sccs@.last()@.contains(x));
            assert(tail.contains(x));
            let m = choose|m: int| 0 <= m < tail.len() && tail[m] == x;
            let q = p + m;
            assert(st0.stack@[q] == x);
            lemma_stack_node(st0, q);
            // Every edge of `x` was examined, and `x`'s lowlink is at least `v`'s.
            if q == p {
                assert(x == v);
                assert(edge_ok(st0, adj, frames0[top].node, j));
            } else {
                assert(!fpos0.contains(q)) by {
                    if fpos0.contains(q) {
                        let i2 = choose|i2: int| 0 <= i2 < fpos0.len() && fpos0[i2] == q;
                        if i2 < top {
                            assert(fpos0[i2] < fpos0[top]);
                        }
                    }
                }
                assert(edge_ok(st0, adj, st0.stack@[q], j));
                assert(next_pos(fpos0, top, st0.stack@.len() as int) == st0.stack@.len());
                assert(st0.lowlinks@[frames0[top].node as int] <= st0.lowlinks@[st0.stack@[q] as int]);
            }
            assert(st0.lowlinks@[v as int] <= st0.lowlinks@[x as int]);
            if st0.stack@.contains(w) {
                let r = lemma_stack_position(st0, w);
                if r < p {
                    assert(st0.stack@[p] == v);
                    assert(st0.indices@[st0.stack@[r] as int] < st0.indices@[st0.stack@[p] as int]);
                    assert(false);
                } else {
                    assert(tail[r - p] == w);
                    assert(tail.contains(w));
                    assert(st1.sccs@.last()@.contains(w));
                    assert(st1.sccs@[k]@.contains(w));
                }
            } else {
                lemma_discovered_off_stack(st0, w);
                let k2 = choose|k2: int| 0 <= k2 < st0.sccs@.len() && #[trigger] st0.sccs@[k2]@.contains(w);
                assert(st1.sccs@[k2] == st0.sccs@[k2]);
            }
        }
    }
}

// ---------------------------------------------------------------------------
// Cycles lie within one component
// ---------------------------------------------------------------------------

/// `path` follows edges: every node but the last is followed by one of its
/// successors.
pub open spec fn is_walk(adj: Seq<Vec<usize>>, path: Seq<usize>) -> bool {
    forall|i: int| 0 <= i < path.len() - 1 ==> adj[path[i] as int]@.contains(#[trigger] path[i + 1])
}

/// Where component `k` starts in the concatenation.
spec fn offset(sccs: Seq<Vec<usize>>, k: int) -> int {
    flatten(sccs.subrange(0, k)).len() as int
}

proof fn lemma_flatten_prefix(sccs: Seq<Vec<usize>>, m: int)
    requires
        0 <= m <= sccs.len(),
    ensures
        flatten(sccs.subrange(0, m)).len() <= flatten(sccs).len(),
        forall|j: int|
            0 <= j < flatten(sccs.subrange(0, m)).len() ==> #[trigger] flatten(sccs)[j] == flatten(sccs.subrange(0, m))[j],
    decreases sccs.len() - m,
{
    if m == sccs.len() {
        assert(sccs.subrange(0, m) =~= sccs);
    } else {
        lemma_flatten_prefix(sccs, m + 1);
        assert(sccs.subrange(0, m + 1).drop_last() =~= sccs.subrange(0, m));
    }
}

/// Member `i` of component `k` sits at `offset(k) + i` of the
/// concatenation, and component `k + 1` starts after component `k` ends.
proof fn lemma_flatten_at(sccs: Seq<Vec<usize>>, k: int, i: int)
    requires
        0 <= k < sccs.len(),
        0 <= i < sccs[k]@.len(),
    ensures
        offset(sccs, k) + i < flatten(sccs).len(),
        flatten(sccs)[offset(sccs, k) + i] == sccs[k]@[i],
        offset(sccs, k + 1) == offset(sccs, k) + sccs[k]@.len(),
{
    assert(sccs.subrange(0, k + 1).drop_last() =~= sccs.subrange(0, k));
    assert(sccs.subrange(0, k + 1).last() == sccs[k]);
    lemma_flatten_prefix(sccs, k + 1);
    assert(flatten(sccs.subrange(0, k + 1))[offset(sccs, k) + i] == sccs[k]@[i]);
}

proof fn lemma_offset_mono(sccs: Seq<Vec<usize>>, a: int, b: int)
    requires
        0 <= a <= b <= sccs.len(),
    ensures
        offset(sccs, a) <= offset(sccs, b),
    decreases b - a,
{
    if a < b {
        lemma_offset_mono(sccs, a, b - 1);
        assert(sccs.subrange(0, b).drop_last() =~= sccs.subrange(0, b - 1));
    }
}

/// In a partition, a node lies in one component only.
pub proof fn lemma_component_unique(sccs: Seq<Vec<usize>>, n: usize, x: usize, k1: int, k2: int)
    requires
        partitions_nodes(sccs, n),
        0 <= k1 < sccs.len(),
        0 <= k2 < sccs.len(),
        sccs[k1]@.contains(x),
        sccs[k2]@.contains(x),
    ensures
        k1 == k2,
{
    if k1 != k2 {
        let (a, b) = if k1 < k2 {
            (k1, k2)
        } else {
            (k2, k1)
        };
        let i = choose|i: int| 0 <= i < sccs[a]@.len() && sccs[a]@[i] == x;
        let j = choose|j: int| 0 <= j < sccs[b]@.len() && sccs[b]@[j] == x;
        lemma_flatten_at(sccs, a, i);
        lemma_flatten_at(sccs, b, j);
        lemma_offset_mono(sccs, a + 1, b);
        assert(flatten(sccs)[offset(sccs, a) + i] == flatten(sccs)[offset(sccs, b) + j]);
    }
}

/// The component that holds node `x`.
pub open spec fn component_of(sccs: Seq<Vec<usize>>, x: usize) -> int {
    choose|k: int| 0 <= k < sccs.len() && #[trigger] sccs[k]@.contains(x)
}

proof fn lemma_component_of(sccs: Seq<Vec<usize>>, n: usize, x: usize)
    requires
        partitions_nodes(sccs, n),
        x < n,
    ensures
        0 <= component_of(sccs, x) < sccs.len(),
        sccs[component_of(sccs, x)]@.contains(x),
{
    lemma_flatten_member_of(sccs, x);
}

/// Along a walk the component never moves later.
proof fn lemma_walk_points_back(sccs: Seq<Vec<usize>>, adj: Seq<Vec<usize>>, n: usize, path: Seq<usize>)
    requires
        partitions_nodes(sccs, n),
        edges_point_back(sccs, adj),
        adjacency_within(n, adj),
        path.len() > 0,
        path[0] < n,
        is_walk(adj, path),
    ensures
        path.last() < n,
        component_of(sccs, path.last()) <= component_of(sccs, path[0]),
    decreases path.len(),
{
    if path.len() > 1 {
        let p = path.drop_last();
        assert forall|i: int| 0 <= i < p.len() - 1 implies adj[p[i] as int]@.contains(#[trigger] p[i + 1]) by {
            assert(path[i + 1] == p[i + 1]);
        }
        lemma_walk_points_back(sccs, adj, n, p);
        let x = p.last();
        let w = path.last();
        let last = path.len() - 2;
        assert(path[last] == x);
        assert(adj[path[last] as int]@.contains(path[last + 1]));
        assert(path[last + 1] == w);
        let j = choose|j: int| 0 <= j < adj[x as int]@.len() && adj[x as int]@[j] == w;
        assert(w < n);
        lemma_component_of(sccs, n, x);
        lemma_component_of(sccs, n, w);
        let kx = component_of(sccs, x);
        let i = choose|i: int| 0 <= i < sccs[kx]@.len() && sccs[kx]@[i] == x;
        assert(emitted_within(sccs, kx, adj[sccs[kx]@[i] as int]@[j]));
        let k2 = choose|k2: int| 0 <= k2 <= kx && #[trigger] sccs[k2]@.contains(w);
        lemma_component_unique(sccs, n, w, k2, component_of(sccs, w));
    }
}

/// A walk leads from `a` to `b`.
pub open spec fn reaches(adj: Seq<Vec<usize>>, a: usize, b: usize) -> bool {
    exists|path: Seq<usize>| #[trigger] is_walk(adj, path) && path.len() > 0 && path[0] == a && path.last() == b
}

/// Every node reaches itself.
pub proof fn lemma_reaches_refl(adj: Seq<Vec<usize>>, a: usize)
    ensures
        reaches(adj, a, a),
{
    let p = seq![a];
    assert(is_walk(adj, p));
}

/// A node reaches each of its successors.
pub proof fn lemma_reaches_edge(adj: Seq<Vec<usize>>, a: usize, b: usize)
    requires
        adj[a as int]@.contains(b),
    ensures
        reaches(adj, a, b),
{
    let p = seq![a, b];
    assert forall|i: int| 0 <= i < p.len() - 1 implies adj[p[i] as int]@.contains(#[trigger] p[i + 1]) by {
        assert(i == 0);
    }
    assert(is_walk(adj, p));
}

/// Reachability is transitive.
pub proof fn lemma_reaches_trans(adj: Seq<Vec<usize>>, a: usize, b: usize, c: usize)
    requires
        reaches(adj, a, b),
        reaches(adj, b, c),
    ensures
        reaches(adj, a, c),
{
    let p1 = choose|path: Seq<usize>| #[trigger] is_walk(adj, path) && path.len() > 0 && path[0] == a && path.last() == b;
    let p2 = choose|path: Seq<usize>| #[trigger] is_walk(adj, path) && path.len() > 0 && path[0] == b && path.last() == c;
    let p = p1 + p2.drop_first();
    assert forall|i: int| 0 <= i < p.len() - 1 implies adj[p[i] as int]@.contains(#[trigger] p[i + 1]) by {
        if i < p1.len() - 1 {
            assert(p[i] == p1[i] && p[i + 1] == p1[i + 1]);
        } else if i == p1.len() - 1 {
            assert(p[i] == p2[0]);
            assert(p[i + 1] == p2[1]);
            assert(adj[p2[0] as int]@.contains(p2[0int + 1]));
        } else {
            let m = i - p1.len() + 1;
            assert(p[i] == p2[m] && p[i + 1] == p2[m + 1]);
        }
    }
    if p2.len() == 1 {
        assert(p =~= p1);
    }
    assert(is_walk(adj, p));
}

/// Every two members of a component reach each other.
pub open spec fn components_connected(sccs: Seq<Vec<usize>>, adj: Seq<Vec<usize>>) -> bool {
    forall|k: int, a: usize, b: usize|
        0 <= k < sccs.len() && #[trigger] sccs[k]@.contains(a) && #[trigger] sccs[k]@.contains(b) ==> reaches(adj, a, b)
}

/// Along a walk of reachability the component never moves later.
proof fn lemma_reaches_points_back(sccs: Seq<Vec<usize>>, adj: Seq<Vec<usize>>, n: usize, a: usize, b: usize)
    requires
        partitions_nodes(sccs, n),
        edges_point_back(sccs, adj),
        adjacency_within(n, adj),
        a < n,
        reaches(adj, a, b),
    ensures
        b < n,
        component_of(sccs, b) <= component_of(sccs, a),
{
    let p = choose|path: Seq<usize>| #[trigger] is_walk(adj, path) && path.len() > 0 && path[0] == a && path.last() == b;
    lemma_walk_points_back(sccs, adj, n, p);
}

/// The components are exactly the strongly connected components: two nodes
/// share a component if and only if each reaches the other.
pub proof fn lemma_components_are_sccs(sccs: Seq<Vec<usize>>, adj: Seq<Vec<usize>>, n: usize, a: usize, b: usize)
    requires
        partitions_nodes(sccs, n),
        edges_point_back(sccs, adj),
        components_connected(sccs, adj),
        adjacency_within(n, adj),
        a < n,
        b < n,
    ensures
        (exists|k: int| 0 <= k < sccs.len() && #[trigger] sccs[k]@.contains(a) && sccs[k]@.contains(b)) <==> (reaches(
            adj,
            a,
            b,
        ) && reaches(adj, b, a)),
{
    if reaches(adj, a, b) && reaches(adj, b, a) {
        lemma_reaches_points_back(sccs, adj, n, a, b);
        lemma_reaches_points_back(sccs, adj, n, b, a);
        lemma_component_of(sccs, n, a);
        lemma_component_of(sccs, n, b);
        let k = component_of(sccs, a);
        assert(sccs[k]@.contains(a) && sccs[k]@.contains(b));
    }
    if exists|k: int| 0 <= k < sccs.len() && #[trigger] sccs[k]@.contains(a) && sccs[k]@.contains(b) {
        let k = choose|k: int| 0 <= k < sccs.len() && #[trigger] sccs[k]@.contains(a) && sccs[k]@.contains(b);
        assert(reaches(adj, a, b));
        assert(reaches(adj, b, a));
    }
}

// ---------------------------------------------------------------------------
// Components are strongly connected
// ---------------------------------------------------------------------------

/// Stack position `r` holds a node whose index is the lowlink of the node
/// at position `q`, and which that node reaches.
spec fn low_witness(st: TarjanState, adj: Seq<Vec<usize>>, q: int, r: int) -> bool {
    &&& 0 <= r < st.stack@.len()
    &&& st.indices@[st.stack@[r] as int] == st.lowlinks@[st.stack@[q] as int]
    &&& reaches(adj, st.stack@[q], st.stack@[r])
}

spec fn has_low_witness(st: TarjanState, adj: Seq<Vec<usize>>, q: int) -> bool {
    exists|r: int| #[trigger] low_witness(st, adj, q, r)
}

/// What the DFS keeps true for reachability: each frame's node is a
/// successor of the frame below; a frame reaches every node of its part of
/// the stack; every node on the stack reaches a node on the stack whose
/// index is its lowlink; finished nodes on the stack are not roots; and the
/// emitted components are strongly connected.
#[verifier::opaque]
spec fn reach_inv(st: TarjanState, adj: Seq<Vec<usize>>, frames: Seq<TarjanFrame>, fpos: Seq<int>) -> bool {
    &&& forall|i: int| 0 < i < frames.len() ==> adj[frames[i - 1].node as int]@.contains(#[trigger] frames[i].node)
    &&& forall|i: int, q: int|
        #![trigger frames[i], st.stack@[q]]
        0 <= i < frames.len() && fpos[i] <= q < next_pos(fpos, i, st.stack@.len() as int) ==> reaches(
            adj,
            frames[i].node,
            st.stack@[q],
        )
    &&& forall|q: int| 0 <= q < st.stack@.len() ==> #[trigger] has_low_witness(st, adj, q)
    &&& forall|q: int|
        0 <= q < st.stack@.len() && !fpos.contains(q) ==> st.lowlinks@[#[trigger] st.stack@[q] as int]
            < st.indices@[st.stack@[q] as int]
    &&& components_connected(st.sccs@, adj)
}

/// Descending into a newly discovered successor keeps the reach invariant.
#[verifier::spinoff_prover]
#[verifier::rlimit(50)]
proof fn lemma_reach_descend(
    st0: TarjanState,
    st1: TarjanState,
    adj: Seq<Vec<usize>>,
    frames0: Seq<TarjanFrame>,
    fpos0: Seq<int>,
    w: usize,
)
    requires
        st0.inv(),
        reach_inv(st0, adj, frames0, fpos0),
        frames_placed(st0, adj, frames0, fpos0),
        frames0.len() > 0,
        frames0.last().next_succ < adj[frames0.last().node as int]@.len(),
        w == adj[frames0.last().node as int]@[frames0.last().next_succ as int],
        w < st0.indices@.len(),
        !st0.discovered(w),
        st1.indices@ == st0.indices@.update(w as int, st0.index_counter),
        st1.lowlinks@ == st0.lowlinks@.update(w as int, st0.index_counter),
        st1.stack@ == st0.stack@.push(w),
        st1.sccs@ == st0.sccs@,
    ensures
        reach_inv(
            st1,
            adj,
            frames0.update(
                frames0.len() - 1,
                TarjanFrame { node: frames0.last().node, next_succ: (frames0.last().next_succ + 1) as usize },
            ).push(TarjanFrame { node: w, next_succ: 0 }),
            fpos0.push(st0.stack@.len() as int),
        ),
{
    reveal(reach_inv);
    let top = frames0.len() - 1;
    let v = frames0[top].node;
    let frames1 = frames0.update(top, TarjanFrame { node: v, next_succ: (frames0[top].next_succ + 1) as usize }).push(
        TarjanFrame { node: w, next_succ: 0 },
    );
    let fpos1 = fpos0.push(st0.stack@.len() as int);
    let len0 = st0.stack@.len() as int;
    assert forall|i: int| 0 < i < frames1.len() implies adj[frames1[i - 1].node as int]@.contains(#[trigger] frames1[i].node) by {
        if i == frames1.len() - 1 {
            assert(frames1[i - 1].node == v);
            assert(adj[v as int]@[frames0[top].next_succ as int] == w);
        } else {
            assert(frames1[i].node == frames0[i].node);
            assert(frames1[i - 1].node == frames0[i - 1].node);
        }
    }
    assert forall|i: int, q: int|
        #![trigger frames1[i], st1.stack@[q]]
        0 <= i < frames1.len() && fpos1[i] <= q < next_pos(fpos1, i, st1.stack@.len() as int) implies reaches(
        adj,
        frames1[i].node,
        st1.stack@[q],
    ) by {
        if i == frames1.len() - 1 {
            assert(q == len0);
            lemma_reaches_refl(adj, w);
        } else {
            assert(next_pos(fpos1, i, st1.stack@.len() as int) == next_pos(fpos0, i, len0));
            assert(frames1[i].node == frames0[i].node);
            assert(st1.stack@[q] == st0.stack@[q]);
        }
    }
    assert forall|q: int| 0 <= q < st1.stack@.len() implies #[trigger] has_low_witness(st1, adj, q) by {
        if q == len0 {
            lemma_reaches_refl(adj, w);
            assert(low_witness(st1, adj, q, q));
        } else {
            assert(has_low_witness(st0, adj, q));
            let r = choose|r: int| #[trigger] low_witness(st0, adj, q, r);
            lemma_stack_node(st0, q);
            lemma_stack_node(st0, r);
            assert(st0.stack@[q] != w);
            assert(st0.stack@[r] != w);
            assert(st1.stack@[q] == st0.stack@[q]);
            assert(st1.stack@[r] == st0.stack@[r]);
            assert(low_witness(st1, adj, q, r));
        }
    }
    assert forall|q: int| 0 <= q < st1.stack@.len() && !fpos1.contains(q) implies st1.lowlinks@[#[trigger] st1.stack@[q] as int]
        < st1.indices@[st1.stack@[q] as int] by {
        if q == len0 {
            assert(fpos1[fpos1.len() - 1] == q);
        } else {
            if fpos0.contains(q) {
                let i = choose|i: int| 0 <= i < fpos0.len() && fpos0[i] == q;
                assert(fpos1[i] == q);
            }
            lemma_stack_node(st0, q);
            assert(st0.stack@[q] != w);
            assert(st1.stack@[q] == st0.stack@[q]);
        }
    }
}

/// Examining an already discovered successor keeps the reach invariant.
#[verifier::spinoff_prover]
#[verifier::rlimit(50)]
proof fn lemma_reach_examine(
    st0: TarjanState,
    st1: TarjanState,
    adj: Seq<Vec<usize>>,
    frames0: Seq<TarjanFrame>,
    fpos0: Seq<int>,
    w: usize,
)
    requires
        st0.inv(),
        reach_inv(st0, adj, frames0, fpos0),
        frames_placed(st0, adj, frames0, fpos0),
        frames0.len() > 0,
        frames0.last().next_succ < adj[frames0.last().node as int]@.len(),
        w == adj[frames0.last().node as int]@[frames0.last().next_succ as int],
        w < st0.indices@.len(),
        st0.discovered(w),
        st1.indices@ == st0.indices@,
        st1.stack@ == st0.stack@,
        st1.sccs@ == st0.sccs@,
        st1.lowlinks@ == if st0.stack@.contains(w) && st0.indices@[w as int] < st0.lowlinks@[frames0.last().node as int] {
            st0.lowlinks@.update(frames0.last().node as int, st0.indices@[w as int])
        } else {
            st0.lowlinks@
        },
    ensures
        reach_inv(
            st1,
            adj,
            frames0.update(
                frames0.len() - 1,
                TarjanFrame { node: frames0.last().node, next_succ: (frames0.last().next_succ + 1) as usize },
            ),
            fpos0,
        ),
{
    reveal(reach_inv);
    let top = frames0.len() - 1;
    let v = frames0[top].node;
    let frames1 = frames0.update(top, TarjanFrame { node: v, next_succ: (frames0[top].next_succ + 1) as usize });
    let updated = st0.stack@.contains(w) && st0.indices@[w as int] < st0.lowlinks@[v as int];
    assert forall|i: int| 0 < i < frames1.len() implies adj[frames1[i - 1].node as int]@.contains(#[trigger] frames1[i].node) by {
        assert(frames1[i].node == frames0[i].node);
        assert(frames1[i - 1].node == frames0[i - 1].node);
    }
    assert forall|i: int, q: int|
        #![trigger frames1[i], st1.stack@[q]]
        0 <= i < frames1.len() && fpos0[i] <= q < next_pos(fpos0, i, st1.stack@.len() as int) implies reaches(
        adj,
        frames1[i].node,
        st1.stack@[q],
    ) by {
        assert(frames1[i].node == frames0[i].node);
    }
    assert forall|q: int| 0 <= q < st1.stack@.len() implies #[trigger] has_low_witness(st1, adj, q) by {
        let u = st0.stack@[q];
        lemma_stack_node(st0, q);
        if updated && u == v {
            let r = lemma_stack_position(st0, w);
            assert(adj[v as int]@[frames0[top].next_succ as int] == w);
            lemma_reaches_edge(adj, v, w);
            assert(low_witness(st1, adj, q, r));
        } else {
            assert(has_low_witness(st0, adj, q));
            let r = choose|r: int| #[trigger] low_witness(st0, adj, q, r);
            assert(st1.lowlinks@[u as int] == st0.lowlinks@[u as int]);
            assert(low_witness(st1, adj, q, r));
        }
    }
    assert forall|q: int| 0 <= q < st1.stack@.len() && !fpos0.contains(q) implies st1.lowlinks@[#[trigger] st1.stack@[q] as int]
        < st1.indices@[st1.stack@[q] as int] by {
        lemma_stack_node(st0, q);
        assert(st0.stack@[q] != v) by {
            assert(st0.stack@[fpos0[top]] == v);
            assert(fpos0.contains(fpos0[top]));
            lemma_stack_distinct(st0, q, fpos0[top]);
        }
    }
}

/// Every node of the stack at or above the root `v` of a finished frame
/// reaches `v`.
proof fn lemma_reaches_root(st: TarjanState, adj: Seq<Vec<usize>>, frames: Seq<TarjanFrame>, fpos: Seq<int>, q: int)
    requires
        st.inv(),
        order_inv(st, adj, frames, fpos),
        reach_inv(st, adj, frames, fpos),
        frames_placed(st, adj, frames, fpos),
        frames.len() > 0,
        st.lowlinks@[frames.last().node as int] == st.indices@[frames.last().node as int],
        fpos.last() <= q < st.stack@.len(),
    ensures
        reaches(adj, st.stack@[q], frames.last().node),
    decreases st.indices@[st.stack@[q] as int],
{
    reveal(order_inv);
    reveal(reach_inv);
    let top = frames.len() - 1;
    let v = frames[top].node;
    let p = fpos[top];
    assert(st.stack@[p] == v);
    if q == p {
        lemma_reaches_refl(adj, v);
    } else {
        let u = st.stack@[q];
        lemma_stack_node(st, q);
        assert(!fpos.contains(q)) by {
            if fpos.contains(q) {
                let i = choose|i: int| 0 <= i < fpos.len() && fpos[i] == q;
                if i < top {
                    assert(fpos[i] < fpos[top]);
                }
            }
        }
        assert(st.lowlinks@[u as int] < st.indices@[u as int]);
        assert(next_pos(fpos, top, st.stack@.len() as int) == st.stack@.len());
        assert(st.lowlinks@[frames[top].node as int] <= st.lowlinks@[st.stack@[q] as int]);
        assert(has_low_witness(st, adj, q));
        let r = choose|r: int| #[trigger] low_witness(st, adj, q, r);
        assert(r >= p) by {
            if r < p {
                assert(st.indices@[st.stack@[r] as int] < st.indices@[st.stack@[p] as int]);
            }
        }
        lemma_stack_node(st, r);
        lemma_reaches_root(st, adj, frames, fpos, r);
        lemma_reaches_trans(adj, u, st.stack@[r], v);
    }
}

/// Finishing a frame that is not a root keeps the reach invariant.
#[verifier::spinoff_prover]
#[verifier::rlimit(50)]
proof fn lemma_reach_finish_inner(
    st0: TarjanState,
    st1: TarjanState,
    adj: Seq<Vec<usize>>,
    frames0: Seq<TarjanFrame>,
    fpos0: Seq<int>,
)
    requires
        st0.inv(),
        reach_inv(st0, adj, frames0, fpos0),
        frames_placed(st0, adj, frames0, fpos0),
        frames0.len() > 1,
        st0.lowlinks@[frames0.last().node as int] != st0.indices@[frames0.last().node as int],
        st1.indices@ == st0.indices@,
        st1.stack@ == st0.stack@,
        st1.sccs@ == st0.sccs@,
        st1.lowlinks@ == parent_lowlinks(st0.lowlinks@, frames0.last().node, parent_of(frames0)),
    ensures
        reach_inv(st1, adj, frames0.drop_last(), fpos0.drop_last()),
{
    reveal(reach_inv);
    let top = frames0.len() - 1;
    let v = frames0[top].node;
    let pv = frames0[top - 1].node;
    let p = fpos0[top];
    let frames1 = frames0.drop_last();
    let fpos1 = fpos0.drop_last();
    let updated = st0.lowlinks@[v as int] < st0.lowlinks@[pv as int];
    assert(parent_of(frames0) == Some(pv));
    assert(adj[pv as int]@.contains(frames0[top].node));
    lemma_reaches_edge(adj, pv, v);
    assert(v != pv) by {
        lemma_stack_distinct(st0, fpos0[top - 1], p);
    }
    assert forall|i: int| 0 < i < frames1.len() implies adj[frames1[i - 1].node as int]@.contains(#[trigger] frames1[i].node) by {
        assert(frames1[i] == frames0[i]);
        assert(frames1[i - 1] == frames0[i - 1]);
    }
    assert forall|i: int, q: int|
        #![trigger frames1[i], st1.stack@[q]]
        0 <= i < frames1.len() && fpos1[i] <= q < next_pos(fpos1, i, st1.stack@.len() as int) implies reaches(
        adj,
        frames1[i].node,
        st1.stack@[q],
    ) by {
        assert(frames1[i] == frames0[i]);
        if i < top - 1 {
            assert(next_pos(fpos1, i, st1.stack@.len() as int) == next_pos(fpos0, i, st0.stack@.len() as int));
        } else if q < p {
            assert(next_pos(fpos0, i, st0.stack@.len() as int) == p);
        } else if q == p {
        } else {
            assert(next_pos(fpos0, top, st0.stack@.len() as int) == st0.stack@.len());
            assert(reaches(adj, frames0[top].node, st0.stack@[q]));
            lemma_reaches_trans(adj, pv, v, st0.stack@[q]);
        }
    }
    assert forall|q: int| 0 <= q < st1.stack@.len() implies #[trigger] has_low_witness(st1, adj, q) by {
        let u = st0.stack@[q];
        lemma_stack_node(st0, q);
        if updated && u == pv {
            assert(has_low_witness(st0, adj, p));
            let r = choose|r: int| #[trigger] low_witness(st0, adj, p, r);
            lemma_reaches_trans(adj, pv, v, st0.stack@[r]);
            assert(low_witness(st1, adj, q, r));
        } else {
            assert(has_low_witness(st0, adj, q));
            let r = choose|r: int| #[trigger] low_witness(st0, adj, q, r);
            assert(st1.lowlinks@[u as int] == st0.lowlinks@[u as int]);
            assert(low_witness(st1, adj, q, r));
        }
    }
    assert forall|q: int| 0 <= q < st1.stack@.len() && !fpos1.contains(q) implies st1.lowlinks@[#[trigger] st1.stack@[q] as int]
        < st1.indices@[st1.stack@[q] as int] by {
        let u = st0.stack@[q];
        lemma_stack_node(st0, q);
        assert(u != pv) by {
            assert(fpos1[top - 1] == fpos0[top - 1]);
            if q == fpos0[top - 1] {
                assert(fpos1.contains(q));
            }
            lemma_stack_distinct(st0, q, fpos0[top - 1]);
        }
        if q != p {
            if fpos0.contains(q) {
                let i = choose|i: int| 0 <= i < fpos0.len() && fpos0[i] == q;
                assert(i != top);
                assert(fpos1[i] == q);
            }
        }
        assert(st1.lowlinks@[u as int] == st0.lowlinks@[u as int]);
    }
}

/// Finishing the root of a component keeps the reach invariant: every two
/// members of the new component reach each other through the root.
#[verifier::spinoff_prover]
#[verifier::rlimit(50)]
proof fn lemma_reach_finish_root(
    st0: TarjanState,
    st1: TarjanState,
    adj: Seq<Vec<usize>>,
    frames0: Seq<TarjanFrame>,
    fpos0: Seq<int>,
)
    requires
        st0.inv(),
        order_inv(st0, adj, frames0, fpos0),
        reach_inv(st0, adj, frames0, fpos0),
        frames_placed(st0, adj, frames0, fpos0),
        frames0.len() > 0,
        st0.lowlinks@[frames0.last().node as int] == st0.indices@[frames0.last().node as int],
        st1.indices@ == st0.indices@,
        st1.stack@ == st0.stack@.subrange(0, fpos0.last()),
        st1.sccs@.len() == st0.sccs@.len() + 1,
        st1.sccs@.drop_last() == st0.sccs@,
        forall|x: usize|
            #[trigger] st1.sccs@.last()@.contains(x) <==> st0.stack@.subrange(
                fpos0.last(),
                st0.stack@.len() as int,
            ).contains(x),
        st1.lowlinks@ == parent_lowlinks(st0.lowlinks@, frames0.last().node, parent_of(frames0)),
    ensures
        reach_inv(st1, adj, frames0.drop_last(), fpos0.drop_last()),
{
    reveal(order_inv);
    reveal(reach_inv);
    let top = frames0.len() - 1;
    let v = frames0[top].node;
    let p = fpos0[top];
    let frames1 = frames0.drop_last();
    let fpos1 = fpos0.drop_last();
    let tail = st0.stack@.subrange(p, st0.stack@.len() as int);
    let k = st0.sccs@.len() as int;
    // The parent's lowlink is below the root's index, so it is not lowered.
    if top > 0 {
        let pv = frames0[top - 1].node;
        assert(parent_of(frames0) == Some(pv));
        lemma_stack_node(st0, fpos0[top - 1]);
        assert(st0.indices@[st0.stack@[fpos0[top - 1]] as int] < st0.indices@[st0.stack@[p] as int]);
        assert(st1.lowlinks@ == st0.lowlinks@);
    } else {
        assert(st1.lowlinks@ == st0.lowlinks@);
    }
    assert forall|i: int| 0 < i < frames1.len() implies adj[frames1[i - 1].node as int]@.contains(#[trigger] frames1[i].node) by {
        assert(frames1[i] == frames0[i]);
        assert(frames1[i - 1] == frames0[i - 1]);
    }
    assert forall|i: int, q: int|
        #![trigger frames1[i], st1.stack@[q]]
        0 <= i < frames1.len() && fpos1[i] <= q < next_pos(fpos1, i, st1.stack@.len() as int) implies reaches(
        adj,
        frames1[i].node,
        st1.stack@[q],
    ) by {
        assert(frames1[i] == frames0[i]);
        assert(st1.stack@[q] == st0.stack@[q]);
        assert(next_pos(fpos1, i, st1.stack@.len() as int) == next_pos(fpos0, i, st0.stack@.len() as int));
    }
    assert forall|q: int| 0 <= q < st1.stack@.len() implies #[trigger] has_low_witness(st1, adj, q) by {
        assert(has_low_witness(st0, adj, q));
        let r = choose|r: int| #[trigger] low_witness(st0, adj, q, r);
        lemma_stack_node(st0, q);
        assert(r < p) by {
            if r >= p {
                if r > q {
                    assert(st0.indices@[st0.stack@[q] as int] < st0.indices@[st0.stack@[r] as int]);
                }
            }
        }
        assert(st1.stack@[q] == st0.stack@[q]);
        assert(st1.stack@[r] == st0.stack@[r]);
        assert(low_witness(st1, adj, q, r));
    }
    assert forall|q: int| 0 <= q < st1.stack@.len() && !fpos1.contains(q) implies st1.lowlinks@[#[trigger] st1.stack@[q] as int]
        < st1.indices@[st1.stack@[q] as int] by {
        assert(st1.stack@[q] == st0.stack@[q]);
        if fpos0.contains(q) {
            let i = choose|i: int| 0 <= i < fpos0.len() && fpos0[i] == q;
            assert(i != top);
            assert(fpos1[i] == q);
        }
    }
    // The new component is strongly connected through `v`.
    assert forall|kk: int, a: usize, b: usize|
        0 <= kk < st1.sccs@.len() && #[trigger] st1.sccs@[kk]@.contains(a) && #[trigger] st1.sccs@[kk]@.contains(b)
            implies reaches(adj, a, b) by {
        if kk < k {
            assert(st1.sccs@[kk] == st0.sccs@[kk]);
        } else {
            assert(st1.sccs@.last() == st1.sccs@[kk]);
            assert(tail.contains(a));
            assert(tail.contains(b));
            let ma = choose|m: int| 0 <= m < tail.len() && tail[m] == a;
            let mb = choose|m: int| 0 <= m < tail.len() && tail[m] == b;
            assert(st0.stack@[p + ma] == a);
            assert(st0.stack@[p + mb] == b);
            lemma_reaches_root(st0, adj, frames0, fpos0, p + ma);
            assert(next_pos(fpos0, top, st0.stack@.len() as int) == st0.stack@.len());
            assert(reaches(adj, frames0[top].node, st0.stack@[p + mb]));
            lemma_reaches_trans(adj, a, v, b);
        }
    }
}

/// Iterative Tarjan strongly connected components of the graph on nodes
/// `0..n` given by adjacency lists. The components partition the nodes
/// (every node lies in exactly one non-empty component), come in reverse
/// topological order (an edge never leads to a later component), and the
/// members of each reach one another: they are exactly the strongly
/// connected components (see [`lemma_components_are_sccs`]).
#[verifier::spinoff_prover]
#[verifier::rlimit(80)]
pub fn tarjan_scc(n: usize, adj: &[Vec<usize>]) -> (r: Vec<Vec<usize>>)
    requires
        n < u32::MAX,
        adjacency_within(n, adj@),
    ensures
        partitions_nodes(r@, n),
        edges_point_back(r@, adj@),
        components_connected(r@, adj@),
{
    let mut state = TarjanState::new(n);
    let mut start: usize = 0;
    while start < n
        invariant
            n < u32::MAX,
            adjacency_within(n, adj@),
            state.inv(),
            state.indices@.len() == n,
            state.stack@.len() == 0,
            start <= n,
            forall|v: usize| v < start ==> #[trigger] state.discovered(v),
            edges_point_back(state.sccs@, adj@),
            components_connected(state.sccs@, adj@),
        decreases n - start,
    {
        if state.indices[start] == u32::MAX {
            let ghost pre = state;
            state.discover(start);
            let ghost s0 = state.indices@[start as int];
            proof {
                assert forall|u: usize|
                    u < state.indices@.len() && #[trigger] state.discovered(u) && state.indices@[u as int] >= s0
                        implies state.lowlinks@[u as int] >= s0 by {
                    if u != start {
                        assert(pre.discovered(u));
                    }
                }
                assert forall|v: usize| v < start implies #[trigger] state.discovered(v) by {
                    assert(pre.discovered(v));
                }
                assert(state.stack@ =~= seq![start]);
            }
            let mut dfs: Vec<TarjanFrame> = vec![TarjanFrame { node: start, next_succ: 0 }];
            let ghost mut fpos: Seq<int> = seq![0int];
            proof {
                assert(fpos[0] == 0);
                assert(fpos.contains(0));
                assert(order_inv(state, adj@, dfs@, fpos)) by {
                    reveal(order_inv);
                }
                lemma_reaches_refl(adj@, start);
                assert(state.stack@[0] == start);
                assert(low_witness(state, adj@, 0, 0));
                assert(reach_inv(state, adj@, dfs@, fpos)) by {
                    reveal(reach_inv);
                }
            }
            while dfs.len() > 0
                invariant
                    n < u32::MAX,
                    adjacency_within(n, adj@),
                    state.inv(),
                    state.indices@.len() == n,
                    start < n,
                    state.discovered(start),
                    s0 == state.indices@[start as int],
                    state.tree_inv(s0),
                    forall|v: usize| v < start ==> #[trigger] state.discovered(v),
                    dfs@.len() == fpos.len(),
                    dfs@.len() > 0 ==> dfs@[0].node == start && fpos[0] == 0,
                    dfs@.len() == 0 ==> state.stack@.len() == 0,
                    forall|i: int|
                        0 <= i < dfs@.len() ==> 0 <= #[trigger] fpos[i] < state.stack@.len() && state.stack@[fpos[i]]
                            == dfs@[i].node && dfs@[i].node < n && state.discovered(dfs@[i].node)
                            && dfs@[i].next_succ <= adj@[dfs@[i].node as int]@.len(),
                    forall|i: int, j: int| 0 <= i < j < dfs@.len() ==> #[trigger] fpos[i] < #[trigger] fpos[j],
                    order_inv(state, adj@, dfs@, fpos),
                    reach_inv(state, adj@, dfs@, fpos),
                decreases n - state.index_counter, remaining(adj@, dfs@), dfs@.len(),
            {
                proof {
                    lemma_distinct_below(state.seen(), n);
                }
                let top = dfs.len() - 1;
                let mut frame = dfs[top];
                let v = frame.node;
                proof {
                    assert(0 <= fpos[top as int]);
                }
                if frame.next_succ < adj[v].len() {
                    let ghost before = state;
                    let ghost frames = dfs@;
                    let ghost fp = fpos;
                    let ghost w = adj@[v as int]@[frame.next_succ as int];
                    let ghost stepped = TarjanFrame { node: v, next_succ: (frame.next_succ + 1) as usize };
                    proof {
                        assert(frames.last() == frame);
                        assert(frames_placed(before, adj@, frames, fp));
                    }
                    let child = state.step_successor(&mut frame, adj);
                    dfs.set(top, frame);
                    proof {
                        assert(dfs@.drop_last() =~= frames.drop_last());
                        assert(frame == stepped);
                        assert(dfs@ =~= frames.update(top as int, stepped));
                        if child is None {
                            lemma_order_examine(before, state, adj@, frames, fp, w);
                            lemma_reach_examine(before, state, adj@, frames, fp, w);
                        }
                    }
                    match child {
                        Some(c) => {
                            let ghost p = before.stack@.len() as int;
                            dfs.push(TarjanFrame { node: c, next_succ: 0 });
                            proof {
                                lemma_order_descend(before, state, adj@, frames, fp, c);
                                lemma_reach_descend(before, state, adj@, frames, fp, c);
                                assert(dfs@ =~= frames.update(top as int, stepped).push(TarjanFrame { node: c, next_succ: 0 }));
                            }
                            proof {
                                fpos = fpos.push(p);
                                assert forall|i: int|
                                    0 <= i < dfs@.len() implies 0 <= #[trigger] fpos[i] < state.stack@.len()
                                        && state.stack@[fpos[i]] == dfs@[i].node && dfs@[i].node < n
                                        && state.discovered(dfs@[i].node) && dfs@[i].next_succ <= adj@[dfs@[i].node as int]@.len() by {
                                    if i < dfs@.len() - 1 {
                                        assert(0 <= fp[i]);
                                        assert(dfs@[i].node == frames[i].node);
                                        assert(before.discovered(dfs@[i].node));
                                    }
                                }
                                assert forall|u: usize|
                                    u < state.indices@.len() && #[trigger] state.discovered(u) && state.indices@[u as int] >= s0
                                        implies state.lowlinks@[u as int] >= s0 by {
                                    if u != c {
                                        assert(before.discovered(u));
                                    }
                                }
                                assert(before.discovered(start));
                                assert forall|i: int| 0 <= i < state.stack@.len() implies state.indices@[#[trigger] state.stack@[i] as int] >= s0 by {
                                    if i < before.stack@.len() {
                                        let u = before.stack@[i];
                                        assert(state.stack@[i] == u);
                                        let k = flatten(before.sccs@).len() + i;
                                        assert(before.seen()[k] == u);
                                        assert(u < n);
                                        assert(before.seen().contains(u));
                                        assert(before.discovered(u));
                                        assert(u != c);
                                        assert(before.indices@[before.stack@[i] as int] >= s0);
                                    } else {
                                        assert(state.stack@[i] == c);
                                    }
                                }
                                assert forall|v2: usize| v2 < start implies #[trigger] state.discovered(v2) by {
                                    assert(before.discovered(v2));
                                }
                                lemma_distinct_below(state.seen(), n);
                            }
                        },
                        None => {
                            proof {
                                assert forall|u: usize|
                                    u < state.indices@.len() && #[trigger] state.discovered(u) && state.indices@[u as int] >= s0
                                        implies state.lowlinks@[u as int] >= s0 by {
                                    assert(before.discovered(u));
                                }
                                assert forall|v2: usize| v2 < start implies #[trigger] state.discovered(v2) by {
                                    assert(before.discovered(v2));
                                }
                                assert(dfs@.last() == frame);
                                assert(frames.last() == frames[top as int]);
                                assert(remaining(adj@, dfs@) < remaining(adj@, frames));
                                assert forall|i: int|
                                    0 <= i < dfs@.len() implies 0 <= #[trigger] fpos[i] < state.stack@.len()
                                        && state.stack@[fpos[i]] == dfs@[i].node && dfs@[i].node < n
                                        && state.discovered(dfs@[i].node) && dfs@[i].next_succ <= adj@[dfs@[i].node as int]@.len() by {
                                    assert(0 <= fp[i]);
                                    assert(dfs@[i].node == frames[i].node);
                                    assert(before.discovered(dfs@[i].node));
                                }
                            }
                        },
                    }
                } else {
                    let ghost before = state;
                    let ghost frames = dfs@;
                    let ghost fp = fpos;
                    let ghost p = fpos[top as int];
                    proof {
                        if top > 0 {
                            assert(0 <= fpos[top - 1]);
                        }
                        assert(frames.last() == frame);
                        assert(frames_placed(before, adj@, frames, fp));
                    }
                    dfs.pop();
                    let parent = if dfs.len() > 0 {
                        Some(dfs[dfs.len() - 1].node)
                    } else {
                        None
                    };
                    proof {
                        assert(state.indices@[v as int] >= s0);
                        if dfs.len() == 0 {
                            assert(v == start);
                            assert(p == 0);
                        }
                    }
                    state.finish_frame(v, parent, Ghost(p));
                    proof {
                        assert(parent == parent_of(frames));
                        assert(frames.drop_last() =~= dfs@);
                        if before.lowlinks@[v as int] == before.indices@[v as int] {
                            lemma_order_finish_root(before, state, adj@, frames, fp);
                            lemma_reach_finish_root(before, state, adj@, frames, fp);
                        } else {
                            assert(frames.len() > 1) by {
                                if frames.len() == 1 {
                                    assert(v == start);
                                }
                            }
                            lemma_order_finish_inner(before, state, adj@, frames, fp);
                            lemma_reach_finish_inner(before, state, adj@, frames, fp);
                        }
                        fpos = fpos.drop_last();
                        assert forall|u: usize|
                            u < state.indices@.len() && #[trigger] state.discovered(u) && state.indices@[u as int] >= s0
                                implies state.lowlinks@[u as int] >= s0 by {
                            assert(before.discovered(u));
                            assert(before.discovered(v));
                        }
                        assert forall|i: int| 0 <= i < state.stack@.len() implies state.indices@[#[trigger] state.stack@[i] as int] >= s0 by {
                            assert(state.stack@[i] == before.stack@[i]);
                            assert(before.indices@[before.stack@[i] as int] >= s0);
                        }
                        assert forall|v2: usize| v2 < start implies #[trigger] state.discovered(v2) by {
                            assert(before.discovered(v2));
                        }
                        assert(dfs@ =~= frames.drop_last());
                        assert(remaining(adj@, dfs@) == remaining(adj@, frames));
                        assert forall|i: int|
                            0 <= i < dfs@.len() implies 0 <= #[trigger] fpos[i] < state.stack@.len() && state.stack@[fpos[i]]
                                == dfs@[i].node && dfs@[i].node < n && state.discovered(dfs@[i].node)
                                && dfs@[i].next_succ <= adj@[dfs@[i].node as int]@.len() by {
                            assert(fpos[i] < p);
                        }
                    }
                }
            }
            proof {
                reveal(order_inv);
                reveal(reach_inv);
            }
        }
        start = start + 1;
    }
    proof {
        assert(state.seen() =~= flatten(state.sccs@));
        assert forall|v: usize| v < n implies flatten(state.sccs@).contains(v) by {
            assert(state.discovered(v));
        }
    }
    state.sccs
}

// ---------------------------------------------------------------------------
// The re-export graph
// ---------------------------------------------------------------------------

/// The files of the first `k` edges, barrel then source, in order.
pub open spec fn endpoints(tuples: Seq<ReExportTuple>, k: int) -> Seq<u32>
    decreases k,
{
    if k <= 0 {
        seq![]
    } else {
        endpoints(tuples, k - 1).push(tuples[k - 1].barrel).push(tuples[k - 1].source)
    }
}

/// `s` without repeats, each value at its first position.
pub open spec fn dedup(s: Seq<u32>) -> Seq<u32>
    decreases s.len(),
{
    if s.len() == 0 {
        seq![]
    } else {
        let d = dedup(s.drop_last());
        if d.contains(s.last()) {
            d
        } else {
            d.push(s.last())
        }
    }
}

/// The nodes of the re-export graph: every barrel and source file, in order
/// of first appearance.
pub open spec fn re_export_nodes(tuples: Seq<ReExportTuple>) -> Seq<u32> {
    dedup(endpoints(tuples, tuples.len() as int))
}

proof fn lemma_push_contains(s: Seq<u32>, l: u32)
    ensures
        forall|x: u32| #[trigger] s.push(l).contains(x) <==> (s.contains(x) || x == l),
{
    assert forall|x: u32| #[trigger] s.push(l).contains(x) <==> (s.contains(x) || x == l) by {
        if s.push(l).contains(x) {
            let k = choose|k: int| 0 <= k < s.push(l).len() && s.push(l)[k] == x;
            if k < s.len() {
                assert(s[k] == x);
            }
        }
        if s.contains(x) {
            let k = choose|k: int| 0 <= k < s.len() && s[k] == x;
            assert(s.push(l)[k] == x);
        }
        if x == l {
            assert(s.push(l)[s.len() as int] == l);
        }
    }
}

proof fn lemma_dedup(s: Seq<u32>)
    ensures
        dedup(s).no_duplicates(),
        forall|x: u32| #[trigger] dedup(s).contains(x) <==> s.contains(x),
    decreases s.len(),
{
    if s.len() > 0 {
        let p = s.drop_last();
        let l = s.last();
        lemma_dedup(p);
        let d = dedup(p);
        assert(s =~= p.push(l));
        lemma_push_contains(p, l);
        lemma_push_contains(d, l);
        if !d.contains(l) {
            assert forall|a: int, b: int| 0 <= a < b < d.push(l).len() implies d.push(l)[a] != d.push(l)[b] by {
                if b == d.len() {
                    assert(d.contains(d[a]));
                }
            }
        }
    }
}

/// Assign a dense index to every distinct barrel / source file: the nodes in
/// order of first appearance, and each node's position among them.
pub fn build_re_export_node_index(re_export_info: &Vec<ReExportTuple>) -> (r: (HashMap<u32, usize>, Vec<u32>))
    ensures
        r.1@ == re_export_nodes(re_export_info@),
        r.1@.no_duplicates(),
        forall|f: u32| #[trigger] r.0@.contains_key(f) <==> r.1@.contains(f),
        forall|i: int| 0 <= i < r.1@.len() ==> r.0@[#[trigger] r.1@[i]] == i,
{
    broadcast use vstd::std_specs::hash::group_hash_axioms;

    let mut node_index: HashMap<u32, usize> = HashMap::new();
    let mut nodes: Vec<u32> = Vec::new();
    let mut k: usize = 0;
    while k < re_export_info.len()
        invariant
            k <= re_export_info@.len(),
            nodes@ == dedup(endpoints(re_export_info@, k as int)),
            nodes@.no_duplicates(),
            forall|f: u32| #[trigger] node_index@.contains_key(f) <==> nodes@.contains(f),
            forall|i: int| 0 <= i < nodes@.len() ==> node_index@[#[trigger] nodes@[i]] == i,
        decreases re_export_info@.len() - k,
    {
        let entry = &re_export_info[k];
        let ghost e0 = endpoints(re_export_info@, k as int);
        let ids = [entry.barrel, entry.source];
        let mut j: usize = 0;
        while j < 2
            invariant
                j <= 2,
                ids@ == seq![entry.barrel, entry.source],
                nodes@ == dedup(e0 + ids@.subrange(0, j as int)),
                nodes@.no_duplicates(),
                forall|f: u32| #[trigger] node_index@.contains_key(f) <==> nodes@.contains(f),
                forall|i: int| 0 <= i < nodes@.len() ==> node_index@[#[trigger] nodes@[i]] == i,
            decreases 2 - j,
        {
            let id = ids[j];
            let ghost before = nodes@;
            proof {
                assert((e0 + ids@.subrange(0, j + 1)).drop_last() =~= e0 + ids@.subrange(0, j as int));
                assert((e0 + ids@.subrange(0, j + 1)).last() == id);
            }
            if !node_index.contains_key(&id) {
                let idx = nodes.len();
                nodes.push(id);
                node_index.insert(id, idx);
                proof {
                    assert forall|f: u32| #[trigger] node_index@.contains_key(f) <==> nodes@.contains(f) by {
                        if f != id && nodes@.contains(f) {
                            let i = choose|i: int| 0 <= i < nodes@.len() && nodes@[i] == f;
                            assert(before[i] == f);
                        }
                        if f != id && before.contains(f) {
                            let i = choose|i: int| 0 <= i < before.len() && before[i] == f;
                            assert(nodes@[i] == f);
                        }
                        if f == id {
                            assert(nodes@[before.len() as int] == id);
                        }
                    }
                    assert forall|i: int| 0 <= i < nodes@.len() implies node_index@[#[trigger] nodes@[i]] == i by {
                        if i < before.len() {
                            assert(nodes@[i] == before[i]);
                            assert(before.contains(before[i]));
                        }
                    }
                    assert forall|a: int, b: int| 0 <= a < b < nodes@.len() implies nodes@[a] != nodes@[b] by {
                        if b == nodes@.len() - 1 {
                            assert(before.contains(before[a]));
                        }
                    }
                }
            }
            j = j + 1;
        }
        proof {
            assert(endpoints(re_export_info@, k + 1) =~= e0 + ids@.subrange(0, 2));
        }
        k = k + 1;
    }
    (node_index, nodes)
}

/// The successors of node `v` after the first `k` edges: the source's node
/// of every edge from `v` that is not a self-loop, each once, in order.
pub open spec fn adjacency_of(tuples: Seq<ReExportTuple>, index: Map<u32, usize>, v: usize, k: int) -> Seq<usize>
    decreases k,
{
    if k <= 0 {
        seq![]
    } else {
        let prev = adjacency_of(tuples, index, v, k - 1);
        let t = tuples[k - 1];
        let to = index[t.source];
        if t.barrel != t.source && index[t.barrel] == v && !prev.contains(to) {
            prev.push(to)
        } else {
            prev
        }
    }
}

/// The barrels among the first `k` edges that re-export from themselves,
/// each once, in order.
pub open spec fn self_loops(tuples: Seq<ReExportTuple>, k: int) -> Seq<u32>
    decreases k,
{
    if k <= 0 {
        seq![]
    } else {
        let prev = self_loops(tuples, k - 1);
        let t = tuples[k - 1];
        if t.barrel == t.source && !prev.contains(t.barrel) {
            prev.push(t.barrel)
        } else {
            prev
        }
    }
}

/// `index` numbers files below `n`, one number per file.
pub open spec fn dense_index(index: Map<u32, usize>, n: usize) -> bool {
    &&& forall|f: u32| #[trigger] index.contains_key(f) ==> index[f] < n
    &&& forall|a: u32, b: u32| index.contains_key(a) && index.contains_key(b) && #[trigger] index[a] == #[trigger] index[b] ==> a == b
}

fn contains_usize(v: &Vec<usize>, x: usize) -> (r: bool)
    ensures
        r == v@.contains(x),
{
    let mut i: usize = 0;
    while i < v.len()
        invariant
            i <= v@.len(),
            forall|j: int| 0 <= j < i ==> v@[j] != x,
        decreases v@.len() - i,
    {
        if v[i] == x {
            return true;
        }
        i = i + 1;
    }
    false
}

fn contains_u32(v: &Vec<u32>, x: u32) -> (r: bool)
    ensures
        r == v@.contains(x),
{
    let mut i: usize = 0;
    while i < v.len()
        invariant
            i <= v@.len(),
            forall|j: int| 0 <= j < i ==> v@[j] != x,
        decreases v@.len() - i,
    {
        if v[i] == x {
            return true;
        }
        i = i + 1;
    }
    false
}

/// The adjacency lists of the re-export graph over `node_count` nodes (see
/// [`adjacency_of`]) and the barrels that re-export from themselves (see
/// [`self_loops`]).
pub fn build_re_export_adjacency(
    re_export_info: &Vec<ReExportTuple>,
    node_index: &HashMap<u32, usize>,
    node_count: usize,
) -> (r: (Vec<Vec<usize>>, Vec<u32>))
    requires
        dense_index(node_index@, node_count),
        forall|k: int|
            0 <= k < re_export_info@.len() ==> node_index@.contains_key((#[trigger] re_export_info@[k]).barrel)
                && node_index@.contains_key(re_export_info@[k].source),
    ensures
        r.0@.len() == node_count,
        forall|v: int| 0 <= v < node_count ==> (#[trigger] r.0@[v])@ == adjacency_of(
            re_export_info@,
            node_index@,
            v as usize,
            re_export_info@.len() as int,
        ),
        r.1@ == self_loops(re_export_info@, re_export_info@.len() as int),
        adjacency_within(node_count, r.0@),
{
    broadcast use vstd::std_specs::hash::group_hash_axioms;

    let mut adj: Vec<Vec<usize>> = Vec::new();
    let mut v: usize = 0;
    while v < node_count
        invariant
            v <= node_count,
            adj@.len() == v,
            forall|w: int| 0 <= w < v ==> (#[trigger] adj@[w])@ == Seq::<usize>::empty(),
        decreases node_count - v,
    {
        adj.push(Vec::new());
        v = v + 1;
    }
    let mut loops: Vec<u32> = Vec::new();
    let mut k: usize = 0;
    while k < re_export_info.len()
        invariant
            k <= re_export_info@.len(),
            dense_index(node_index@, node_count),
            forall|k2: int|
                0 <= k2 < re_export_info@.len() ==> node_index@.contains_key((#[trigger] re_export_info@[k2]).barrel)
                    && node_index@.contains_key(re_export_info@[k2].source),
            adj@.len() == node_count,
            forall|w: int| 0 <= w < node_count ==> (#[trigger] adj@[w])@ == adjacency_of(
                re_export_info@,
                node_index@,
                w as usize,
                k as int,
            ),
            loops@ == self_loops(re_export_info@, k as int),
        decreases re_export_info@.len() - k,
    {
        let entry = &re_export_info[k];
        let from = match node_index.get(&entry.barrel) {
            Some(i) => *i,
            None => 0,
        };
        let to = match node_index.get(&entry.source) {
            Some(i) => *i,
            None => 0,
        };
        proof {
            assert(node_index@.contains_key(entry.barrel) && node_index@.contains_key(entry.source));
            assert((from == to) == (entry.barrel == entry.source));
        }
        if from == to {
            if !contains_u32(&loops, entry.barrel) {
                loops.push(entry.barrel);
            }
            proof {
                assert forall|w: int| 0 <= w < node_count implies (#[trigger] adj@[w])@ == adjacency_of(
                    re_export_info@,
                    node_index@,
                    w as usize,
                    k + 1,
                ) by {
                    assert(adjacency_of(re_export_info@, node_index@, w as usize, k + 1) == adjacency_of(
                        re_export_info@,
                        node_index@,
                        w as usize,
                        k as int,
                    ));
                }
            }
        } else {
            let ghost before = adj@;
            if !contains_usize(&adj[from], to) {
                adj[from].push(to);
            }
            proof {
                assert forall|w: int| 0 <= w < node_count implies (#[trigger] adj@[w])@ == adjacency_of(
                    re_export_info@,
                    node_index@,
                    w as usize,
                    k + 1,
                ) by {
                    if w != from {
                        assert(adj@[w] == before[w]);
                    }
                }
            }
        }
        k = k + 1;
    }
    proof {
        assert forall|w: int, j: int| 0 <= w < node_count && 0 <= j < adj@[w]@.len() implies (#[trigger] adj@[w]@[j])
            < node_count by {
            lemma_adjacency_bound(re_export_info@, node_index@, node_count, w as usize, re_export_info@.len() as int);
        }
    }
    (adj, loops)
}

proof fn lemma_adjacency_bound(tuples: Seq<ReExportTuple>, index: Map<u32, usize>, n: usize, v: usize, k: int)
    requires
        dense_index(index, n),
        0 <= k <= tuples.len(),
        forall|k2: int| 0 <= k2 < tuples.len() ==> index.contains_key((#[trigger] tuples[k2]).barrel) && index.contains_key(tuples[k2].source),
    ensures
        forall|j: int| 0 <= j < adjacency_of(tuples, index, v, k).len() ==> #[trigger] adjacency_of(tuples, index, v, k)[j] < n,
    decreases k,
{
    if k > 0 {
        lemma_adjacency_bound(tuples, index, n, v, k - 1);
        let prev = adjacency_of(tuples, index, v, k - 1);
        let cur = adjacency_of(tuples, index, v, k);
        assert(index.contains_key(tuples[k - 1].source));
        assert forall|j: int| 0 <= j < cur.len() implies #[trigger] cur[j] < n by {
            if j < prev.len() {
                assert(cur[j] == prev[j]);
            }
        }
    }
}

// ---------------------------------------------------------------------------
// Cycles
// ---------------------------------------------------------------------------

/// A re-export cycle or self-loop: its member files (the display form of
/// their paths) sorted by that form, with their file ids alongside.
#[derive(Debug, Clone)]
pub struct GraphReExportCycle {
    pub files: Vec<String>,
    pub file_ids: Vec<u32>,
    /// `true` for a file re-exporting from itself, `false` for a
    /// multi-file strongly connected component.
    pub is_self_loop: bool,
}

/// The display text of file `f`: its path's display form, or
/// `<file id N>` for an id outside the module list.
pub open spec fn display_bytes(displays: Seq<String>, f: u32) -> Seq<u8> {
    if (f as int) < displays.len() {
        encode_utf8(displays[f as int]@)
    } else {
        "<file id ".spec_bytes() + text::decimal(f as nat) + ">".spec_bytes()
    }
}

/// The display text of file `f` (see [`display_bytes`]).
pub fn module_display(file_id: u32, displays: &Vec<String>) -> (r: String)
    ensures
        encode_utf8(r@) == display_bytes(displays@, file_id),
{
    let i = file_id as usize;
    if i < displays.len() {
        displays[i].clone()
    } else {
        let mut out: Vec<u8> = Vec::new();
        let head = "<file id ".as_bytes();
        let tail = ">".as_bytes();
        text::push_range(&mut out, head, 0, head.len());
        text::push_decimal(&mut out, file_id);
        text::push_range(&mut out, tail, 0, tail.len());
        proof {
            reveal_strlit("<file id ");
            reveal_strlit(">");
            assert(head@.subrange(0, head@.len() as int) =~= head@);
            assert(tail@.subrange(0, tail@.len() as int) =~= tail@);
            vstd::utf8::encode_utf8_valid_utf8("<file id "@);
            vstd::utf8::encode_utf8_valid_utf8(">"@);
            text::lemma_decimal_valid(file_id as nat);
            vstd::utf8::valid_utf8_concat(head@, text::decimal(file_id as nat));
            vstd::utf8::valid_utf8_concat(head@ + text::decimal(file_id as nat), tail@);
            assert(out@ =~= display_bytes(displays@, file_id));
        }
        match text::utf8_string(out) {
            Some(st) => st,
            None => String::new(),
        }
    }
}

/// A member of a cycle as the contracts see it: its display bytes and file id.
pub open spec fn keyed(s: Seq<(String, u32)>) -> Seq<(Seq<u8>, u32)> {
    s.map_values(|m: (String, u32)| (encode_utf8(m.0@), m.1))
}

/// Where an entry with key `k` goes in the sorted `t`: before the first
/// entry whose key sorts after it (so after every equal key).
pub open spec fn insert_pos(t: Seq<(Seq<u8>, u32)>, k: Seq<u8>, i: int) -> int
    decreases t.len() - i,
{
    if i >= t.len() || i < 0 {
        t.len() as int
    } else if bytes_less(k, t[i].0) {
        i
    } else {
        insert_pos(t, k, i + 1)
    }
}

/// The entries stably sorted by key (insertion order among equal keys).
pub open spec fn sorted_entries(s: Seq<(Seq<u8>, u32)>) -> Seq<(Seq<u8>, u32)>
    decreases s.len(),
{
    if s.len() == 0 {
        seq![]
    } else {
        let t = sorted_entries(s.drop_last());
        t.insert(insert_pos(t, s.last().0, 0), s.last())
    }
}

proof fn lemma_insert_pos_bounds(t: Seq<(Seq<u8>, u32)>, k: Seq<u8>, i: int)
    requires
        0 <= i <= t.len(),
    ensures
        i <= insert_pos(t, k, i) <= t.len(),
    decreases t.len() - i,
{
    if i < t.len() && !bytes_less(k, t[i].0) {
        lemma_insert_pos_bounds(t, k, i + 1);
    }
}

proof fn lemma_sorted_entries_len(s: Seq<(Seq<u8>, u32)>)
    ensures
        sorted_entries(s).len() == s.len(),
    decreases s.len(),
{
    if s.len() > 0 {
        lemma_sorted_entries_len(s.drop_last());
        let t = sorted_entries(s.drop_last());
        lemma_insert_pos_bounds(t, s.last().0, 0);
    }
}

/// Stable insertion sort of the members by display text.
fn sort_members(members: Vec<(String, u32)>) -> (r: Vec<(String, u32)>)
    ensures
        keyed(r@) == sorted_entries(keyed(members@)),
{
    let mut out: Vec<(String, u32)> = Vec::new();
    let mut k: usize = 0;
    let ghost all = keyed(members@);
    assert(keyed(out@) =~= sorted_entries(all.subrange(0, 0)));
    while k < members.len()
        invariant
            k <= members@.len(),
            all == keyed(members@),
            keyed(out@) == sorted_entries(all.subrange(0, k as int)),
        decreases members@.len() - k,
    {
        let key = members[k].0.as_str().as_bytes();
        let mut p: usize = 0;
        let ghost t = keyed(out@);
        proof {
            lemma_sorted_entries_len(all.subrange(0, k as int));
        }
        while p < out.len() && !bytes_less_exec(key, out[p].0.as_str().as_bytes())
            invariant
                p <= out@.len(),
                t == keyed(out@),
                key@ == all[k as int].0,
                insert_pos(t, key@, 0) == insert_pos(t, key@, p as int),
            decreases out@.len() - p,
        {
            p = p + 1;
        }
        let item = (members[k].0.clone(), members[k].1);
        proof {
            assert(all.subrange(0, k + 1).drop_last() =~= all.subrange(0, k as int));
            assert(all.subrange(0, k + 1).last() == all[k as int]);
        }
        out.insert(p, item);
        proof {
            assert(keyed(out@) =~= t.insert(p as int, all[k as int]));
        }
        k = k + 1;
    }
    assert(all.subrange(0, k as int) =~= all);
    out
}

/// The files and the ids of the members, in order.
fn split_members(members: &Vec<(String, u32)>) -> (r: (Vec<String>, Vec<u32>))
    ensures
        r.0@.len() == members@.len(),
        r.1@.len() == members@.len(),
        forall|i: int| 0 <= i < members@.len() ==> #[trigger] r.0@[i] == members@[i].0,
        forall|i: int| 0 <= i < members@.len() ==> #[trigger] r.1@[i] == members@[i].1,
{
    let mut files: Vec<String> = Vec::new();
    let mut file_ids: Vec<u32> = Vec::new();
    let mut k: usize = 0;
    while k < members.len()
        invariant
            k <= members@.len(),
            files@.len() == k,
            file_ids@.len() == k,
            forall|i: int| 0 <= i < k ==> #[trigger] files@[i] == members@[i].0,
            forall|i: int| 0 <= i < k ==> #[trigger] file_ids@[i] == members@[i].1,
        decreases members@.len() - k,
    {
        let f = members[k].0.clone();
        let id = members[k].1;
        assert(f == members@[k as int].0);
        let ghost fb = files@;
        let ghost ib = file_ids@;
        files.push(f);
        file_ids.push(id);
        assert forall|i: int| 0 <= i < k + 1 implies #[trigger] files@[i] == members@[i].0 by {
            if i < k {
                assert(files@[i] == fb[i]);
            } else {
                assert(files@[i] == f);
            }
        }
        assert forall|i: int| 0 <= i < k + 1 implies #[trigger] file_ids@[i] == members@[i].1 by {
            if i < k {
                assert(file_ids@[i] == ib[i]);
            }
        }
        k = k + 1;
    }
    (files, file_ids)
}

/// The cycle of a file re-exporting from itself.
pub fn build_self_loop_cycle(barrel: u32, displays: &Vec<String>) -> (r: GraphReExportCycle)
    ensures
        r.is_self_loop,
        r.file_ids@ == seq![barrel],
        r.files@.len() == 1,
        encode_utf8(r.files@[0]@) == display_bytes(displays@, barrel),
{
    let d = module_display(barrel, displays);
    let mut files: Vec<String> = Vec::new();
    files.push(d);
    let mut file_ids: Vec<u32> = Vec::new();
    file_ids.push(barrel);
    assert(file_ids@ =~= seq![barrel]);
    GraphReExportCycle { files, file_ids, is_self_loop: true }
}

/// The members of a component in component order: display bytes and id.
pub open spec fn component_entries(scc: Seq<usize>, nodes: Seq<u32>, displays: Seq<String>) -> Seq<(Seq<u8>, u32)> {
    scc.map_values(|i: usize| (display_bytes(displays, nodes[i as int]), nodes[i as int]))
}

/// The cycle of a multi-file component: its files sorted by display text
/// (stably, so members with equal text keep component order).
pub fn build_multi_node_cycle(scc: &Vec<usize>, nodes: &Vec<u32>, displays: &Vec<String>) -> (r: GraphReExportCycle)
    requires
        forall|j: int| 0 <= j < scc@.len() ==> #[trigger] scc@[j] < nodes@.len(),
    ensures
        !r.is_self_loop,
        r.files@.len() == scc@.len(),
        r.file_ids@.len() == scc@.len(),
        forall|j: int| 0 <= j < scc@.len() ==> (encode_utf8(#[trigger] r.files@[j]@), r.file_ids@[j])
            == sorted_entries(component_entries(scc@, nodes@, displays@))[j],
{
    let mut members: Vec<(String, u32)> = Vec::new();
    let ghost want = component_entries(scc@, nodes@, displays@);
    let mut j: usize = 0;
    while j < scc.len()
        invariant
            j <= scc@.len(),
            forall|i: int| 0 <= i < scc@.len() ==> #[trigger] scc@[i] < nodes@.len(),
            want == component_entries(scc@, nodes@, displays@),
            keyed(members@) == want.subrange(0, j as int),
        decreases scc@.len() - j,
    {
        let file_id = nodes[scc[j]];
        let d = module_display(file_id, displays);
        let ghost before = members@;
        members.push((d, file_id));
        proof {
            assert(keyed(members@) =~= keyed(before).push(want[j as int]));
            assert(want.subrange(0, j + 1) =~= want.subrange(0, j as int).push(want[j as int]));
        }
        j = j + 1;
    }
    assert(want.subrange(0, j as int) =~= want);
    let sorted = sort_members(members);
    proof {
        lemma_sorted_entries_len(want);
    }
    let (files, file_ids) = split_members(&sorted);
    proof {
        assert forall|j: int| 0 <= j < scc@.len() implies (encode_utf8(#[trigger] files@[j]@), file_ids@[j])
            == sorted_entries(want)[j] by {
            assert(keyed(sorted@)[j] == (encode_utf8(sorted@[j].0@), sorted@[j].1));
        }
    }
    GraphReExportCycle { files, file_ids, is_self_loop: false }
}

/// What a cycle says: the display bytes of its files, their ids, and
/// whether it is a self-loop.
pub open spec fn cycle_view(c: GraphReExportCycle) -> (Seq<Seq<u8>>, Seq<u32>, bool) {
    (c.files@.map_values(|f: String| encode_utf8(f@)), c.file_ids@, c.is_self_loop)
}

/// The cycles, each by [`cycle_view`].
pub open spec fn cycles_view(cs: Seq<GraphReExportCycle>) -> Seq<(Seq<Seq<u8>>, Seq<u32>, bool)> {
    cs.map_values(|c: GraphReExportCycle| cycle_view(c))
}

/// The self-loop cycle of `barrel`.
pub open spec fn self_loop_view(barrel: u32, displays: Seq<String>) -> (Seq<Seq<u8>>, Seq<u32>, bool) {
    (seq![display_bytes(displays, barrel)], seq![barrel], true)
}

/// The cycle of a multi-file component: its members sorted by display text.
pub open spec fn component_view(scc: Seq<usize>, nodes: Seq<u32>, displays: Seq<String>) -> (Seq<Seq<u8>>, Seq<u32>, bool) {
    let e = sorted_entries(component_entries(scc, nodes, displays));
    (e.map_values(|p: (Seq<u8>, u32)| p.0), e.map_values(|p: (Seq<u8>, u32)| p.1), false)
}

/// The cycles of the components with at least two members, in order.
pub open spec fn component_cycles(sccs: Seq<Vec<usize>>, nodes: Seq<u32>, displays: Seq<String>) -> Seq<
    (Seq<Seq<u8>>, Seq<u32>, bool),
>
    decreases sccs.len(),
{
    if sccs.len() == 0 {
        seq![]
    } else {
        let prev = component_cycles(sccs.drop_last(), nodes, displays);
        if sccs.last()@.len() >= 2 {
            prev.push(component_view(sccs.last()@, nodes, displays))
        } else {
            prev
        }
    }
}

/// The cycles reported for the re-export edges `tuples` whose graph splits
/// into the components `sccs`: one per self-re-exporting barrel, in order of
/// first appearance, then one per component of two or more files.
pub open spec fn reported_cycles(tuples: Seq<ReExportTuple>, sccs: Seq<Vec<usize>>, displays: Seq<String>) -> Seq<
    (Seq<Seq<u8>>, Seq<u32>, bool),
> {
    self_loops(tuples, tuples.len() as int).map_values(|b: u32| self_loop_view(b, displays)) + component_cycles(
        sccs,
        re_export_nodes(tuples),
        displays,
    )
}

proof fn lemma_endpoints(tuples: Seq<ReExportTuple>, k: int)
    requires
        0 <= k <= tuples.len(),
    ensures
        endpoints(tuples, k).len() == 2 * k,
        forall|j: int| 0 <= j < k ==> endpoints(tuples, k).contains((#[trigger] tuples[j]).barrel)
            && endpoints(tuples, k).contains(tuples[j].source),
    decreases k,
{
    if k > 0 {
        lemma_endpoints(tuples, k - 1);
        let p = endpoints(tuples, k - 1);
        let q = p.push(tuples[k - 1].barrel);
        lemma_push_contains(p, tuples[k - 1].barrel);
        lemma_push_contains(q, tuples[k - 1].source);
    }
}

proof fn lemma_dedup_len(s: Seq<u32>)
    ensures
        dedup(s).len() <= s.len(),
    decreases s.len(),
{
    if s.len() > 0 {
        lemma_dedup_len(s.drop_last());
    }
}

/// The node of file `f`: its position among the nodes.
pub open spec fn node_of(nodes: Seq<u32>, f: u32) -> int {
    choose|i: int| 0 <= i < nodes.len() && nodes[i] == f
}

/// Each file of the edges numbered by its node.
pub open spec fn node_numbering(tuples: Seq<ReExportTuple>) -> Map<u32, usize> {
    Map::new(|f: u32| re_export_nodes(tuples).contains(f), |f: u32| node_of(re_export_nodes(tuples), f) as usize)
}

/// `adj` is the re-export graph of the edges: one list per node, node `v`
/// leading to the node of every file that `v`'s file re-exports from (other
/// than itself), each once, in edge order.
pub open spec fn is_re_export_graph(tuples: Seq<ReExportTuple>, adj: Seq<Vec<usize>>) -> bool {
    &&& adj.len() == re_export_nodes(tuples).len()
    &&& forall|v: int|
        0 <= v < adj.len() ==> (#[trigger] adj[v])@ == adjacency_of(
            tuples,
            node_numbering(tuples),
            v as usize,
            tuples.len() as int,
        )
}

/// Every re-export edge between two different files leads from the
/// component of its barrel into that component or an earlier one.
pub open spec fn re_exports_point_back(tuples: Seq<ReExportTuple>, sccs: Seq<Vec<usize>>) -> bool {
    forall|t: int, k: int|
        0 <= t < tuples.len() && 0 <= k < sccs.len() && tuples[t].barrel != tuples[t].source
            && #[trigger] sccs[k]@.contains(node_of(re_export_nodes(tuples), #[trigger] tuples[t].barrel) as usize)
            ==> emitted_within(sccs, k, node_of(re_export_nodes(tuples), tuples[t].source) as usize)
}

/// The files of the edges are nodes.
proof fn lemma_edge_files_are_nodes(tuples: Seq<ReExportTuple>, t: int)
    requires
        0 <= t < tuples.len(),
    ensures
        0 <= node_of(re_export_nodes(tuples), tuples[t].barrel) < re_export_nodes(tuples).len(),
        re_export_nodes(tuples)[node_of(re_export_nodes(tuples), tuples[t].barrel)] == tuples[t].barrel,
        0 <= node_of(re_export_nodes(tuples), tuples[t].source) < re_export_nodes(tuples).len(),
        re_export_nodes(tuples)[node_of(re_export_nodes(tuples), tuples[t].source)] == tuples[t].source,
{
    lemma_endpoints(tuples, tuples.len() as int);
    lemma_dedup(endpoints(tuples, tuples.len() as int));
    assert(endpoints(tuples, tuples.len() as int).contains(tuples[t].barrel));
    assert(endpoints(tuples, tuples.len() as int).contains(tuples[t].source));
    assert(re_export_nodes(tuples).contains(tuples[t].barrel));
    assert(re_export_nodes(tuples).contains(tuples[t].source));
}

/// The successors of a barrel's node include the node of every file it
/// re-exports from (other than itself).
proof fn lemma_adjacency_has_edge(tuples: Seq<ReExportTuple>, index: Map<u32, usize>, t: int, k: int)
    requires
        0 <= t < k <= tuples.len(),
        tuples[t].barrel != tuples[t].source,
    ensures
        adjacency_of(tuples, index, index[tuples[t].barrel], k).contains(index[tuples[t].source]),
    decreases k,
{
    let v = index[tuples[t].barrel];
    let to = index[tuples[t].source];
    let prev = adjacency_of(tuples, index, v, k - 1);
    if k - 1 > t {
        lemma_adjacency_has_edge(tuples, index, t, k - 1);
        let i = choose|i: int| 0 <= i < prev.len() && prev[i] == to;
        assert(adjacency_of(tuples, index, v, k)[i] == to);
    } else if prev.contains(to) {
    } else {
        assert(adjacency_of(tuples, index, v, k)[prev.len() as int] == to);
    }
}

/// The component of the node of file `f`.
pub open spec fn file_component(tuples: Seq<ReExportTuple>, sccs: Seq<Vec<usize>>, f: u32) -> int {
    component_of(sccs, node_of(re_export_nodes(tuples), f) as usize)
}

/// An edge between two different files leads from the component of its
/// barrel to the same or an earlier one.
proof fn lemma_edge_steps_back(tuples: Seq<ReExportTuple>, sccs: Seq<Vec<usize>>, t: int)
    requires
        re_export_nodes(tuples).len() < usize::MAX,
        partitions_nodes(sccs, re_export_nodes(tuples).len() as usize),
        re_exports_point_back(tuples, sccs),
        0 <= t < tuples.len(),
        tuples[t].barrel != tuples[t].source,
    ensures
        0 <= file_component(tuples, sccs, tuples[t].barrel) < sccs.len(),
        sccs[file_component(tuples, sccs, tuples[t].barrel)]@.contains(
            node_of(re_export_nodes(tuples), tuples[t].barrel) as usize,
        ),
        file_component(tuples, sccs, tuples[t].source) <= file_component(tuples, sccs, tuples[t].barrel),
{
    let nodes = re_export_nodes(tuples);
    let n = nodes.len() as usize;
    lemma_edge_files_are_nodes(tuples, t);
    let b = node_of(nodes, tuples[t].barrel) as usize;
    let s2 = node_of(nodes, tuples[t].source) as usize;
    lemma_component_of(sccs, n, b);
    lemma_component_of(sccs, n, s2);
    let kb = component_of(sccs, b);
    assert(sccs[kb]@.contains(node_of(re_export_nodes(tuples), tuples[t].barrel) as usize));
    assert(emitted_within(sccs, kb, s2));
    let k2 = choose|k2: int| 0 <= k2 <= kb && #[trigger] sccs[k2]@.contains(s2);
    lemma_component_unique(sccs, n, s2, k2, component_of(sccs, s2));
}

/// Along the cycle's edges the component never moves later.
proof fn lemma_cycle_steps_back(tuples: Seq<ReExportTuple>, sccs: Seq<Vec<usize>>, cycle: Seq<int>, i: int, j: int)
    requires
        re_export_nodes(tuples).len() < usize::MAX,
        partitions_nodes(sccs, re_export_nodes(tuples).len() as usize),
        re_exports_point_back(tuples, sccs),
        0 <= i <= j < cycle.len(),
        forall|i2: int|
            0 <= i2 < cycle.len() ==> 0 <= #[trigger] cycle[i2] < tuples.len() && tuples[cycle[i2]].barrel
                != tuples[cycle[i2]].source,
        forall|i2: int| 0 <= i2 < cycle.len() - 1 ==> tuples[#[trigger] cycle[i2]].source == tuples[cycle[i2 + 1]].barrel,
    ensures
        file_component(tuples, sccs, tuples[cycle[j]].barrel) <= file_component(tuples, sccs, tuples[cycle[i]].barrel),
    decreases j - i,
{
    if i < j {
        lemma_cycle_steps_back(tuples, sccs, cycle, i, j - 1);
        assert(0 <= cycle[j - 1] < tuples.len());
        assert(tuples[cycle[j - 1]].source == tuples[cycle[j]].barrel);
        lemma_edge_steps_back(tuples, sccs, cycle[j - 1]);
    }
}

/// Files on a common cycle of re-export edges are reported in one
/// component. `cycle` lists edges (positions in `tuples`) that each
/// re-export from a file other than their barrel, each edge's source being
/// the next one's barrel and the last one's source the first one's barrel:
/// one component holds the nodes of all their barrels.
pub proof fn lemma_re_export_cycle_in_one_component(
    tuples: Seq<ReExportTuple>,
    sccs: Seq<Vec<usize>>,
    cycle: Seq<int>,
)
    requires
        re_export_nodes(tuples).len() < usize::MAX,
        partitions_nodes(sccs, re_export_nodes(tuples).len() as usize),
        re_exports_point_back(tuples, sccs),
        cycle.len() > 0,
        forall|i: int|
            0 <= i < cycle.len() ==> 0 <= #[trigger] cycle[i] < tuples.len() && tuples[cycle[i]].barrel
                != tuples[cycle[i]].source,
        forall|i: int| 0 <= i < cycle.len() - 1 ==> tuples[#[trigger] cycle[i]].source == tuples[cycle[i + 1]].barrel,
        tuples[cycle.last()].source == tuples[cycle[0]].barrel,
    ensures
        exists|k: int|
            #![trigger sccs[k]]
            0 <= k < sccs.len() && forall|i: int|
                0 <= i < cycle.len() ==> #[trigger] sccs[k]@.contains(
                    node_of(re_export_nodes(tuples), tuples[cycle[i]].barrel) as usize,
                ),
{
    let last = cycle.len() - 1;
    let k = file_component(tuples, sccs, tuples[cycle[0]].barrel);
    assert(0 <= cycle[0] < tuples.len());
    assert(0 <= cycle[last] < tuples.len());
    lemma_edge_steps_back(tuples, sccs, cycle[0]);
    lemma_edge_steps_back(tuples, sccs, cycle[last]);
    lemma_cycle_steps_back(tuples, sccs, cycle, 0, last);
    assert forall|i: int| 0 <= i < cycle.len() implies #[trigger] sccs[k]@.contains(
        node_of(re_export_nodes(tuples), tuples[cycle[i]].barrel) as usize,
    ) by {
        assert(0 <= cycle[i] < tuples.len());
        lemma_cycle_steps_back(tuples, sccs, cycle, 0, i);
        lemma_cycle_steps_back(tuples, sccs, cycle, i, last);
        lemma_edge_steps_back(tuples, sccs, cycle[i]);
    }
    assert(sccs[k] == sccs[k]);
}

/// `cycles` are the re-export cycles of the edges `tuples`: for the
/// re-export graph of the edges and its strongly connected components (a
/// partition of its nodes in reverse topological order, each component's
/// members reaching one another), a self-loop for each barrel re-exporting
/// from itself, then a cycle for each component of two or more files.
pub open spec fn are_re_export_cycles(
    tuples: Seq<ReExportTuple>,
    displays: Seq<String>,
    cycles: Seq<GraphReExportCycle>,
) -> bool {
    exists|sccs: Seq<Vec<usize>>, adj: Seq<Vec<usize>>|
        #![trigger partitions_nodes(sccs, re_export_nodes(tuples).len() as usize), is_re_export_graph(tuples, adj)]
        {
            &&& is_re_export_graph(tuples, adj)
            &&& partitions_nodes(sccs, re_export_nodes(tuples).len() as usize)
            &&& edges_point_back(sccs, adj)
            &&& components_connected(sccs, adj)
            &&& re_exports_point_back(tuples, sccs)
            &&& cycles_view(cycles) == reported_cycles(tuples, sccs, displays)
        }
}

/// The re-export cycles of the edges `re_export_info`: a self-loop for each
/// barrel re-exporting from itself (first appearance order), then, over the
/// strongly connected components of the remaining edges, one cycle per
/// component of two or more files, its files sorted by display text.
/// `displays[i]` is the display form of the path of file `i`.
pub fn find_re_export_cycles(re_export_info: &Vec<ReExportTuple>, displays: &Vec<String>) -> (r: Vec<
    GraphReExportCycle,
>)
    requires
        2 * re_export_info@.len() < u32::MAX,
    ensures
        are_re_export_cycles(re_export_info@, displays@, r@),
{
    let ghost tuples = re_export_info@;
    let (node_index, nodes) = build_re_export_node_index(re_export_info);
    let n = nodes.len();
    proof {
        lemma_endpoints(tuples, tuples.len() as int);
        lemma_dedup(endpoints(tuples, tuples.len() as int));
        lemma_dedup_len(endpoints(tuples, tuples.len() as int));
        assert forall|f: u32| #[trigger] node_index@.contains_key(f) implies node_index@[f] < n by {
            let i = choose|i: int| 0 <= i < nodes@.len() && nodes@[i] == f;
            assert(node_index@[nodes@[i]] == i);
        }
        assert forall|a: u32, b: u32|
            node_index@.contains_key(a) && node_index@.contains_key(b) && #[trigger] node_index@[a]
                == #[trigger] node_index@[b] implies a == b by {
            let i = choose|i: int| 0 <= i < nodes@.len() && nodes@[i] == a;
            let j = choose|j: int| 0 <= j < nodes@.len() && nodes@[j] == b;
            assert(node_index@[nodes@[i]] == i);
            assert(node_index@[nodes@[j]] == j);
        }
        assert forall|k: int| 0 <= k < tuples.len() implies node_index@.contains_key((#[trigger] tuples[k]).barrel)
            && node_index@.contains_key(tuples[k].source) by {
            assert(endpoints(tuples, tuples.len() as int).contains(tuples[k].barrel));
        }
    }
    let (adj, loops) = build_re_export_adjacency(re_export_info, &node_index, n);
    let mut cycles: Vec<GraphReExportCycle> = Vec::new();
    let mut i: usize = 0;
    while i < loops.len()
        invariant
            i <= loops@.len(),
            cycles_view(cycles@) == loops@.subrange(0, i as int).map_values(|b: u32| self_loop_view(b, displays@)),
        decreases loops@.len() - i,
    {
        let c = build_self_loop_cycle(loops[i], displays);
        let ghost before = cycles@;
        cycles.push(c);
        proof {
            assert(cycle_view(c).0 =~= seq![display_bytes(displays@, loops@[i as int])]);
            assert(cycles_view(cycles@) =~= cycles_view(before).push(self_loop_view(loops@[i as int], displays@)));
            assert(loops@.subrange(0, i + 1) =~= loops@.subrange(0, i as int).push(loops@[i as int]));
        }
        i = i + 1;
    }
    assert(loops@.subrange(0, i as int) =~= loops@);
    let ghost head = cycles_view(cycles@);
    let sccs = tarjan_scc(n, adj.as_slice());
    proof {
        lemma_re_exports_point_back(tuples, node_index@, nodes@, adj@, sccs@);
    }
    let mut k: usize = 0;
    while k < sccs.len()
        invariant
            k <= sccs@.len(),
            partitions_nodes(sccs@, n),
            n == nodes@.len(),
            cycles_view(cycles@) == head + component_cycles(sccs@.subrange(0, k as int), nodes@, displays@),
        decreases sccs@.len() - k,
    {
        proof {
            assert(sccs@.subrange(0, k + 1).drop_last() =~= sccs@.subrange(0, k as int));
            assert(sccs@.subrange(0, k + 1).last() == sccs@[k as int]);
        }
        if sccs[k].len() >= 2 {
            proof {
                lemma_component_within(sccs@, n, k as int);
            }
            let c = build_multi_node_cycle(&sccs[k], &nodes, displays);
            let ghost before = cycles@;
            cycles.push(c);
            proof {
                let e = sorted_entries(component_entries(sccs@[k as int]@, nodes@, displays@));
                lemma_sorted_entries_len(component_entries(sccs@[k as int]@, nodes@, displays@));
                assert(cycle_view(c).0 =~= e.map_values(|p: (Seq<u8>, u32)| p.0));
                assert forall|j: int| 0 <= j < e.len() implies #[trigger] c.file_ids@[j] == e[j].1 by {
                    assert(j < sccs@[k as int]@.len());
                    assert((encode_utf8(c.files@[j]@), c.file_ids@[j]) == e[j]);
                }
                assert(cycle_view(c).1 =~= e.map_values(|p: (Seq<u8>, u32)| p.1));
                assert(cycles_view(cycles@) =~= cycles_view(before).push(component_view(sccs@[k as int]@, nodes@, displays@)));
            }
        }
        k = k + 1;
    }
    assert(sccs@.subrange(0, k as int) =~= sccs@);
    assert(partitions_nodes(sccs@, re_export_nodes(tuples).len() as usize));
    assert(re_exports_point_back(tuples, sccs@));
    proof {
        assert forall|f: u32| #[trigger] node_index@.contains_key(f) implies node_index@[f] == node_numbering(tuples)[f] by {
            lemma_index_is_node_of(nodes@, node_index@, f);
        }
        assert(node_index@ =~= node_numbering(tuples));
        assert(is_re_export_graph(tuples, adj@));
    }
    cycles
}

/// The node index numbers each file by its node.
proof fn lemma_index_is_node_of(nodes: Seq<u32>, index: Map<u32, usize>, f: u32)
    requires
        nodes.no_duplicates(),
        forall|i: int| 0 <= i < nodes.len() ==> index[#[trigger] nodes[i]] == i,
        nodes.contains(f),
    ensures
        index[f] == node_of(nodes, f),
        0 <= node_of(nodes, f) < nodes.len(),
{
    let i = choose|i: int| 0 <= i < nodes.len() && nodes[i] == f;
    let j = node_of(nodes, f);
    assert(index[nodes[i]] == i);
    assert(nodes[j] == f);
}

/// Components in reverse topological order over the adjacency lists make
/// the re-export edges point back.
proof fn lemma_re_exports_point_back(
    tuples: Seq<ReExportTuple>,
    index: Map<u32, usize>,
    nodes: Seq<u32>,
    adj: Seq<Vec<usize>>,
    sccs: Seq<Vec<usize>>,
)
    requires
        nodes == re_export_nodes(tuples),
        nodes.no_duplicates(),
        forall|i: int| 0 <= i < nodes.len() ==> index[#[trigger] nodes[i]] == i,
        adj.len() == nodes.len(),
        forall|v: int| 0 <= v < nodes.len() ==> (#[trigger] adj[v])@ == adjacency_of(
            tuples,
            index,
            v as usize,
            tuples.len() as int,
        ),
        edges_point_back(sccs, adj),
    ensures
        re_exports_point_back(tuples, sccs),
{
    assert forall|t: int, k: int|
        0 <= t < tuples.len() && 0 <= k < sccs.len() && tuples[t].barrel != tuples[t].source
            && #[trigger] sccs[k]@.contains(node_of(re_export_nodes(tuples), #[trigger] tuples[t].barrel) as usize)
            implies emitted_within(sccs, k, node_of(re_export_nodes(tuples), tuples[t].source) as usize) by {
        lemma_edge_files_are_nodes(tuples, t);
        assert(nodes.contains(tuples[t].barrel));
        assert(nodes.contains(tuples[t].source));
        lemma_index_is_node_of(nodes, index, tuples[t].barrel);
        lemma_index_is_node_of(nodes, index, tuples[t].source);
        let v = index[tuples[t].barrel];
        let to = index[tuples[t].source];
        lemma_adjacency_has_edge(tuples, index, t, tuples.len() as int);
        assert(adj[v as int]@ == adjacency_of(tuples, index, v, tuples.len() as int));
        let j = choose|j: int| 0 <= j < adj[v as int]@.len() && adj[v as int]@[j] == to;
        let i = choose|i: int| 0 <= i < sccs[k]@.len() && sccs[k]@[i] == v;
        assert(emitted_within(sccs, k, adj[sccs[k]@[i] as int]@[j]));
    }
}

/// Every member of component `k` is a node below `n`.
proof fn lemma_component_within(sccs: Seq<Vec<usize>>, n: usize, k: int)
    requires
        partitions_nodes(sccs, n),
        0 <= k < sccs.len(),
    ensures
        forall|j: int| 0 <= j < sccs[k]@.len() ==> #[trigger] sccs[k]@[j] < n,
{
    assert forall|j: int| 0 <= j < sccs[k]@.len() implies #[trigger] sccs[k]@[j] < n by {
        lemma_flatten_contains(sccs, k, j);
        let i = choose|i: int| 0 <= i < flatten(sccs).len() && flatten(sccs)[i] == sccs[k]@[j];
        assert(flatten(sccs)[i] < n);
    }
}

/// A member of component `k` appears in the concatenation.
proof fn lemma_flatten_contains(sccs: Seq<Vec<usize>>, k: int, j: int)
    requires
        0 <= k < sccs.len(),
        0 <= j < sccs[k]@.len(),
    ensures
        flatten(sccs).contains(sccs[k]@[j]),
    decreases sccs.len(),
{
    let p = sccs.drop_last();
    if k == sccs.len() - 1 {
        assert(flatten(sccs)[flatten(p).len() + j] == sccs[k]@[j]);
    } else {
        lemma_flatten_contains(p, k, j);
        let i = choose|i: int| 0 <= i < flatten(p).len() && flatten(p)[i] == p[k]@[j];
        assert(flatten(sccs)[i] == flatten(p)[i]);
    }
}

} // verus!
