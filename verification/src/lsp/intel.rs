//! One-line summaries of a React component's usage, shown as its code lens
//! title and in its hover: where it is rendered, how many props it declares
//! and which hooks it uses, e.g.
//! `rendered 12x (8 parents) · 5 props · 9 hooks (4 state, 3 effect, 2 custom)`.
//! Segments whose count is zero are left out; nouns are pluralized unless the
//! count is 1.

use vstd::prelude::*;
use vstd::string::StringSliceAdditionalSpecFns;
use vstd::utf8::{encode_utf8, valid_utf8};

use crate::lsp::code_lens::counted_noun;
use crate::text;
use crate::text::{decimal, SPACE};

verus! {

/// How many hooks of each kind a component calls.
#[derive(Debug, Clone, Copy)]
pub struct ReactHookSummary {
    pub state: u16,
    pub effect: u16,
    pub memo: u16,
    pub callback: u16,
    pub custom: u16,
}

/// What is known of a React component's usage.
#[derive(Debug, Clone, Copy)]
pub struct ReactComponentIntel {
    /// JSX sites that render the component.
    pub render_sites: u32,
    /// Distinct components among those sites.
    pub distinct_parents: u32,
    /// Declared props.
    pub prop_count: u16,
    pub hooks: ReactHookSummary,
}

/// The parts joined by `sep`.
pub open spec fn join(parts: Seq<Seq<u8>>, sep: Seq<u8>) -> Seq<u8>
    decreases parts.len(),
{
    if parts.len() == 0 {
        seq![]
    } else if parts.len() == 1 {
        parts[0]
    } else {
        join(parts.drop_last(), sep) + sep + parts.last()
    }
}

/// `"<count> <label>"` when the count is not zero, else nothing.
pub open spec fn hook_kind(count: u16, label: Seq<u8>) -> Seq<Seq<u8>> {
    if count > 0 {
        seq![decimal(count as nat) + seq![SPACE] + label]
    } else {
        seq![]
    }
}

/// The non-zero hook kinds, in the order state, effect, memo, callback,
/// custom.
pub open spec fn hook_breakdown(h: ReactHookSummary) -> Seq<Seq<u8>> {
    hook_kind(h.state, "state".spec_bytes()) + hook_kind(h.effect, "effect".spec_bytes()) + hook_kind(
        h.memo,
        "memo".spec_bytes(),
    ) + hook_kind(h.callback, "callback".spec_bytes()) + hook_kind(h.custom, "custom".spec_bytes())
}

/// All hooks of the component.
pub open spec fn hook_total(h: ReactHookSummary) -> nat {
    (h.state + h.effect + h.memo + h.callback + h.custom) as nat
}

/// `N hooks (a state, b effect, ...)`, or nothing when the component calls
/// no hooks.
pub open spec fn hook_segment(h: ReactHookSummary) -> Option<Seq<u8>> {
    if hook_total(h) == 0 {
        None
    } else {
        let head = counted_noun(hook_total(h) as u32, "hook".spec_bytes());
        let parts = hook_breakdown(h);
        if parts.len() == 0 {
            Some(head)
        } else {
            Some(head + " (".spec_bytes() + join(parts, ", ".spec_bytes()) + ")".spec_bytes())
        }
    }
}

/// The non-empty segments: `rendered Nx (M parents)`, `N props`, the hooks.
pub open spec fn intel_segments(i: ReactComponentIntel) -> Seq<Seq<u8>> {
    (if i.render_sites > 0 {
        seq![
            "rendered ".spec_bytes() + decimal(i.render_sites as nat) + "x (".spec_bytes() + counted_noun(
                i.distinct_parents,
                "parent".spec_bytes(),
            ) + ")".spec_bytes(),
        ]
    } else {
        seq![]
    }) + (if i.prop_count > 0 {
        seq![counted_noun(i.prop_count as u32, "prop".spec_bytes())]
    } else {
        seq![]
    }) + match hook_segment(i.hooks) {
        Some(h) => seq![h],
        None => seq![],
    }
}

/// The segments joined by ` · `, or `fallback` when there are none.
pub open spec fn intel_line(i: ReactComponentIntel, fallback: Seq<u8>) -> Seq<u8> {
    let s = intel_segments(i);
    if s.len() == 0 {
        fallback
    } else {
        join(s, " · ".spec_bytes())
    }
}

// ---------------------------------------------------------------------------
// UTF-8 validity of the pieces
// ---------------------------------------------------------------------------

/// Every part is valid UTF-8.
pub open spec fn all_valid(parts: Seq<Seq<u8>>) -> bool {
    forall|k: int| 0 <= k < parts.len() ==> valid_utf8(#[trigger] parts[k])
}

proof fn lemma_join_valid(parts: Seq<Seq<u8>>, sep: Seq<u8>)
    requires
        all_valid(parts),
        valid_utf8(sep),
    ensures
        valid_utf8(join(parts, sep)),
    decreases parts.len(),
{
    if parts.len() == 0 {
        assert(valid_utf8(Seq::<u8>::empty())) by {
            reveal_with_fuel(valid_utf8, 1);
        }
    } else if parts.len() > 1 {
        lemma_join_valid(parts.drop_last(), sep);
        assert(valid_utf8(parts[parts.len() - 1]));
        vstd::utf8::valid_utf8_concat(join(parts.drop_last(), sep), sep);
        vstd::utf8::valid_utf8_concat(join(parts.drop_last(), sep) + sep, parts.last());
    } else {
        assert(valid_utf8(parts[0]));
    }
}

proof fn lemma_literal_valid(s: &str)
    ensures
        valid_utf8(s.spec_bytes()),
{
    vstd::utf8::encode_utf8_valid_utf8(s@);
}

proof fn lemma_counted_noun_valid(count: u32, noun: Seq<u8>)
    requires
        valid_utf8(noun),
    ensures
        valid_utf8(counted_noun(count, noun)),
{
    let d = decimal(count as nat);
    text::lemma_decimal_valid(count as nat);
    text::lemma_ascii_byte_valid(SPACE);
    vstd::utf8::valid_utf8_concat(d, seq![SPACE]);
    vstd::utf8::valid_utf8_concat(d + seq![SPACE], noun);
    if count != 1 {
        text::lemma_ascii_byte_valid(text::LOWER_S);
        vstd::utf8::valid_utf8_concat(d + seq![SPACE] + noun, seq![text::LOWER_S]);
    } else {
        assert(d + seq![SPACE] + noun + Seq::<u8>::empty() =~= d + seq![SPACE] + noun);
    }
}

proof fn lemma_hook_kind_valid(count: u16, label: &str)
    ensures
        all_valid(hook_kind(count, label.spec_bytes())),
{
    if count > 0 {
        let d = decimal(count as nat);
        text::lemma_decimal_valid(count as nat);
        text::lemma_ascii_byte_valid(SPACE);
        lemma_literal_valid(label);
        vstd::utf8::valid_utf8_concat(d, seq![SPACE]);
        vstd::utf8::valid_utf8_concat(d + seq![SPACE], label.spec_bytes());
        assert(hook_kind(count, label.spec_bytes())[0] == d + seq![SPACE] + label.spec_bytes());
    }
}

proof fn lemma_concat_all_valid(a: Seq<Seq<u8>>, b: Seq<Seq<u8>>)
    requires
        all_valid(a),
        all_valid(b),
    ensures
        all_valid(a + b),
{
    assert forall|k: int| 0 <= k < (a + b).len() implies valid_utf8(#[trigger] (a + b)[k]) by {
        if k < a.len() {
            assert((a + b)[k] == a[k]);
        } else {
            assert((a + b)[k] == b[k - a.len()]);
        }
    }
}

proof fn lemma_hook_segment_valid(h: ReactHookSummary)
    ensures
        hook_segment(h) matches Some(s) ==> valid_utf8(s),
{
    if hook_total(h) > 0 {
        lemma_literal_valid("hook");
        lemma_literal_valid(" (");
        lemma_literal_valid(", ");
        lemma_literal_valid(")");
        lemma_counted_noun_valid(hook_total(h) as u32, "hook".spec_bytes());
        lemma_hook_kind_valid(h.state, "state");
        lemma_hook_kind_valid(h.effect, "effect");
        lemma_hook_kind_valid(h.memo, "memo");
        lemma_hook_kind_valid(h.callback, "callback");
        lemma_hook_kind_valid(h.custom, "custom");
        let a = hook_kind(h.state, "state".spec_bytes());
        let b = hook_kind(h.effect, "effect".spec_bytes());
        let c = hook_kind(h.memo, "memo".spec_bytes());
        let d = hook_kind(h.callback, "callback".spec_bytes());
        let e = hook_kind(h.custom, "custom".spec_bytes());
        lemma_concat_all_valid(a, b);
        lemma_concat_all_valid(a + b, c);
        lemma_concat_all_valid(a + b + c, d);
        lemma_concat_all_valid(a + b + c + d, e);
        let parts = hook_breakdown(h);
        lemma_join_valid(parts, ", ".spec_bytes());
        let head = counted_noun(hook_total(h) as u32, "hook".spec_bytes());
        vstd::utf8::valid_utf8_concat(head, " (".spec_bytes());
        vstd::utf8::valid_utf8_concat(head + " (".spec_bytes(), join(parts, ", ".spec_bytes()));
        vstd::utf8::valid_utf8_concat(head + " (".spec_bytes() + join(parts, ", ".spec_bytes()), ")".spec_bytes());
    }
}

proof fn lemma_intel_line_valid(i: ReactComponentIntel, fallback: Seq<u8>)
    requires
        valid_utf8(fallback),
    ensures
        valid_utf8(intel_line(i, fallback)),
{
    let s = intel_segments(i);
    if s.len() > 0 {
        lemma_literal_valid("rendered ");
        lemma_literal_valid("x (");
        lemma_literal_valid(")");
        lemma_literal_valid("parent");
        lemma_literal_valid("prop");
        lemma_literal_valid(" · ");
        lemma_counted_noun_valid(i.distinct_parents, "parent".spec_bytes());
        lemma_counted_noun_valid(i.prop_count as u32, "prop".spec_bytes());
        lemma_hook_segment_valid(i.hooks);
        let a: Seq<Seq<u8>> = if i.render_sites > 0 {
            let d = decimal(i.render_sites as nat);
            text::lemma_decimal_valid(i.render_sites as nat);
            let p = counted_noun(i.distinct_parents, "parent".spec_bytes());
            vstd::utf8::valid_utf8_concat("rendered ".spec_bytes(), d);
            vstd::utf8::valid_utf8_concat("rendered ".spec_bytes() + d, "x (".spec_bytes());
            vstd::utf8::valid_utf8_concat("rendered ".spec_bytes() + d + "x (".spec_bytes(), p);
            vstd::utf8::valid_utf8_concat("rendered ".spec_bytes() + d + "x (".spec_bytes() + p, ")".spec_bytes());
            seq!["rendered ".spec_bytes() + d + "x (".spec_bytes() + p + ")".spec_bytes()]
        } else {
            seq![]
        };
        let b: Seq<Seq<u8>> = if i.prop_count > 0 {
            seq![counted_noun(i.prop_count as u32, "prop".spec_bytes())]
        } else {
            seq![]
        };
        let c: Seq<Seq<u8>> = match hook_segment(i.hooks) {
            Some(h) => seq![h],
            None => seq![],
        };
        assert(all_valid(a));
        assert(all_valid(b));
        assert(all_valid(c));
        lemma_concat_all_valid(a, b);
        lemma_concat_all_valid(a + b, c);
        assert(s =~= a + b + c);
        lemma_join_valid(s, " · ".spec_bytes());
    }
}

// ---------------------------------------------------------------------------
// Building the text
// ---------------------------------------------------------------------------

/// The bytes of each part.
pub open spec fn part_views(parts: Seq<Vec<u8>>) -> Seq<Seq<u8>> {
    parts.map_values(|p: Vec<u8>| p@)
}

/// Append the UTF-8 bytes of `s`.
fn push_str(out: &mut Vec<u8>, s: &str)
    ensures
        final(out)@ == old(out)@ + s.spec_bytes(),
{
    let b = s.as_bytes();
    text::push_range(out, b, 0, b.len());
    assert(b@.subrange(0, b@.len() as int) =~= b@);
}

/// The parts joined by `sep`.
fn join_parts(parts: &Vec<Vec<u8>>, sep: &str) -> (r: Vec<u8>)
    ensures
        r@ == join(part_views(parts@), sep.spec_bytes()),
{
    let mut out: Vec<u8> = Vec::new();
    let mut k: usize = 0;
    while k < parts.len()
        invariant
            k <= parts@.len(),
            out@ == join(part_views(parts@).subrange(0, k as int), sep.spec_bytes()),
        decreases parts@.len() - k,
    {
        let ghost pre = part_views(parts@).subrange(0, k as int);
        let ghost next = part_views(parts@).subrange(0, k + 1);
        proof {
            assert(next.drop_last() =~= pre);
            assert(next.last() == parts@[k as int]@);
        }
        if k > 0 {
            push_str(&mut out, sep);
        }
        let p = parts[k].as_slice();
        text::push_range(&mut out, p, 0, p.len());
        proof {
            assert(p@.subrange(0, p@.len() as int) =~= p@);
            if k == 0 {
                assert(next.len() == 1);
                assert(out@ =~= next[0]);
            }
        }
        k = k + 1;
    }
    assert(part_views(parts@).subrange(0, k as int) =~= part_views(parts@));
    out
}

/// `"<count> <label>"` pushed onto `parts` when the count is not zero.
fn push_hook_kind(parts: &mut Vec<Vec<u8>>, count: u16, label: &str)
    ensures
        part_views(final(parts)@) == part_views(old(parts)@) + hook_kind(count, label.spec_bytes()),
{
    if count > 0 {
        let mut part: Vec<u8> = Vec::new();
        text::push_decimal(&mut part, count as u32);
        part.push(SPACE);
        push_str(&mut part, label);
        assert(part@ =~= decimal(count as nat) + seq![SPACE] + label.spec_bytes());
        let ghost before = parts@;
        parts.push(part);
        proof {
            assert(part_views(parts@) =~= part_views(before) + hook_kind(count, label.spec_bytes()));
        }
    } else {
        assert(part_views(parts@) =~= part_views(parts@) + hook_kind(count, label.spec_bytes()));
    }
}

/// The bytes of the hook segment.
fn hook_segment_bytes(hooks: &ReactHookSummary) -> (r: Option<Vec<u8>>)
    ensures
        r is Some == hook_segment(*hooks) is Some,
        r matches Some(b) ==> b@ == hook_segment(*hooks)->0,
{
    let total: u32 = hooks.state as u32 + hooks.effect as u32 + hooks.memo as u32 + hooks.callback as u32
        + hooks.custom as u32;
    if total == 0 {
        return None;
    }
    let mut parts: Vec<Vec<u8>> = Vec::new();
    assert(part_views(parts@) =~= Seq::<Seq<u8>>::empty());
    push_hook_kind(&mut parts, hooks.state, "state");
    push_hook_kind(&mut parts, hooks.effect, "effect");
    push_hook_kind(&mut parts, hooks.memo, "memo");
    push_hook_kind(&mut parts, hooks.callback, "callback");
    push_hook_kind(&mut parts, hooks.custom, "custom");
    let head = crate::lsp::code_lens::pluralize(total, "hook");
    let mut out: Vec<u8> = Vec::new();
    push_str(&mut out, head.as_str());
    if parts.len() == 0 {
        return Some(out);
    }
    push_str(&mut out, " (");
    let joined = join_parts(&parts, ", ");
    let j = joined.as_slice();
    text::push_range(&mut out, j, 0, j.len());
    push_str(&mut out, ")");
    proof {
        assert(j@.subrange(0, j@.len() as int) =~= j@);
    }
    Some(out)
}

/// The bytes of the segments joined by ` · `, or `fallback` when none.
fn intel_line_bytes(intel: &ReactComponentIntel, fallback: &str) -> (r: Vec<u8>)
    ensures
        r@ == intel_line(*intel, fallback.spec_bytes()),
{
    let mut segments: Vec<Vec<u8>> = Vec::new();
    let ghost want = intel_segments(*intel);
    if intel.render_sites > 0 {
        let parents = crate::lsp::code_lens::pluralize(intel.distinct_parents, "parent");
        let mut seg: Vec<u8> = Vec::new();
        push_str(&mut seg, "rendered ");
        text::push_decimal(&mut seg, intel.render_sites);
        push_str(&mut seg, "x (");
        push_str(&mut seg, parents.as_str());
        push_str(&mut seg, ")");
        segments.push(seg);
    }
    if intel.prop_count > 0 {
        let props = crate::lsp::code_lens::pluralize(intel.prop_count as u32, "prop");
        let mut seg: Vec<u8> = Vec::new();
        push_str(&mut seg, props.as_str());
        segments.push(seg);
    }
    match hook_segment_bytes(&intel.hooks) {
        Some(h) => segments.push(h),
        None => {},
    }
    proof {
        assert(part_views(segments@) =~= want);
    }
    if segments.len() == 0 {
        let mut out: Vec<u8> = Vec::new();
        push_str(&mut out, fallback);
        assert(out@ =~= fallback.spec_bytes());
        return out;
    }
    join_parts(&segments, " · ")
}

/// A string from bytes that are valid UTF-8.
fn string_of(bytes: Vec<u8>) -> (r: String)
    requires
        valid_utf8(bytes@),
    ensures
        encode_utf8(r@) == bytes@,
{
    match text::utf8_string(bytes) {
        Some(st) => st,
        None => String::new(),
    }
}

/// The hook segment of a code lens: `N hooks (a state, b effect, ...)`, or
/// `None` when the component calls no hooks.
pub fn react_hook_segment(hooks: &ReactHookSummary) -> (r: Option<String>)
    ensures
        r is Some == hook_segment(*hooks) is Some,
        r matches Some(st) ==> encode_utf8(st@) == hook_segment(*hooks)->0,
{
    match hook_segment_bytes(hooks) {
        Some(b) => {
            proof {
                lemma_hook_segment_valid(*hooks);
            }
            Some(string_of(b))
        },
        None => None,
    }
}

/// The hook segment of a hover, worded as the code lens's.
pub fn intel_hook_segment(hooks: &ReactHookSummary) -> (r: Option<String>)
    ensures
        r is Some == hook_segment(*hooks) is Some,
        r matches Some(st) ==> encode_utf8(st@) == hook_segment(*hooks)->0,
{
    react_hook_segment(hooks)
}

/// The code lens title of a component: its non-empty segments joined by
/// ` · `, or `component` when it is rendered nowhere and has no props and
/// no hooks.
pub fn react_component_lens_title(intel: &ReactComponentIntel) -> (r: String)
    ensures
        encode_utf8(r@) == intel_line(*intel, "component".spec_bytes()),
{
    let b = intel_line_bytes(intel, "component");
    proof {
        lemma_literal_valid("component");
        lemma_intel_line_valid(*intel, "component".spec_bytes());
    }
    string_of(b)
}

/// The summary line of a component's hover: its non-empty segments joined
/// by ` · `, or `rendered nowhere, no props, no hooks`.
pub fn react_component_summary(intel: &ReactComponentIntel) -> (r: String)
    ensures
        encode_utf8(r@) == intel_line(*intel, "rendered nowhere, no props, no hooks".spec_bytes()),
{
    let b = intel_line_bytes(intel, "rendered nowhere, no props, no hooks");
    proof {
        lemma_literal_valid("rendered nowhere, no props, no hooks");
        lemma_intel_line_valid(*intel, "rendered nowhere, no props, no hooks".spec_bytes());
    }
    string_of(b)
}

} // verus!
