//! Per-function cyclomatic and cognitive complexity, accumulated while a
//! syntax walk reports the constructs it meets.
//!
//! **Cyclomatic complexity** (McCabe): 1 + the decision points of a function:
//! `if`, `for`, `while`, `do`, `case`, `catch`, `?:`, `&&`, `||`, `??`, the
//! logical assignments and `?.`.
//!
//! **Cognitive complexity** (SonarSource): structural increments weighted by
//! nesting depth; a run of one boolean operator counts once, each change of
//! operator again; `?.` does not count.
//!
//! **React folding**: a JSX element nested past [`JSX_DEPTH_FLOOR`] adds the
//! nesting penalty of a nested construct (and deepens the nesting of what it
//! renders); a hook call in a component or custom hook adds a flat
//! increment; a component's destructured props past [`PROP_COUNT_FLOOR`] fold
//! their excess into cognitive when the function is left.
//!
//! Every increment is recorded as a contribution with its weight, and each
//! metric is the (saturating) sum of its contributions: the breakdown never
//! drifts from the totals.
//!
//! A [`ComplexityTracker`] keeps one frame per function being walked; the walk
//! reports positions as 1-based lines and byte columns.

use vstd::prelude::*;

use crate::sfc_css::chars_of;
use crate::sfc_props::opt_text;

verus! {

/// JSX nesting depth at or below which no cognitive penalty accrues.
pub const JSX_DEPTH_FLOOR: u16 = 2;

/// Destructured prop count at or below which no cognitive penalty accrues.
pub const PROP_COUNT_FLOOR: u16 = 4;

/// A boolean operator.
#[derive(Debug, Clone, Copy, PartialEq, Eq, Structural)]
pub enum LogicalOp {
    And,
    Or,
    Coalesce,
}

/// Which metric an increment counts toward.
#[derive(Debug, Clone, Copy, PartialEq, Eq, Structural)]
pub enum ComplexityMetric {
    Cyclomatic,
    Cognitive,
}

/// The construct an increment comes from.
#[derive(Debug, Clone, Copy, PartialEq, Eq, Structural)]
pub enum ComplexityContributionKind {
    If,
    ElseIf,
    Else,
    For,
    ForIn,
    ForOf,
    While,
    DoWhile,
    Switch,
    Case,
    Catch,
    Ternary,
    LogicalAnd,
    LogicalOr,
    NullishCoalescing,
    LogicalAssignment,
    OptionalChain,
    LabeledBreak,
    LabeledContinue,
    JsxDepth,
    HookDensity,
    PropCount,
}

/// One recorded increment: where, of which metric, from what, how much, and
/// at which nesting level.
#[derive(Debug, Clone, Copy, PartialEq, Eq, Structural)]
pub struct ComplexityContribution {
    pub line: u32,
    pub col: u32,
    pub metric: ComplexityMetric,
    pub kind: ComplexityContributionKind,
    pub weight: u16,
    pub nesting: u16,
}

/// The complexity of one finished function.
#[derive(Debug)]
pub struct FunctionComplexity {
    pub name: String,
    pub line: u32,
    pub col: u32,
    pub cyclomatic: u16,
    pub cognitive: u16,
    pub line_count: u32,
    pub param_count: u8,
    pub react_hook_count: u16,
    pub react_jsx_max_depth: u16,
    pub react_prop_count: u16,
    pub source_hash: Option<String>,
    pub contributions: Vec<ComplexityContribution>,
}

/// The contribution kind of a boolean operator.
pub open spec fn logical_kind_of(op: LogicalOp) -> ComplexityContributionKind {
    match op {
        LogicalOp::And => ComplexityContributionKind::LogicalAnd,
        LogicalOp::Or => ComplexityContributionKind::LogicalOr,
        LogicalOp::Coalesce => ComplexityContributionKind::NullishCoalescing,
    }
}

/// The contribution kind of a boolean operator.
pub fn logical_kind(op: LogicalOp) -> (r: ComplexityContributionKind)
    ensures
        r == logical_kind_of(op),
{
    match op {
        LogicalOp::And => ComplexityContributionKind::LogicalAnd,
        LogicalOp::Or => ComplexityContributionKind::LogicalOr,
        LogicalOp::Coalesce => ComplexityContributionKind::NullishCoalescing,
    }
}

// ---------------------------------------------------------------------------
// Metrics as sums of their contributions
// ---------------------------------------------------------------------------

/// `a + w`, capped at `u16::MAX`.
pub open spec fn sat_add(a: u16, w: u16) -> u16 {
    if a + w > u16::MAX {
        u16::MAX
    } else {
        (a + w) as u16
    }
}

/// `a - 1`, floored at 0.
pub open spec fn sat_dec(a: u16) -> u16 {
    if a == 0 {
        0
    } else {
        (a - 1) as u16
    }
}

/// `start` plus the weights of the contributions to metric `m`, added one by
/// one with the cap.
pub open spec fn metric_total(start: u16, cs: Seq<ComplexityContribution>, m: ComplexityMetric) -> u16
    decreases cs.len(),
{
    if cs.len() == 0 {
        start
    } else {
        let prev = metric_total(start, cs.drop_last(), m);
        if cs.last().metric == m {
            sat_add(prev, cs.last().weight)
        } else {
            prev
        }
    }
}

/// The plain sum of the weights of the contributions to metric `m`.
pub open spec fn weight_sum(cs: Seq<ComplexityContribution>, m: ComplexityMetric) -> int
    decreases cs.len(),
{
    if cs.len() == 0 {
        0
    } else {
        weight_sum(cs.drop_last(), m) + if cs.last().metric == m {
            cs.last().weight as int
        } else {
            0
        }
    }
}

/// A metric accumulated with the cap is its start plus the sum of its
/// contributions' weights, capped once at `u16::MAX`: the breakdown
/// reconstructs the total.
pub proof fn lemma_metric_total_is_capped_sum(start: u16, cs: Seq<ComplexityContribution>, m: ComplexityMetric)
    ensures
        metric_total(start, cs, m) == if start + weight_sum(cs, m) > u16::MAX {
            u16::MAX as int
        } else {
            start + weight_sum(cs, m)
        },
    decreases cs.len(),
{
    if cs.len() > 0 {
        lemma_metric_total_is_capped_sum(start, cs.drop_last(), m);
        lemma_weight_sum_nonneg(cs.drop_last(), m);
    }
}

proof fn lemma_weight_sum_nonneg(cs: Seq<ComplexityContribution>, m: ComplexityMetric)
    ensures
        weight_sum(cs, m) >= 0,
    decreases cs.len(),
{
    if cs.len() > 0 {
        lemma_weight_sum_nonneg(cs.drop_last(), m);
    }
}

// ---------------------------------------------------------------------------
// Frames
// ---------------------------------------------------------------------------

/// A function being walked, as the contracts see it.
pub struct FrameView {
    pub name: Seq<char>,
    pub line: u32,
    pub col: u32,
    pub end_line: u32,
    pub cyclomatic: u16,
    pub cognitive: u16,
    pub nesting: u16,
    pub last_op: Option<LogicalOp>,
    pub param_count: u8,
    pub jsx_depth: u16,
    pub jsx_max_depth: u16,
    pub hook_count: u16,
    pub prop_count: u16,
    pub contributions: Seq<ComplexityContribution>,
}

/// Each metric of the frame is the capped sum of its contributions, and its
/// line span can be counted.
pub open spec fn frame_consistent(f: FrameView) -> bool {
    &&& f.cyclomatic == metric_total(1, f.contributions, ComplexityMetric::Cyclomatic)
    &&& f.cognitive == metric_total(0, f.contributions, ComplexityMetric::Cognitive)
    &&& !(f.line == 0 && f.end_line == u32::MAX)
}

/// Each metric of the finished function is the capped sum of its
/// contributions.
pub open spec fn result_consistent(r: FunctionComplexity) -> bool {
    &&& r.cyclomatic == metric_total(1, r.contributions@, ComplexityMetric::Cyclomatic)
    &&& r.cognitive == metric_total(0, r.contributions@, ComplexityMetric::Cognitive)
}

/// A contribution at `at` (line, column).
pub open spec fn contribution_at(
    at: (u32, u32),
    metric: ComplexityMetric,
    kind: ComplexityContributionKind,
    weight: u16,
    nesting: u16,
) -> ComplexityContribution {
    ComplexityContribution { line: at.0, col: at.1, metric, kind, weight, nesting }
}

/// A flat `+1` to cyclomatic.
pub open spec fn cyclomatic_inc(f: FrameView, at: (u32, u32), kind: ComplexityContributionKind) -> FrameView {
    FrameView {
        cyclomatic: sat_add(f.cyclomatic, 1),
        contributions: f.contributions.push(contribution_at(at, ComplexityMetric::Cyclomatic, kind, 1, 0)),
        ..f
    }
}

/// A `+weight` to cognitive, recorded at nesting level `nesting`.
pub open spec fn cognitive_inc(f: FrameView, at: (u32, u32), kind: ComplexityContributionKind, weight: u16, nesting: u16) -> FrameView {
    FrameView {
        cognitive: sat_add(f.cognitive, weight),
        contributions: f.contributions.push(contribution_at(at, ComplexityMetric::Cognitive, kind, weight, nesting)),
        ..f
    }
}

/// A structural cognitive increment: `+1` plus the current nesting.
pub open spec fn cognitive_nested(f: FrameView, at: (u32, u32), kind: ComplexityContributionKind) -> FrameView {
    cognitive_inc(f, at, kind, (1 + f.nesting) as u16, f.nesting)
}

/// A flat cognitive `+1`.
pub open spec fn cognitive_flat(f: FrameView, at: (u32, u32), kind: ComplexityContributionKind) -> FrameView {
    cognitive_inc(f, at, kind, 1, 0)
}

/// One level deeper.
pub open spec fn nest_in(f: FrameView) -> FrameView {
    FrameView { nesting: sat_add(f.nesting, 1), ..f }
}

/// One level out.
pub open spec fn nest_out(f: FrameView) -> FrameView {
    FrameView { nesting: sat_dec(f.nesting), ..f }
}

/// A boolean operator: `+1` cognitive when it differs from the previous
/// operator of the run.
pub open spec fn logical_step(f: FrameView, at: (u32, u32), op: LogicalOp) -> FrameView {
    if f.last_op != Some(op) {
        FrameView { last_op: Some(op), ..cognitive_flat(f, at, logical_kind_of(op)) }
    } else {
        f
    }
}

/// The end of a boolean run.
pub open spec fn logical_reset(f: FrameView) -> FrameView {
    FrameView { last_op: None, ..f }
}

/// Opening a JSX element: one level of JSX deeper; past the floor it costs a
/// structural increment and deepens the nesting of what it renders.
pub open spec fn jsx_open(f: FrameView, at: (u32, u32)) -> FrameView {
    let d = (f.jsx_depth + 1) as u16;
    let deeper = FrameView { jsx_depth: d, jsx_max_depth: if f.jsx_max_depth >= d { f.jsx_max_depth } else { d }, ..f };
    if d > JSX_DEPTH_FLOOR {
        nest_in(cognitive_nested(deeper, at, ComplexityContributionKind::JsxDepth))
    } else {
        deeper
    }
}

/// Closing a JSX element opened with the given penalty.
pub open spec fn jsx_close(f: FrameView, penalized: bool) -> FrameView {
    let g = if penalized {
        nest_out(f)
    } else {
        f
    };
    FrameView { jsx_depth: sat_dec(g.jsx_depth), ..g }
}

/// The frame is a React component (capitalised name) or a custom hook
/// (`use` and a capital).
pub open spec fn react_shaped(name: Seq<char>) -> bool {
    ||| name.len() > 0 && char_uppercase(name[0])
    ||| hook_name(name)
}

/// `use` followed by a capital: a React hook.
pub open spec fn hook_name(name: Seq<char>) -> bool {
    name.len() > 3 && name[0] == 'u' && name[1] == 's' && name[2] == 'e' && char_uppercase(name[3])
}

/// A hook call: counted, and a flat cognitive `+1` in a React-shaped frame.
pub open spec fn hook_step(f: FrameView, at: (u32, u32)) -> FrameView {
    let counted = FrameView { hook_count: sat_add(f.hook_count, 1), ..f };
    if react_shaped(f.name) {
        cognitive_flat(counted, at, ComplexityContributionKind::HookDensity)
    } else {
        counted
    }
}

/// A rendering function's props past the floor, folded into cognitive at
/// the function's start.
pub open spec fn fold_props(f: FrameView) -> FrameView {
    if f.jsx_max_depth == 0 || f.prop_count <= PROP_COUNT_FLOOR {
        f
    } else {
        cognitive_inc(
            f,
            (f.line, f.col),
            ComplexityContributionKind::PropCount,
            (f.prop_count - PROP_COUNT_FLOOR) as u16,
            0,
        )
    }
}

/// `r` is what leaving the (folded) frame `f` reports.
pub open spec fn reported(r: FunctionComplexity, f: FrameView, source_hash: Option<String>) -> bool {
    &&& r.name@ == f.name
    &&& r.line == f.line
    &&& r.col == f.col
    &&& r.cyclomatic == f.cyclomatic
    &&& r.cognitive == f.cognitive
    &&& r.line_count == (if f.end_line >= f.line { f.end_line - f.line } else { 0 }) + 1
    &&& r.param_count == f.param_count
    &&& r.react_hook_count == f.hook_count
    &&& r.react_jsx_max_depth == f.jsx_max_depth
    &&& r.react_prop_count == f.prop_count
    &&& r.source_hash == source_hash
    &&& r.contributions@ == f.contributions
}

/// Apply `op` to the innermost frame (nothing without one).
pub open spec fn on_top(frames: Seq<FrameView>, op: spec_fn(FrameView) -> FrameView) -> Seq<FrameView> {
    if frames.len() == 0 {
        frames
    } else {
        frames.update(frames.len() - 1, op(frames.last()))
    }
}

/// A fresh frame.
pub open spec fn fresh_frame(name: Seq<char>, line: u32, col: u32, end_line: u32, param_count: u8, prop_count: u16) -> FrameView {
    FrameView {
        name,
        line,
        col,
        end_line,
        cyclomatic: 1,
        cognitive: 0,
        nesting: 0,
        last_op: None,
        param_count,
        jsx_depth: 0,
        jsx_max_depth: 0,
        hook_count: 0,
        prop_count,
        contributions: seq![],
    }
}

/// The name of a `function`: its own, else the offered one, else
/// `<anonymous>`.
pub open spec fn function_name(id: Option<String>, pending: Option<Seq<char>>) -> Seq<char> {
    match id {
        Some(n) => n@,
        None => match pending {
            Some(p) => p,
            None => "<anonymous>"@,
        },
    }
}

/// The name of an arrow function: the offered one, else `<arrow>`.
pub open spec fn arrow_name(pending: Option<Seq<char>>) -> Seq<char> {
    match pending {
        Some(p) => p,
        None => "<arrow>"@,
    }
}

/// Whether `std`'s `char::is_uppercase` holds of `c` (the Unicode
/// `Uppercase` property).
pub uninterp spec fn char_uppercase(c: char) -> bool;

/// `char::is_uppercase`. Among ASCII characters exactly `A`..=`Z` have the
/// Unicode `Uppercase` property; beyond ASCII the result is only named.
#[verifier::external_body]
fn is_uppercase(c: char) -> (r: bool)
    ensures
        r == char_uppercase(c),
        ('A' <= c <= 'Z') ==> r,
        ((c as u32) < 0x80 && !('A' <= c <= 'Z')) ==> !r,
{
    c.is_uppercase()
}

/// Whether a function name is React-shaped (see [`react_shaped`]).
pub fn frame_name_is_react_shaped(name: &str) -> (r: bool)
    ensures
        r == react_shaped(name@),
{
    let cs = chars_of(name);
    (cs.len() > 0 && is_uppercase(cs[0])) || (cs.len() > 3 && cs[0] == 'u' && cs[1] == 's' && cs[2] == 'e' && is_uppercase(cs[3]))
}

/// Whether a callee names a React hook (`use` followed by a capital).
pub fn is_hook_callee(name: &str) -> (r: bool)
    ensures
        r == hook_name(name@),
{
    let cs = chars_of(name);
    cs.len() > 3 && cs[0] == 'u' && cs[1] == 's' && cs[2] == 'e' && is_uppercase(cs[3])
}

/// The parameter count of a function: the parameters that are not
/// TypeScript's `this`, plus a rest parameter, truncated to a byte.
pub fn count_params(param_is_this: &Vec<bool>, has_rest: bool) -> (r: u8)
    ensures
        r as int == (param_is_this@.filter(|t: bool| !t).len() + if has_rest { 1int } else { 0 }) % 256,
{
    let mut count: usize = 0;
    let mut i: usize = 0;
    while i < param_is_this.len()
        invariant
            i <= param_is_this@.len(),
            count == param_is_this@.subrange(0, i as int).filter(|t: bool| !t).len(),
            count <= i,
        decreases param_is_this@.len() - i,
    {
        proof {
            let pre = param_is_this@.subrange(0, i as int);
            let post = param_is_this@.subrange(0, i + 1);
            assert(post =~= pre.push(param_is_this@[i as int]));
            reveal(Seq::filter);
            assert(post.drop_last() =~= pre);
        }
        if !param_is_this[i] {
            count = count + 1;
        }
        i = i + 1;
    }
    assert(param_is_this@.subrange(0, i as int) =~= param_is_this@);
    let base: u8 = (count % 256) as u8;
    if !has_rest {
        base
    } else if base == 255 {
        0
    } else {
        base + 1
    }
}

/// The props a function destructures from its first parameter, when that is
/// a flat object pattern with `object_pattern_len` properties (0 otherwise),
/// capped at `u16::MAX`.
pub fn count_props(object_pattern_len: Option<usize>) -> (r: u16)
    ensures
        r as int == match object_pattern_len {
            Some(n) => if n > u16::MAX { u16::MAX as int } else { n as int },
            None => 0,
        },
{
    match object_pattern_len {
        Some(n) => if n > 0xffff {
            0xffff
        } else {
            n as u16
        },
        None => 0,
    }
}


// ---------------------------------------------------------------------------
// The tracker
// ---------------------------------------------------------------------------

/// A function being walked.
struct FunctionFrame {
    name: String,
    line: u32,
    col: u32,
    end_line: u32,
    cyclomatic: u16,
    cognitive: u16,
    nesting_level: u16,
    last_logical_operator: Option<LogicalOp>,
    param_count: u8,
    jsx_depth: u16,
    jsx_max_depth: u16,
    hook_count: u16,
    prop_count: u16,
    contributions: Vec<ComplexityContribution>,
}

impl FunctionFrame {
    spec fn frame(&self) -> FrameView {
        FrameView {
            name: self.name@,
            line: self.line,
            col: self.col,
            end_line: self.end_line,
            cyclomatic: self.cyclomatic,
            cognitive: self.cognitive,
            nesting: self.nesting_level,
            last_op: self.last_logical_operator,
            param_count: self.param_count,
            jsx_depth: self.jsx_depth,
            jsx_max_depth: self.jsx_max_depth,
            hook_count: self.hook_count,
            prop_count: self.prop_count,
            contributions: self.contributions@,
        }
    }

    fn inc_cyclomatic(&mut self, at: (u32, u32), kind: ComplexityContributionKind)
        ensures
            final(self).frame() == cyclomatic_inc(old(self).frame(), at, kind),
    {
        self.contributions.push(
            ComplexityContribution { line: at.0, col: at.1, metric: ComplexityMetric::Cyclomatic, kind, weight: 1, nesting: 0 },
        );
        self.cyclomatic = self.cyclomatic.saturating_add(1);
    }

    fn inc_cognitive(&mut self, at: (u32, u32), kind: ComplexityContributionKind, weight: u16, nesting: u16)
        ensures
            final(self).frame() == cognitive_inc(old(self).frame(), at, kind, weight, nesting),
    {
        self.contributions.push(
            ComplexityContribution { line: at.0, col: at.1, metric: ComplexityMetric::Cognitive, kind, weight, nesting },
        );
        self.cognitive = self.cognitive.saturating_add(weight);
    }
}

proof fn lemma_inc_keeps_consistent(f: FrameView, at: (u32, u32), kind: ComplexityContributionKind, weight: u16, nesting: u16)
    requires
        frame_consistent(f),
    ensures
        frame_consistent(cyclomatic_inc(f, at, kind)),
        frame_consistent(cognitive_inc(f, at, kind, weight, nesting)),
{
    let c1 = cyclomatic_inc(f, at, kind).contributions;
    assert(c1.drop_last() =~= f.contributions);
    let c2 = cognitive_inc(f, at, kind, weight, nesting).contributions;
    assert(c2.drop_last() =~= f.contributions);
}

/// Every finished function reports each metric as its start (1 for
/// cyclomatic, 0 for cognitive) plus the weights of its recorded
/// contributions, capped at `u16::MAX`: the breakdown never drifts from the
/// totals.
pub proof fn lemma_breakdown_matches_totals(t: ComplexityTracker, i: int)
    requires
        t.wf(),
        0 <= i < t.finished().len(),
    ensures
        t.finished()[i].cyclomatic == if 1 + weight_sum(t.finished()[i].contributions@, ComplexityMetric::Cyclomatic)
            > u16::MAX {
            u16::MAX as int
        } else {
            1 + weight_sum(t.finished()[i].contributions@, ComplexityMetric::Cyclomatic)
        },
        t.finished()[i].cognitive == if weight_sum(t.finished()[i].contributions@, ComplexityMetric::Cognitive) > u16::MAX {
            u16::MAX as int
        } else {
            weight_sum(t.finished()[i].contributions@, ComplexityMetric::Cognitive)
        },
{
    let r = t.finished()[i];
    assert(result_consistent(r));
    lemma_metric_total_is_capped_sum(1, r.contributions@, ComplexityMetric::Cyclomatic);
    lemma_metric_total_is_capped_sum(0, r.contributions@, ComplexityMetric::Cognitive);
}

/// Closing a JSX element with the penalty its opening reported restores the
/// JSX depth and the nesting level: what follows the element is not charged
/// for its depth.
pub proof fn lemma_jsx_close_restores(f: FrameView, at: (u32, u32))
    requires
        f.jsx_depth < u16::MAX,
        f.nesting < u16::MAX,
    ensures
        jsx_close(jsx_open(f, at), f.jsx_depth + 1 > JSX_DEPTH_FLOOR).jsx_depth == f.jsx_depth,
        jsx_close(jsx_open(f, at), f.jsx_depth + 1 > JSX_DEPTH_FLOOR).nesting == f.nesting,
        jsx_open(f, at).jsx_max_depth >= f.jsx_depth + 1,
{
}

/// Boolean runs: each run of one operator costs a flat cognitive `+1`, a
/// repeated operator inside the run costs nothing, a different operator
/// starts a new run, and after the end of a run is reported the next
/// operator always starts a new run (whatever it is). Ending a run changes
/// nothing but the remembered operator.
pub proof fn lemma_logical_runs(f: FrameView, a: (u32, u32), b: (u32, u32), op: LogicalOp, op2: LogicalOp)
    ensures
        logical_reset(f).last_op is None,
        logical_reset(f) == (FrameView { last_op: None, ..f }),
        logical_step(logical_reset(f), a, op).cognitive == sat_add(f.cognitive, 1),
        logical_step(logical_reset(f), a, op).contributions == f.contributions.push(
            contribution_at(a, ComplexityMetric::Cognitive, logical_kind_of(op), 1, 0),
        ),
        logical_step(logical_reset(f), a, op).last_op == Some(op),
        logical_step(logical_reset(f), a, op).cyclomatic == f.cyclomatic,
        logical_step(logical_step(f, a, op), b, op) == logical_step(f, a, op),
        op != op2 ==> logical_step(logical_step(f, a, op), b, op2).cognitive == sat_add(
            logical_step(f, a, op).cognitive,
            1,
        ),
{
}

/// Two separate boolean expressions (each reported as its operator, then the
/// end of its run) cost cognitive `2` in a function that starts them with
/// no open run, whichever operators they use; one run with a repeated
/// operator costs `1`.
pub proof fn lemma_separate_runs_cost_two(f: FrameView, a: (u32, u32), b: (u32, u32), op1: LogicalOp, op2: LogicalOp)
    requires
        f.last_op is None,
        f.cognitive + 2 <= u16::MAX,
    ensures
        logical_reset(logical_step(logical_reset(logical_step(f, a, op1)), b, op2)).cognitive == f.cognitive + 2,
        logical_step(logical_step(f, a, op1), b, op1).cognitive == f.cognitive + 1,
{
}

/// After the tracker reports the end of a boolean run, the innermost frame
/// has no open run and every other frame is unchanged.
pub proof fn lemma_reset_innermost(frames: Seq<FrameView>)
    requires
        frames.len() > 0,
    ensures
        on_top(frames, |g: FrameView| logical_reset(g)).last().last_op is None,
        on_top(frames, |g: FrameView| logical_reset(g)).len() == frames.len(),
        forall|i: int| 0 <= i < frames.len() - 1 ==> on_top(frames, |g: FrameView| logical_reset(g))[i] == #[trigger] frames[i],
{
}

/// Leaving a nesting level entered before restores it.
pub proof fn lemma_nest_out_restores(f: FrameView)
    requires
        f.nesting < u16::MAX,
    ensures
        nest_out(nest_in(f)) == f,
{
}

proof fn lemma_update_consistent(fs: Seq<FrameView>, f: FrameView)
    requires
        fs.len() > 0,
        forall|i: int| 0 <= i < fs.len() ==> frame_consistent(#[trigger] fs[i]),
        frame_consistent(f),
    ensures
        forall|i: int| 0 <= i < fs.len() ==> frame_consistent(#[trigger] fs.update(fs.len() - 1, f)[i]),
{
    assert forall|i: int| 0 <= i < fs.len() implies frame_consistent(#[trigger] fs.update(fs.len() - 1, f)[i]) by {
        if i < fs.len() - 1 {
            assert(fs.update(fs.len() - 1, f)[i] == fs[i]);
        }
    }
}

/// The complexity of every function of a module, accumulated as a syntax walk
/// reports what it meets: entering and leaving functions, names offered by
/// the enclosing declaration, decision points, nesting, boolean operators,
/// JSX elements and hook calls.
pub struct ComplexityTracker {
    stack: Vec<FunctionFrame>,
    results: Vec<FunctionComplexity>,
    pending_name: Option<String>,
}

impl ComplexityTracker {
    /// The functions being walked, outermost first.
    pub closed spec fn frames(&self) -> Seq<FrameView> {
        self.stack@.map_values(|f: FunctionFrame| f.frame())
    }

    /// The finished functions, in the order they were left.
    pub closed spec fn finished(&self) -> Seq<FunctionComplexity> {
        self.results@
    }

    /// The name offered by the enclosing declaration, if any.
    pub closed spec fn pending(&self) -> Option<Seq<char>> {
        opt_text(self.pending_name)
    }

    /// Every frame and every finished function has its metrics equal to the
    /// capped sums of its contributions.
    pub open spec fn wf(&self) -> bool {
        &&& forall|i: int| 0 <= i < self.frames().len() ==> frame_consistent(#[trigger] self.frames()[i])
        &&& forall|i: int| 0 <= i < self.finished().len() ==> result_consistent(#[trigger] self.finished()[i])
    }

    /// Nothing walked yet.
    pub fn new() -> (r: Self)
        ensures
            r.wf(),
            r.frames().len() == 0,
            r.finished().len() == 0,
            r.pending() is None,
    {
        ComplexityTracker { stack: Vec::new(), results: Vec::new(), pending_name: None }
    }

    /// The finished functions.
    pub fn into_results(self) -> (r: Vec<FunctionComplexity>)
        ensures
            r@ == self.finished(),
    {
        self.results
    }

    /// The nesting level of the innermost function (0 outside functions).
    pub fn nesting_level(&self) -> (r: u16)
        ensures
            r == if self.frames().len() == 0 {
                0
            } else {
                self.frames().last().nesting
            },
    {
        let n = self.stack.len();
        if n == 0 {
            0
        } else {
            self.stack[n - 1].nesting_level
        }
    }

    /// The JSX depth of the innermost function (0 outside functions).
    pub fn jsx_depth(&self) -> (r: u16)
        ensures
            r == if self.frames().len() == 0 {
                0
            } else {
                self.frames().last().jsx_depth
            },
    {
        let n = self.stack.len();
        if n == 0 {
            0
        } else {
            self.stack[n - 1].jsx_depth
        }
    }

    /// A flat `+1` to cyclomatic in the innermost function.
    pub fn inc_cyclomatic(&mut self, at: (u32, u32), kind: ComplexityContributionKind)
        requires
            old(self).wf(),
        ensures
            final(self).wf(),
            final(self).frames() == on_top(old(self).frames(), |f: FrameView| cyclomatic_inc(f, at, kind)),
            final(self).finished() == old(self).finished(),
            final(self).pending() == old(self).pending(),
    {
        if self.stack.len() > 0 {
            let ghost old_frames = self.frames();
            let mut f = self.stack.pop().unwrap();
            proof {
                assert(old_frames[old_frames.len() - 1] == f.frame());
                lemma_inc_keeps_consistent(f.frame(), at, kind, 0, 0);
            }
            f.inc_cyclomatic(at, kind);
            self.stack.push(f);
            proof {
                assert(self.frames() =~= old_frames.update(old_frames.len() - 1, f.frame()));
                lemma_update_consistent(old_frames, f.frame());
                assert(self.finished() == old(self).finished());
            }
        }
    }

    /// A `+weight` to cognitive in the innermost function.
    fn inc_cognitive(&mut self, at: (u32, u32), kind: ComplexityContributionKind, weight: u16, nesting: u16)
        requires
            old(self).wf(),
        ensures
            final(self).wf(),
            final(self).frames() == on_top(old(self).frames(), |f: FrameView| cognitive_inc(f, at, kind, weight, nesting)),
            final(self).finished() == old(self).finished(),
            final(self).pending() == old(self).pending(),
    {
        if self.stack.len() > 0 {
            let ghost old_frames = self.frames();
            let mut f = self.stack.pop().unwrap();
            proof {
                assert(old_frames[old_frames.len() - 1] == f.frame());
                lemma_inc_keeps_consistent(f.frame(), at, kind, weight, nesting);
            }
            f.inc_cognitive(at, kind, weight, nesting);
            self.stack.push(f);
            proof {
                assert(self.frames() =~= old_frames.update(old_frames.len() - 1, f.frame()));
                lemma_update_consistent(old_frames, f.frame());
                assert(self.finished() == old(self).finished());
            }
        }
    }

    /// A structural cognitive increment in the innermost function: `+1`
    /// plus its nesting level.
    pub fn inc_cognitive_with_nesting(&mut self, at: (u32, u32), kind: ComplexityContributionKind)
        requires
            old(self).wf(),
            old(self).frames().len() > 0 ==> old(self).frames().last().nesting < u16::MAX,
        ensures
            final(self).wf(),
            final(self).frames() == on_top(old(self).frames(), |f: FrameView| cognitive_nested(f, at, kind)),
            final(self).finished() == old(self).finished(),
            final(self).pending() == old(self).pending(),
    {
        let nesting = self.nesting_level();
        self.inc_cognitive(at, kind, 1 + nesting, nesting);
    }

    /// A flat cognitive `+1` in the innermost function.
    pub fn inc_cognitive_flat(&mut self, at: (u32, u32), kind: ComplexityContributionKind)
        requires
            old(self).wf(),
        ensures
            final(self).wf(),
            final(self).frames() == on_top(old(self).frames(), |f: FrameView| cognitive_flat(f, at, kind)),
            final(self).finished() == old(self).finished(),
            final(self).pending() == old(self).pending(),
    {
        self.inc_cognitive(at, kind, 1, 0);
    }

    /// Apply a change of the innermost frame that leaves its metrics and
    /// contributions alone.
    fn set_top_nesting(&mut self, level: u16)
        requires
            old(self).wf(),
        ensures
            final(self).wf(),
            final(self).frames() == on_top(old(self).frames(), |f: FrameView| FrameView { nesting: level, ..f }),
            final(self).finished() == old(self).finished(),
            final(self).pending() == old(self).pending(),
    {
        if self.stack.len() > 0 {
            let ghost old_frames = self.frames();
            let mut f = self.stack.pop().unwrap();
            assert(old_frames[old_frames.len() - 1] == f.frame());
            f.nesting_level = level;
            self.stack.push(f);
            proof {
                assert(self.frames() =~= old_frames.update(old_frames.len() - 1, f.frame()));
                lemma_update_consistent(old_frames, f.frame());
                assert(self.finished() == old(self).finished());
            }
        }
    }

    /// One nesting level deeper in the innermost function.
    pub fn inc_nesting(&mut self)
        requires
            old(self).wf(),
        ensures
            final(self).wf(),
            final(self).frames() == on_top(old(self).frames(), |f: FrameView| nest_in(f)),
            final(self).finished() == old(self).finished(),
            final(self).pending() == old(self).pending(),
    {
        let level = self.nesting_level();
        self.set_top_nesting(level.saturating_add(1));
        assert(on_top(old(self).frames(), |f: FrameView| FrameView { nesting: level.saturating_add(1), ..f }) =~= on_top(
            old(self).frames(),
            |f: FrameView| nest_in(f),
        ));
    }

    /// One nesting level out in the innermost function.
    pub fn dec_nesting(&mut self)
        requires
            old(self).wf(),
        ensures
            final(self).wf(),
            final(self).frames() == on_top(old(self).frames(), |f: FrameView| nest_out(f)),
            final(self).finished() == old(self).finished(),
            final(self).pending() == old(self).pending(),
    {
        let level = self.nesting_level();
        self.set_top_nesting(level.saturating_sub(1));
        assert(on_top(old(self).frames(), |f: FrameView| FrameView { nesting: level.saturating_sub(1), ..f }) =~= on_top(
            old(self).frames(),
            |f: FrameView| nest_out(f),
        ));
    }

    /// A boolean operator in the innermost function: `+1` cognitive when
    /// it differs from the previous operator of the run.
    pub fn handle_logical_operator(&mut self, op: LogicalOp, at: (u32, u32))
        requires
            old(self).wf(),
        ensures
            final(self).wf(),
            final(self).frames() == on_top(old(self).frames(), |f: FrameView| logical_step(f, at, op)),
            final(self).finished() == old(self).finished(),
            final(self).pending() == old(self).pending(),
    {
        if self.stack.len() > 0 {
            let ghost old_frames = self.frames();
            let mut f = self.stack.pop().unwrap();
            assert(old_frames[old_frames.len() - 1] == f.frame());
            let changed = match f.last_logical_operator {
                Some(prev) => prev != op,
                None => true,
            };
            if changed {
                proof {
                    lemma_inc_keeps_consistent(f.frame(), at, logical_kind_of(op), 1, 0);
                }
                f.inc_cognitive(at, logical_kind(op), 1, 0);
                f.last_logical_operator = Some(op);
            }
            self.stack.push(f);
            proof {
                assert(self.frames() =~= old_frames.update(old_frames.len() - 1, f.frame()));
                lemma_update_consistent(old_frames, f.frame());
                assert(self.finished() == old(self).finished());
            }
        }
    }

    /// The end of a boolean run in the innermost function.
    pub fn reset_logical_operator(&mut self)
        requires
            old(self).wf(),
        ensures
            final(self).wf(),
            final(self).frames() == on_top(old(self).frames(), |f: FrameView| logical_reset(f)),
            final(self).finished() == old(self).finished(),
            final(self).pending() == old(self).pending(),
    {
        if self.stack.len() > 0 {
            let ghost old_frames = self.frames();
            let mut f = self.stack.pop().unwrap();
            assert(old_frames[old_frames.len() - 1] == f.frame());
            f.last_logical_operator = None;
            self.stack.push(f);
            proof {
                assert(self.frames() =~= old_frames.update(old_frames.len() - 1, f.frame()));
                lemma_update_consistent(old_frames, f.frame());
                assert(self.finished() == old(self).finished());
            }
        }
    }

    /// Open a JSX element or fragment in the innermost function (see
    /// [`jsx_open`]); whether it was penalized, to hand back on close.
    pub fn open_jsx(&mut self, at: (u32, u32)) -> (penalized: bool)
        requires
            old(self).wf(),
            old(self).frames().len() > 0 ==> old(self).frames().last().jsx_depth < u16::MAX && old(self).frames().last().nesting
                < u16::MAX,
        ensures
            final(self).wf(),
            penalized == (old(self).frames().len() > 0 && old(self).frames().last().jsx_depth + 1 > JSX_DEPTH_FLOOR),
            final(self).frames() == on_top(old(self).frames(), |f: FrameView| jsx_open(f, at)),
            final(self).finished() == old(self).finished(),
            final(self).pending() == old(self).pending(),
    {
        if self.stack.len() > 0 {
            let ghost old_frames = self.frames();
            let mut f = self.stack.pop().unwrap();
            assert(old_frames[old_frames.len() - 1] == f.frame());
            let d = f.jsx_depth + 1;
            f.jsx_depth = d;
            if f.jsx_max_depth < d {
                f.jsx_max_depth = d;
            }
            let penalized = d > JSX_DEPTH_FLOOR;
            if penalized {
                let nesting = f.nesting_level;
                proof {
                    lemma_inc_keeps_consistent(f.frame(), at, ComplexityContributionKind::JsxDepth, (1 + nesting) as u16, nesting);
                }
                f.inc_cognitive(at, ComplexityContributionKind::JsxDepth, 1 + nesting, nesting);
                f.nesting_level = nesting.saturating_add(1);
            }
            self.stack.push(f);
            proof {
                assert(self.frames() =~= old_frames.update(old_frames.len() - 1, f.frame()));
                lemma_update_consistent(old_frames, f.frame());
                assert(self.finished() == old(self).finished());
            }
            penalized
        } else {
            false
        }
    }

    /// Close a JSX element opened with the given penalty.
    pub fn close_jsx(&mut self, penalized: bool)
        requires
            old(self).wf(),
        ensures
            final(self).wf(),
            final(self).frames() == on_top(old(self).frames(), |f: FrameView| jsx_close(f, penalized)),
            final(self).finished() == old(self).finished(),
            final(self).pending() == old(self).pending(),
    {
        if self.stack.len() > 0 {
            let ghost old_frames = self.frames();
            let mut f = self.stack.pop().unwrap();
            assert(old_frames[old_frames.len() - 1] == f.frame());
            if penalized {
                f.nesting_level = f.nesting_level.saturating_sub(1);
            }
            f.jsx_depth = f.jsx_depth.saturating_sub(1);
            self.stack.push(f);
            proof {
                assert(self.frames() =~= old_frames.update(old_frames.len() - 1, f.frame()));
                lemma_update_consistent(old_frames, f.frame());
                assert(self.finished() == old(self).finished());
            }
        }
    }

    /// A hook call in the innermost function (see [`hook_step`]).
    pub fn record_hook(&mut self, at: (u32, u32))
        requires
            old(self).wf(),
        ensures
            final(self).wf(),
            final(self).frames() == on_top(old(self).frames(), |f: FrameView| hook_step(f, at)),
            final(self).finished() == old(self).finished(),
            final(self).pending() == old(self).pending(),
    {
        if self.stack.len() > 0 {
            let ghost old_frames = self.frames();
            let mut f = self.stack.pop().unwrap();
            assert(old_frames[old_frames.len() - 1] == f.frame());
            let react = frame_name_is_react_shaped(f.name.as_str());
            f.hook_count = f.hook_count.saturating_add(1);
            if react {
                proof {
                    lemma_inc_keeps_consistent(f.frame(), at, ComplexityContributionKind::HookDensity, 1, 0);
                }
                f.inc_cognitive(at, ComplexityContributionKind::HookDensity, 1, 0);
            }
            self.stack.push(f);
            proof {
                assert(self.frames() =~= old_frames.update(old_frames.len() - 1, f.frame()));
                lemma_update_consistent(old_frames, f.frame());
                assert(self.finished() == old(self).finished());
            }
        }
    }

    /// Start walking a function.
    pub fn push_function(&mut self, name: String, line: u32, col: u32, end_line: u32, param_count: u8, prop_count: u16)
        requires
            old(self).wf(),
            !(line == 0 && end_line == u32::MAX),
        ensures
            final(self).wf(),
            final(self).frames() == old(self).frames().push(fresh_frame(name@, line, col, end_line, param_count, prop_count)),
            final(self).finished() == old(self).finished(),
            final(self).pending() == old(self).pending(),
    {
        let ghost old_frames = self.frames();
        let f = FunctionFrame {
            name,
            line,
            col,
            end_line,
            cyclomatic: 1,
            cognitive: 0,
            nesting_level: 0,
            last_logical_operator: None,
            param_count,
            jsx_depth: 0,
            jsx_max_depth: 0,
            hook_count: 0,
            prop_count,
            contributions: Vec::new(),
        };
        assert(f.frame() =~= fresh_frame(f.name@, line, col, end_line, param_count, prop_count));
        self.stack.push(f);
        proof {
            assert(self.frames() =~= old_frames.push(f.frame()));
            assert forall|i: int| 0 <= i < self.frames().len() implies frame_consistent(#[trigger] self.frames()[i]) by {
                if i < old_frames.len() {
                    assert(self.frames()[i] == old_frames[i]);
                }
            }
            assert(self.finished() == old(self).finished());
        }
    }

    /// Leave the innermost function: fold its props (see [`fold_props`]) and
    /// report it with the content digest `source_hash` of its text.
    pub fn pop_function(&mut self, source_hash: Option<String>)
        requires
            old(self).wf(),
        ensures
            final(self).wf(),
            final(self).pending() == old(self).pending(),
            old(self).frames().len() == 0 ==> final(self).frames() == old(self).frames() && final(self).finished()
                == old(self).finished(),
            old(self).frames().len() > 0 ==> {
                &&& final(self).frames() == old(self).frames().drop_last()
                &&& final(self).finished().len() == old(self).finished().len() + 1
                &&& final(self).finished().drop_last() == old(self).finished()
                &&& reported(final(self).finished().last(), fold_props(old(self).frames().last()), source_hash)
            },
    {
        if self.stack.len() > 0 {
            let ghost old_frames = self.frames();
            let ghost old_results = self.results@;
            let mut f = self.stack.pop().unwrap();
            assert(old_frames[old_frames.len() - 1] == f.frame());
            if f.jsx_max_depth != 0 && f.prop_count > PROP_COUNT_FLOOR {
                let excess = f.prop_count - PROP_COUNT_FLOOR;
                let at = (f.line, f.col);
                proof {
                    lemma_inc_keeps_consistent(f.frame(), at, ComplexityContributionKind::PropCount, excess, 0);
                }
                f.inc_cognitive(at, ComplexityContributionKind::PropCount, excess, 0);
            }
            assert(f.frame() == fold_props(old_frames.last()));
            assert(frame_consistent(f.frame()));
            let line_count = f.end_line.saturating_sub(f.line) + 1;
            let r = FunctionComplexity {
                name: f.name,
                line: f.line,
                col: f.col,
                cyclomatic: f.cyclomatic,
                cognitive: f.cognitive,
                line_count,
                param_count: f.param_count,
                react_hook_count: f.hook_count,
                react_jsx_max_depth: f.jsx_max_depth,
                react_prop_count: f.prop_count,
                source_hash,
                contributions: f.contributions,
            };
            assert(result_consistent(r));
            let ghost rr = r;
            assert(old_results == old(self).finished());
            self.results.push(r);
            proof {
                assert(self.frames() =~= old_frames.drop_last());
                assert forall|i: int| 0 <= i < self.frames().len() implies frame_consistent(#[trigger] self.frames()[i]) by {
                    assert(self.frames()[i] == old_frames[i]);
                }
                assert(self.finished().drop_last() =~= old_results);
                assert forall|i: int| 0 <= i < self.finished().len() implies result_consistent(#[trigger] self.finished()[i]) by {
                    if i < old_results.len() {
                        assert(self.finished()[i] == old_results[i]);
                    } else {
                        assert(self.finished()[i] == rr);
                    }
                }
            }
        }
    }

    /// Offer the name of the enclosing declaration (a method, variable,
    /// property, object key, `default` export) to the next function; `None`
    /// leaves an earlier offer in place.
    pub fn offer_name(&mut self, name: Option<String>)
        requires
            old(self).wf(),
        ensures
            final(self).wf(),
            final(self).frames() == old(self).frames(),
            final(self).finished() == old(self).finished(),
            final(self).pending() == match name {
                Some(n) => Some(n@),
                None => old(self).pending(),
            },
    {
        if name.is_some() {
            self.pending_name = name;
        }
        assert(self.frames() == old(self).frames());
        assert(self.finished() == old(self).finished());
    }

    /// The enclosing declaration is done: withdraw its name.
    pub fn clear_name(&mut self)
        requires
            old(self).wf(),
        ensures
            final(self).wf(),
            final(self).frames() == old(self).frames(),
            final(self).finished() == old(self).finished(),
            final(self).pending() is None,
    {
        self.pending_name = None;
        assert(self.frames() == old(self).frames());
        assert(self.finished() == old(self).finished());
    }

    /// Enter a function (`function f() {}` with its own name `id`, or an
    /// anonymous function expression); a function inside another deepens the
    /// outer one's nesting. Whether it is nested, to hand back on exit.
    pub fn enter_function(
        &mut self,
        id: Option<String>,
        line: u32,
        col: u32,
        end_line: u32,
        param_count: u8,
        prop_count: u16,
    ) -> (nested: bool)
        requires
            old(self).wf(),
            !(line == 0 && end_line == u32::MAX),
        ensures
            final(self).wf(),
            nested == (old(self).frames().len() > 0),
            final(self).pending() is None,
            final(self).finished() == old(self).finished(),
            final(self).frames() == (if nested {
                on_top(old(self).frames(), |f: FrameView| nest_in(f))
            } else {
                old(self).frames()
            }).push(fresh_frame(function_name(id, old(self).pending()), line, col, end_line, param_count, prop_count)),
    {
        let name = match id {
            Some(n) => {
                self.pending_name = None;
                n
            },
            None => match self.pending_name.take() {
                Some(p) => p,
                None => "<anonymous>".to_owned(),
            },
        };
        assert(self.frames() == old(self).frames());
        assert(self.finished() == old(self).finished());
        let nested = self.stack.len() > 0;
        if nested {
            self.inc_nesting();
        }
        self.push_function(name, line, col, end_line, param_count, prop_count);
        nested
    }

    /// Enter an arrow function, named by the enclosing declaration or
    /// `<arrow>`; a function inside another deepens the outer one's nesting.
    pub fn enter_arrow(&mut self, line: u32, col: u32, end_line: u32, param_count: u8, prop_count: u16) -> (nested: bool)
        requires
            old(self).wf(),
            !(line == 0 && end_line == u32::MAX),
        ensures
            final(self).wf(),
            nested == (old(self).frames().len() > 0),
            final(self).pending() is None,
            final(self).finished() == old(self).finished(),
            final(self).frames() == (if nested {
                on_top(old(self).frames(), |f: FrameView| nest_in(f))
            } else {
                old(self).frames()
            }).push(fresh_frame(arrow_name(old(self).pending()), line, col, end_line, param_count, prop_count)),
    {
        let name = match self.pending_name.take() {
            Some(p) => p,
            None => "<arrow>".to_owned(),
        };
        assert(self.frames() == old(self).frames());
        assert(self.finished() == old(self).finished());
        let nested = self.stack.len() > 0;
        if nested {
            self.inc_nesting();
        }
        self.push_function(name, line, col, end_line, param_count, prop_count);
        nested
    }

    /// Leave a function entered with `nested`: report it, then restore the
    /// outer function's nesting.
    pub fn exit_function(&mut self, nested: bool, source_hash: Option<String>)
        requires
            old(self).wf(),
        ensures
            final(self).wf(),
            final(self).pending() == old(self).pending(),
            old(self).frames().len() == 0 ==> final(self).finished() == old(self).finished(),
            old(self).frames().len() > 0 ==> {
                &&& final(self).frames() == if nested {
                    on_top(old(self).frames().drop_last(), |f: FrameView| nest_out(f))
                } else {
                    old(self).frames().drop_last()
                }
                &&& final(self).finished().len() == old(self).finished().len() + 1
                &&& final(self).finished().drop_last() == old(self).finished()
                &&& reported(final(self).finished().last(), fold_props(old(self).frames().last()), source_hash)
            },
    {
        self.pop_function(source_hash);
        if nested {
            self.dec_nesting();
        }
    }

    /// A decision point that is also a structural construct: a loop (`for`,
    /// `for..in`, `for..of`, `while`, `do..while`), a `catch` clause or a
    /// ternary: `+1` cyclomatic and a nested cognitive increment.
    pub fn decision(&mut self, kind: ComplexityContributionKind, at: (u32, u32))
        requires
            old(self).wf(),
            old(self).frames().len() > 0 ==> old(self).frames().last().nesting < u16::MAX,
        ensures
            final(self).wf(),
            final(self).frames() == on_top(
                on_top(old(self).frames(), |f: FrameView| cyclomatic_inc(f, at, kind)),
                |f: FrameView| cognitive_nested(f, at, kind),
            ),
            final(self).finished() == old(self).finished(),
            final(self).pending() == old(self).pending(),
    {
        self.inc_cyclomatic(at, kind);
        self.inc_cognitive_with_nesting(at, kind);
    }

    /// The condition of an `if`, or of an `else if` continuation: `+1`
    /// cyclomatic; cognitive `+1` plus nesting for an `if`, a flat `+1` for
    /// an `else if`.
    pub fn if_condition(&mut self, at: (u32, u32), else_if: bool)
        requires
            old(self).wf(),
            old(self).frames().len() > 0 ==> old(self).frames().last().nesting < u16::MAX,
        ensures
            final(self).wf(),
            final(self).frames() == if else_if {
                on_top(
                    on_top(old(self).frames(), |f: FrameView| cyclomatic_inc(f, at, ComplexityContributionKind::ElseIf)),
                    |f: FrameView| cognitive_flat(f, at, ComplexityContributionKind::ElseIf),
                )
            } else {
                on_top(
                    on_top(old(self).frames(), |f: FrameView| cyclomatic_inc(f, at, ComplexityContributionKind::If)),
                    |f: FrameView| cognitive_nested(f, at, ComplexityContributionKind::If),
                )
            },
            final(self).finished() == old(self).finished(),
            final(self).pending() == old(self).pending(),
    {
        if else_if {
            self.inc_cyclomatic(at, ComplexityContributionKind::ElseIf);
            self.inc_cognitive_flat(at, ComplexityContributionKind::ElseIf);
        } else {
            self.inc_cyclomatic(at, ComplexityContributionKind::If);
            self.inc_cognitive_with_nesting(at, ComplexityContributionKind::If);
        }
    }

    /// A boolean operator expression: `+1` cyclomatic, and the run rule for
    /// cognitive (see [`logical_step`]).
    pub fn logical_expression(&mut self, op: LogicalOp, at: (u32, u32))
        requires
            old(self).wf(),
        ensures
            final(self).wf(),
            final(self).frames() == on_top(
                on_top(old(self).frames(), |f: FrameView| cyclomatic_inc(f, at, logical_kind_of(op))),
                |f: FrameView| logical_step(f, at, op),
            ),
            final(self).finished() == old(self).finished(),
            final(self).pending() == old(self).pending(),
    {
        self.inc_cyclomatic(at, logical_kind(op));
        self.handle_logical_operator(op, at);
    }

    /// A call: a hook call (`useX(..)`) is recorded (see [`hook_step`]).
    pub fn call_expression(&mut self, callee: Option<&str>, at: (u32, u32))
        requires
            old(self).wf(),
        ensures
            final(self).wf(),
            final(self).frames() == match callee {
                Some(c) => if hook_name(c@) {
                    on_top(old(self).frames(), |f: FrameView| hook_step(f, at))
                } else {
                    old(self).frames()
                },
                None => old(self).frames(),
            },
            final(self).finished() == old(self).finished(),
            final(self).pending() == old(self).pending(),
    {
        match callee {
            Some(c) => {
                if is_hook_callee(c) {
                    self.record_hook(at);
                }
            },
            None => {},
        }
    }
}

} // verus!
