//! The props and emits a Vue `<script setup>` (or a Svelte 5 instance
//! script) declares, and which of them the script itself uses.
//!
//! Props come from `defineProps(...)` (runtime object or array, or an inline
//! TS type literal; `withDefaults(defineProps(...), ...)` is peeled), emits
//! from `defineEmits(...)`, Svelte props from `let { .. } = $props()`. Every
//! shape whose names cannot be read statically (a type reference, a spread, a
//! computed key, a rest destructure, an emit through an unknown name) sets an
//! abstain flag, so the detectors skip the file rather than risk a false
//! report.
//!
//! The script is held in [`ScriptProgram`]: its top-level statements, in the
//! shapes the harvest reads, and the facts a syntax walk and scope analysis
//! give about it (which top-level bindings are referenced, which `x.y`
//! member reads, identifier calls and identifier references occur).

use vstd::prelude::*;

use crate::security::{holds_name, texts};
use crate::text::str_eq;

verus! {

// ---------------------------------------------------------------------------
// The script model
// ---------------------------------------------------------------------------

/// A binding target of a declaration or of a destructured property.
#[derive(Debug)]
pub enum BindingPattern {
    /// A plain name (`props`, `foo`).
    Identifier(String),
    /// A target with a default value (`foo = 2`).
    Defaulted(Box<BindingPattern>),
    /// An object destructure: its properties, and whether it ends in a rest
    /// element (`...rest`).
    Object(Vec<PatternProperty>, bool),
    /// Any other target (an array destructure, say).
    Other,
}

/// One property of an object destructure (`key: value`, or shorthand `key`).
#[derive(Debug)]
pub struct PatternProperty {
    /// The static key name; `None` for a computed key (`[k]: v`).
    pub key: Option<String>,
    pub value: BindingPattern,
    pub span_start: u32,
}

/// One member of an inline TS type literal.
#[derive(Debug)]
pub enum TypeMember {
    /// `name: T` (static key name, or `None` when computed).
    Property(Option<String>, u32),
    /// A call signature `(e: 'name', ...): void`: the string-literal type of
    /// its first parameter, if it has one.
    CallSignature(Option<String>, u32),
    /// Any other member (an index signature, a method, ...).
    Other,
}

/// A type argument of a call.
#[derive(Debug)]
pub enum TypeArgument {
    /// An inline type literal `{ ... }`.
    Literal(Vec<TypeMember>),
    /// Any other type (a type reference `Props`, ...).
    Other,
}

/// A member of an object literal.
#[derive(Debug)]
pub enum ObjectMember {
    /// `key: value` (static key name, or `None` when computed), where it
    /// starts, and the value (a method `key() {..}` has an opaque value).
    Property(Option<String>, u32, ScriptExpr),
    /// `...spread`.
    Spread,
}

/// An element of an array literal.
#[derive(Debug)]
pub enum ArrayItem {
    /// A string literal and where it starts.
    StringLiteral(String, u32),
    /// A hole (`[a, , b]`).
    Elision,
    /// Any other element.
    Other,
}

/// An expression, in the shapes the harvest reads.
#[derive(Debug)]
pub enum ScriptExpr {
    Call(Box<ScriptCall>),
    Object(Vec<ObjectMember>),
    Array(Vec<ArrayItem>),
    Other,
}

/// An argument of a call.
#[derive(Debug)]
pub enum CallArgument {
    Expression(ScriptExpr),
    Spread,
}

/// A call expression.
#[derive(Debug)]
pub struct ScriptCall {
    /// The callee's name when the callee is a plain identifier.
    pub callee: Option<String>,
    /// The type arguments (`f<...>(..)`), when written.
    pub type_arguments: Option<Vec<TypeArgument>>,
    pub arguments: Vec<CallArgument>,
}

/// One declarator of a variable declaration.
#[derive(Debug)]
pub struct Declarator {
    pub id: BindingPattern,
    pub init: Option<ScriptExpr>,
}

/// A top-level statement.
#[derive(Debug)]
pub enum ScriptStmt {
    /// `const a = .., b = ..;`
    Declaration(Vec<Declarator>),
    /// An expression statement.
    Expression(ScriptExpr),
    /// `export default ..`: the exported expression, or `None` for an
    /// exported function or class declaration.
    ExportDefault(Option<ScriptExpr>),
    /// Any other statement.
    Other,
}

/// Where an identifier reference stands.
#[derive(Debug, Clone, Copy, PartialEq, Eq, Structural)]
pub enum RefRole {
    /// The object of a static member read (`x` in `x.y`).
    MemberObject,
    /// The callee of a call (`x` in `x(..)`).
    Callee,
    /// Anywhere else.
    Plain,
}

/// A script: its top-level statements and what a walk over all of it finds.
#[derive(Debug)]
pub struct ScriptProgram {
    pub body: Vec<ScriptStmt>,
    /// The top-level bindings with at least one resolved reference.
    pub referenced_roots: Vec<String>,
    /// Every static member read `x.y` whose object is a plain identifier:
    /// `(x, y)`.
    pub member_reads: Vec<(String, String)>,
    /// Every call whose callee is a plain identifier: the callee, and the
    /// first argument when that is a string literal.
    pub identifier_calls: Vec<(String, Option<String>)>,
    /// Every identifier reference and where it stands.
    pub identifier_refs: Vec<(String, RefRole)>,
    /// Every static member read of `this` (`this.name`), apart from the
    /// callee of a `this.$emit(..)` call.
    pub this_reads: Vec<String>,
    /// Every `this.$emit(..)` call: its first argument when that is a string
    /// literal.
    pub this_emits: Vec<Option<String>>,
    /// Some computed member of `this` is read (`this[key]`).
    pub has_dynamic_this: bool,
}

// ---------------------------------------------------------------------------
// Small readings
// ---------------------------------------------------------------------------

/// The local name a destructured value binds, through defaults; `None` for a
/// nested destructure.
pub open spec fn binding_local(p: BindingPattern) -> Option<Seq<char>>
    decreases p,
{
    match p {
        BindingPattern::Identifier(n) => Some(n@),
        BindingPattern::Defaulted(inner) => binding_local(*inner),
        _ => None,
    }
}

/// The local name a destructured value binds (see [`binding_local`]).
pub fn binding_local_name(pattern: &BindingPattern) -> (r: Option<&str>)
    ensures
        match r {
            Some(s) => binding_local(*pattern) == Some(s@),
            None => binding_local(*pattern) is None,
        },
    decreases pattern,
{
    match pattern {
        BindingPattern::Identifier(n) => Some(n.as_str()),
        BindingPattern::Defaulted(inner) => binding_local_name(inner),
        _ => None,
    }
}

/// The call's callee is the identifier `name`.
pub open spec fn callee_is(c: ScriptCall, name: Seq<char>) -> bool {
    c.callee matches Some(n) && n@ == name
}

/// Whether `call`'s callee is the identifier `name`.
pub fn is_callee(call: &ScriptCall, name: &str) -> (r: bool)
    ensures
        r == callee_is(*call, name@),
{
    match &call.callee {
        Some(n) => str_eq(n.as_str(), name),
        None => false,
    }
}

/// The first argument of a call when it is an expression (not a spread).
pub open spec fn first_expr(c: ScriptCall) -> Option<ScriptExpr> {
    if c.arguments@.len() > 0 && c.arguments@[0] is Expression {
        Some(c.arguments@[0]->Expression_0)
    } else {
        None
    }
}

/// The first argument of `call` when it is an expression.
pub fn first_argument(call: &ScriptCall) -> (r: Option<&ScriptExpr>)
    ensures
        match r {
            Some(e) => first_expr(*call) == Some(*e),
            None => first_expr(*call) is None,
        },
{
    if call.arguments.len() > 0 {
        match &call.arguments[0] {
            CallArgument::Expression(e) => Some(e),
            CallArgument::Spread => None,
        }
    } else {
        None
    }
}


// ---------------------------------------------------------------------------
// Declared names
// ---------------------------------------------------------------------------

/// Declared names with where they start, and whether some declaration could
/// not be read (abstain).
pub type NameScan = (Seq<(Seq<char>, u32)>, bool);

/// The names and starts of `v`.
pub open spec fn names_view(v: Seq<(String, u32)>) -> Seq<(Seq<char>, u32)> {
    v.map_values(|p: (String, u32)| (p.0@, p.1))
}

/// Add the string-literal elements of an array literal; any element but a
/// string literal or a hole abstains.
pub open spec fn array_names(acc: NameScan, items: Seq<ArrayItem>) -> NameScan
    decreases items.len(),
{
    if items.len() == 0 {
        acc
    } else {
        let prev = array_names(acc, items.drop_last());
        match items.last() {
            ArrayItem::StringLiteral(v, sp) => (prev.0.push((v@, sp)), prev.1),
            ArrayItem::Elision => prev,
            ArrayItem::Other => (prev.0, true),
        }
    }
}

/// Add the statically named properties of an object literal; a spread
/// abstains.
pub open spec fn object_names(acc: NameScan, members: Seq<ObjectMember>) -> NameScan
    decreases members.len(),
{
    if members.len() == 0 {
        acc
    } else {
        let prev = object_names(acc, members.drop_last());
        match members.last() {
            ObjectMember::Property(Some(k), sp, _) => (prev.0.push((k@, sp)), prev.1),
            ObjectMember::Property(None, _, _) => prev,
            ObjectMember::Spread => (prev.0, true),
        }
    }
}

/// Add the statically named property signatures of a type literal (other
/// members are passed over).
pub open spec fn type_prop_names(acc: NameScan, members: Seq<TypeMember>) -> NameScan
    decreases members.len(),
{
    if members.len() == 0 {
        acc
    } else {
        let prev = type_prop_names(acc, members.drop_last());
        match members.last() {
            TypeMember::Property(Some(k), sp) => (prev.0.push((k@, sp)), prev.1),
            _ => prev,
        }
    }
}

/// Add the event names of an emits type literal: call signatures with a
/// string-literal first parameter and statically named properties; any other
/// call signature or member abstains.
pub open spec fn type_event_names(acc: NameScan, members: Seq<TypeMember>) -> NameScan
    decreases members.len(),
{
    if members.len() == 0 {
        acc
    } else {
        let prev = type_event_names(acc, members.drop_last());
        match members.last() {
            TypeMember::CallSignature(Some(e), sp) => (prev.0.push((e@, sp)), prev.1),
            TypeMember::Property(Some(k), sp) => (prev.0.push((k@, sp)), prev.1),
            TypeMember::Property(None, _) => prev,
            _ => (prev.0, true),
        }
    }
}

fn push_named(names: &mut Vec<(String, u32)>, name: &String, span_start: u32)
    ensures
        names_view(final(names)@) == names_view(old(names)@).push((name@, span_start)),
{
    let ghost before = names@;
    names.push((name.clone(), span_start));
    assert(names_view(names@) =~= names_view(before).push((name@, span_start)));
}

fn add_array_names(items: &Vec<ArrayItem>, names: &mut Vec<(String, u32)>, abstain: &mut bool)
    ensures
        (names_view(final(names)@), *final(abstain)) == array_names((names_view(old(names)@), *old(abstain)), items@),
{
    let ghost start = (names_view(names@), *abstain);
    let mut i: usize = 0;
    while i < items.len()
        invariant
            i <= items@.len(),
            (names_view(names@), *abstain) == array_names(start, items@.subrange(0, i as int)),
        decreases items@.len() - i,
    {
        match &items[i] {
            ArrayItem::StringLiteral(v, sp) => push_named(names, v, *sp),
            ArrayItem::Elision => {},
            ArrayItem::Other => *abstain = true,
        }
        assert(items@.subrange(0, i + 1).drop_last() =~= items@.subrange(0, i as int));
        i = i + 1;
    }
    assert(items@.subrange(0, i as int) =~= items@);
}

fn add_object_names(members: &Vec<ObjectMember>, names: &mut Vec<(String, u32)>, abstain: &mut bool)
    ensures
        (names_view(final(names)@), *final(abstain)) == object_names((names_view(old(names)@), *old(abstain)), members@),
{
    let ghost start = (names_view(names@), *abstain);
    let mut i: usize = 0;
    while i < members.len()
        invariant
            i <= members@.len(),
            (names_view(names@), *abstain) == object_names(start, members@.subrange(0, i as int)),
        decreases members@.len() - i,
    {
        match &members[i] {
            ObjectMember::Property(Some(k), sp, _) => push_named(names, k, *sp),
            ObjectMember::Property(None, _, _) => {},
            ObjectMember::Spread => *abstain = true,
        }
        assert(members@.subrange(0, i + 1).drop_last() =~= members@.subrange(0, i as int));
        i = i + 1;
    }
    assert(members@.subrange(0, i as int) =~= members@);
}

fn add_type_names(members: &Vec<TypeMember>, events: bool, names: &mut Vec<(String, u32)>, abstain: &mut bool)
    ensures
        (names_view(final(names)@), *final(abstain)) == if events {
            type_event_names((names_view(old(names)@), *old(abstain)), members@)
        } else {
            type_prop_names((names_view(old(names)@), *old(abstain)), members@)
        },
{
    let ghost start = (names_view(names@), *abstain);
    let mut i: usize = 0;
    while i < members.len()
        invariant
            i <= members@.len(),
            (names_view(names@), *abstain) == if events {
                type_event_names(start, members@.subrange(0, i as int))
            } else {
                type_prop_names(start, members@.subrange(0, i as int))
            },
        decreases members@.len() - i,
    {
        match &members[i] {
            TypeMember::Property(Some(k), sp) => push_named(names, k, *sp),
            TypeMember::Property(None, _) => {},
            TypeMember::CallSignature(Some(e), sp) => {
                if events {
                    push_named(names, e, *sp);
                }
            },
            _ => {
                if events {
                    *abstain = true;
                }
            },
        }
        assert(members@.subrange(0, i + 1).drop_last() =~= members@.subrange(0, i as int));
        i = i + 1;
    }
    assert(members@.subrange(0, i as int) =~= members@);
}

/// The prop names a `defineProps(...)` call declares: the members of an
/// inline type literal, else the keys of a runtime object or the strings of a
/// runtime array. Any other type argument or runtime argument abstains.
pub open spec fn props_call_names(acc: NameScan, c: ScriptCall) -> NameScan {
    match c.type_arguments {
        Some(params) => if params@.len() == 0 {
            acc
        } else {
            match params@[0] {
                TypeArgument::Literal(members) => type_prop_names(acc, members@),
                TypeArgument::Other => (acc.0, true),
            }
        },
        None => match first_expr(c) {
            Some(ScriptExpr::Object(members)) => object_names(acc, members@),
            Some(ScriptExpr::Array(items)) => array_names(acc, items@),
            Some(_) => (acc.0, true),
            None => acc,
        },
    }
}

/// The event names a `defineEmits(...)` call declares: those of an inline
/// type literal, else the strings of a runtime array. Any other type argument
/// or runtime argument abstains.
pub open spec fn emits_call_names(acc: NameScan, c: ScriptCall) -> NameScan {
    match c.type_arguments {
        Some(params) => if params@.len() == 0 {
            acc
        } else {
            match params@[0] {
                TypeArgument::Literal(members) => type_event_names(acc, members@),
                TypeArgument::Other => (acc.0, true),
            }
        },
        None => match first_expr(c) {
            Some(ScriptExpr::Array(items)) => array_names(acc, items@),
            Some(_) => (acc.0, true),
            None => acc,
        },
    }
}

/// Add the names `call` declares: its props, or (`events`) its emits.
fn collect_call_names(call: &ScriptCall, events: bool, names: &mut Vec<(String, u32)>, abstain: &mut bool)
    ensures
        (names_view(final(names)@), *final(abstain)) == if events {
            emits_call_names((names_view(old(names)@), *old(abstain)), *call)
        } else {
            props_call_names((names_view(old(names)@), *old(abstain)), *call)
        },
{
    match &call.type_arguments {
        Some(params) => {
            if params.len() > 0 {
                match &params[0] {
                    TypeArgument::Literal(members) => add_type_names(members, events, names, abstain),
                    TypeArgument::Other => *abstain = true,
                }
            }
        },
        None => {
            match first_argument(call) {
                Some(ScriptExpr::Object(members)) => {
                    if events {
                        *abstain = true;
                    } else {
                        add_object_names(members, names, abstain);
                    }
                },
                Some(ScriptExpr::Array(items)) => add_array_names(items, names, abstain),
                Some(_) => *abstain = true,
                None => {},
            }
        },
    }
}


// ---------------------------------------------------------------------------
// `defineProps`
// ---------------------------------------------------------------------------

/// The `defineProps(...)` call an expression makes, looking through
/// `withDefaults(defineProps(...), ...)`.
pub open spec fn define_props_call(e: ScriptExpr) -> Option<ScriptCall>
    decreases e,
{
    match e {
        ScriptExpr::Call(c) => if callee_is(*c, "defineProps"@) {
            Some(*c)
        } else if callee_is(*c, "withDefaults"@) && c.arguments@.len() > 0 {
            match c.arguments@[0] {
                CallArgument::Expression(inner) => define_props_call(inner),
                CallArgument::Spread => None,
            }
        } else {
            None
        },
        _ => None,
    }
}

/// The `defineProps(...)` call `expr` makes (see [`define_props_call`]).
pub fn unwrap_define_props_call(expr: &ScriptExpr) -> (r: Option<&ScriptCall>)
    ensures
        match r {
            Some(c) => define_props_call(*expr) == Some(*c),
            None => define_props_call(*expr) is None,
        },
    decreases expr,
{
    match expr {
        ScriptExpr::Call(call) => {
            if is_callee(call, "defineProps") {
                Some(call)
            } else if is_callee(call, "withDefaults") && call.arguments.len() > 0 {
                match &call.arguments[0] {
                    CallArgument::Expression(inner) => unwrap_define_props_call(inner),
                    CallArgument::Spread => None,
                }
            } else {
                None
            }
        },
        _ => None,
    }
}

/// What the statement pass of the `defineProps` harvest has found so far.
pub struct PropsScan {
    /// Declared prop names and where they start.
    pub names: Seq<(Seq<char>, u32)>,
    pub unharvestable: bool,
    pub fallthrough: bool,
    pub expose: bool,
    pub model: bool,
    /// The name the `defineProps` result is bound to (`const props = ..`).
    pub binding: Option<Seq<char>>,
    /// The locals a destructure of the result binds.
    pub locals: Seq<Seq<char>>,
    /// `(prop, local)` for each destructured prop with a static key, in order
    /// (a later entry for the same prop wins).
    pub aliases: Seq<(Seq<char>, Seq<char>)>,
}


/// No props found yet.
pub open spec fn empty_props_scan() -> PropsScan {
    PropsScan {
        names: seq![],
        unharvestable: false,
        fallthrough: false,
        expose: false,
        model: false,
        binding: None,
        locals: seq![],
        aliases: seq![],
    }
}

/// A `defineExpose(..)` or `defineModel(..)` call is noted.
pub open spec fn note_macro(st: PropsScan, c: ScriptCall) -> PropsScan {
    if callee_is(c, "defineExpose"@) {
        PropsScan { expose: true, ..st }
    } else if callee_is(c, "defineModel"@) {
        PropsScan { model: true, ..st }
    } else {
        st
    }
}

/// Only the first `defineProps` call that declares names is read (and none
/// once the file abstains).
pub open spec fn with_prop_names(st: PropsScan, c: ScriptCall) -> PropsScan {
    if st.names.len() == 0 && !st.unharvestable {
        let n = props_call_names((st.names, st.unharvestable), c);
        PropsScan { names: n.0, unharvestable: n.1, ..st }
    } else {
        st
    }
}

/// The locals (and prop-to-local aliases) of a destructure of the props.
pub open spec fn destructured(st: PropsScan, props: Seq<PatternProperty>) -> PropsScan
    decreases props.len(),
{
    if props.len() == 0 {
        st
    } else {
        let prev = destructured(st, props.drop_last());
        let p = props.last();
        match binding_local(p.value) {
            Some(l) => PropsScan {
                locals: prev.locals.push(l),
                aliases: match p.key {
                    Some(k) => prev.aliases.push((k@, l)),
                    None => prev.aliases,
                },
                ..prev
            },
            None => prev,
        }
    }
}

/// What binding the props to `id` records: the binding name, or the
/// destructured locals (a rest element makes every prop fall through).
pub open spec fn bind_props_result(st: PropsScan, id: BindingPattern) -> PropsScan {
    match id {
        BindingPattern::Identifier(n) => PropsScan { binding: Some(n@), ..st },
        BindingPattern::Object(props, rest) => {
            let d = destructured(st, props@);
            if rest {
                PropsScan { fallthrough: true, ..d }
            } else {
                d
            }
        },
        _ => st,
    }
}

/// One declarator of the statement pass.
pub open spec fn props_declarator(st: PropsScan, d: Declarator) -> PropsScan {
    match d.init {
        None => st,
        Some(init) => {
            let noted = match init {
                ScriptExpr::Call(c) => note_macro(st, *c),
                _ => st,
            };
            match define_props_call(init) {
                Some(c) => bind_props_result(with_prop_names(noted, c), d.id),
                None => noted,
            }
        },
    }
}

/// The declarators of one declaration, in order.
pub open spec fn props_declarators(st: PropsScan, ds: Seq<Declarator>) -> PropsScan
    decreases ds.len(),
{
    if ds.len() == 0 {
        st
    } else {
        props_declarator(props_declarators(st, ds.drop_last()), ds.last())
    }
}

/// One top-level statement of the statement pass.
pub open spec fn props_statement(st: PropsScan, s: ScriptStmt) -> PropsScan {
    match s {
        ScriptStmt::Declaration(ds) => props_declarators(st, ds@),
        ScriptStmt::Expression(e) => match e {
            ScriptExpr::Call(c) => {
                let noted = note_macro(st, *c);
                match define_props_call(ScriptExpr::Call(c)) {
                    Some(inner) => with_prop_names(noted, inner),
                    None => noted,
                }
            },
            _ => st,
        },
        _ => st,
    }
}

/// The statement pass over the first statements of a script.
pub open spec fn props_scan(body: Seq<ScriptStmt>) -> PropsScan
    decreases body.len(),
{
    if body.len() == 0 {
        empty_props_scan()
    } else {
        props_statement(props_scan(body.drop_last()), body.last())
    }
}

/// The local a prop is read through: its last destructure alias, else its
/// own name.
pub open spec fn alias_of(aliases: Seq<(Seq<char>, Seq<char>)>, name: Seq<char>) -> Seq<char>
    decreases aliases.len(),
{
    if aliases.len() == 0 {
        name
    } else if aliases.last().0 == name {
        aliases.last().1
    } else {
        alias_of(aliases.drop_last(), name)
    }
}

/// `b.name` is read somewhere in the script.
pub open spec fn member_read(p: ScriptProgram, b: Seq<char>, name: Seq<char>) -> bool {
    exists|i: int| 0 <= i < p.member_reads@.len() && (#[trigger] p.member_reads@[i]).0@ == b && p.member_reads@[i].1@ == name
}

/// `b` is referenced somewhere other than in the `skipped` position: the
/// value itself flows somewhere.
pub open spec fn used_whole(p: ScriptProgram, b: Seq<char>, skipped: RefRole) -> bool {
    exists|i: int| 0 <= i < p.identifier_refs@.len() && (#[trigger] p.identifier_refs@[i]).0@ == b && p.identifier_refs@[i].1 != skipped
}

/// The props binding is referenced other than as `props.x`: every prop may be
/// consumed unseen.
pub open spec fn props_used_whole(p: ScriptProgram, st: PropsScan) -> bool {
    st.binding matches Some(b) && used_whole(p, b, RefRole::MemberObject)
}

/// A prop is used in the script: its destructured local is referenced, or it
/// is read as a member of the props binding.
pub open spec fn prop_used_in_script(p: ScriptProgram, st: PropsScan, name: Seq<char>) -> bool {
    let local = alias_of(st.aliases, name);
    ||| st.locals.contains(local) && texts(p.referenced_roots@).contains(local)
    ||| st.binding matches Some(b) && member_read(p, b, name)
}

/// A declared prop of a component.
#[derive(Debug, Clone, PartialEq, Eq)]
pub struct ComponentProp {
    pub name: String,
    /// The local it is read through in the script.
    pub local: String,
    pub span_start: u32,
    pub used_in_script: bool,
    pub used_in_template: bool,
    pub component: String,
    pub used_outside_forward: bool,
}

/// The props a `<script setup>` declares and the whole-file abstain flags.
#[derive(Debug)]
pub struct DefinePropsHarvest {
    pub props: Vec<ComponentProp>,
    /// The names cannot be read (a type reference, a spread, ...).
    pub has_unharvestable_props: bool,
    /// Some prop may be consumed unseen (a rest destructure, or the props
    /// object used whole).
    pub has_props_attrs_fallthrough: bool,
    pub has_define_expose: bool,
    pub has_define_model: bool,
    /// The name the props are bound to, when they are bound to one.
    pub props_return_binding: Option<String>,
}

/// The text of an optional string.
pub open spec fn opt_text(o: Option<String>) -> Option<Seq<char>> {
    match o {
        Some(s) => Some(s@),
        None => None,
    }
}

/// `c` is the harvested form of the declared prop `n`.
pub open spec fn harvested_prop(p: ScriptProgram, st: PropsScan, c: ComponentProp, n: (Seq<char>, u32)) -> bool {
    &&& c.name@ == n.0
    &&& c.span_start == n.1
    &&& c.local@ == alias_of(st.aliases, n.0)
    &&& c.used_in_script == prop_used_in_script(p, st, n.0)
    &&& !c.used_in_template
    &&& c.component@ == Seq::<char>::empty()
    &&& !c.used_outside_forward
}

/// The exec state of the statement pass.
struct PropsScanner {
    names: Vec<(String, u32)>,
    unharvestable: bool,
    fallthrough: bool,
    expose: bool,
    model: bool,
    binding: Option<String>,
    locals: Vec<String>,
    aliases: Vec<(String, String)>,
}

/// The `(prop, local)` texts of alias pairs.
pub open spec fn pairs_view(v: Seq<(String, String)>) -> Seq<(Seq<char>, Seq<char>)> {
    v.map_values(|p: (String, String)| (p.0@, p.1@))
}

impl PropsScanner {
    spec fn scan(&self) -> PropsScan {
        PropsScan {
            names: names_view(self.names@),
            unharvestable: self.unharvestable,
            fallthrough: self.fallthrough,
            expose: self.expose,
            model: self.model,
            binding: opt_text(self.binding),
            locals: texts(self.locals@),
            aliases: pairs_view(self.aliases@),
        }
    }

    fn new() -> (r: Self)
        ensures
            r.scan() == empty_props_scan(),
    {
        let r = PropsScanner {
            names: Vec::new(),
            unharvestable: false,
            fallthrough: false,
            expose: false,
            model: false,
            binding: None,
            locals: Vec::new(),
            aliases: Vec::new(),
        };
        assert(r.scan().names =~= Seq::<(Seq<char>, u32)>::empty());
        assert(r.scan().locals =~= Seq::<Seq<char>>::empty());
        assert(r.scan().aliases =~= Seq::<(Seq<char>, Seq<char>)>::empty());
        r
    }

    fn inspect_macro_call(&mut self, c: &ScriptCall)
        ensures
            final(self).scan() == note_macro(old(self).scan(), *c),
    {
        if is_callee(c, "defineExpose") {
            self.expose = true;
        } else if is_callee(c, "defineModel") {
            self.model = true;
        }
    }

    fn collect_define_props_names(&mut self, c: &ScriptCall)
        ensures
            final(self).scan() == with_prop_names(old(self).scan(), *c),
    {
        if self.names.len() == 0 && !self.unharvestable {
            collect_call_names(c, false, &mut self.names, &mut self.unharvestable);
        }
    }

    fn destructure(&mut self, props: &Vec<PatternProperty>)
        ensures
            final(self).scan() == destructured(old(self).scan(), props@),
    {
        let ghost start = self.scan();
        let mut i: usize = 0;
        while i < props.len()
            invariant
                i <= props@.len(),
                self.scan() == destructured(start, props@.subrange(0, i as int)),
            decreases props@.len() - i,
        {
            let p = &props[i];
            let ghost prev = self.scan();
            match binding_local_name(&p.value) {
                Some(local) => {
                    let ghost locals0 = self.locals@;
                    self.locals.push(local.to_owned());
                    assert(texts(self.locals@) =~= texts(locals0).push(local@));
                    match &p.key {
                        Some(k) => {
                            let ghost aliases0 = self.aliases@;
                            self.aliases.push((k.clone(), local.to_owned()));
                            assert(pairs_view(self.aliases@) =~= pairs_view(aliases0).push((k@, local@)));
                        },
                        None => {},
                    }
                },
                None => {},
            }
            assert(props@.subrange(0, i + 1).drop_last() =~= props@.subrange(0, i as int));
            assert(props@.subrange(0, i + 1).last() == props@[i as int]);
            i = i + 1;
        }
        assert(props@.subrange(0, i as int) =~= props@);
    }

    fn bind_define_props_target(&mut self, id: &BindingPattern)
        ensures
            final(self).scan() == bind_props_result(old(self).scan(), *id),
    {
        match id {
            BindingPattern::Identifier(n) => {
                self.binding = Some(n.clone());
            },
            BindingPattern::Object(props, rest) => {
                self.destructure(props);
                if *rest {
                    self.fallthrough = true;
                }
            },
            _ => {},
        }
    }

    fn declarator(&mut self, d: &Declarator)
        ensures
            final(self).scan() == props_declarator(old(self).scan(), *d),
    {
        match &d.init {
            None => {},
            Some(init) => {
                match init {
                    ScriptExpr::Call(c) => self.inspect_macro_call(c),
                    _ => {},
                }
                match unwrap_define_props_call(init) {
                    Some(c) => {
                        self.collect_define_props_names(c);
                        self.bind_define_props_target(&d.id);
                    },
                    None => {},
                }
            },
        }
    }

    fn statement(&mut self, s: &ScriptStmt)
        ensures
            final(self).scan() == props_statement(old(self).scan(), *s),
    {
        match s {
            ScriptStmt::Declaration(ds) => {
                let ghost start = self.scan();
                let mut i: usize = 0;
                while i < ds.len()
                    invariant
                        i <= ds@.len(),
                        self.scan() == props_declarators(start, ds@.subrange(0, i as int)),
                    decreases ds@.len() - i,
                {
                    self.declarator(&ds[i]);
                    assert(ds@.subrange(0, i + 1).drop_last() =~= ds@.subrange(0, i as int));
                    i = i + 1;
                }
                assert(ds@.subrange(0, i as int) =~= ds@);
            },
            ScriptStmt::Expression(e) => {
                match e {
                    ScriptExpr::Call(c) => {
                        self.inspect_macro_call(c);
                        match unwrap_define_props_call(e) {
                            Some(inner) => self.collect_define_props_names(inner),
                            None => {},
                        }
                    },
                    _ => {},
                }
            },
            _ => {},
        }
    }
}

/// The local `name` is read through (see [`alias_of`]).
fn lookup_alias(aliases: &Vec<(String, String)>, name: &str) -> (r: String)
    ensures
        r@ == alias_of(pairs_view(aliases@), name@),
{
    let mut i: usize = aliases.len();
    assert(aliases@.subrange(0, i as int) =~= aliases@);
    while i > 0
        invariant
            i <= aliases@.len(),
            alias_of(pairs_view(aliases@), name@) == alias_of(pairs_view(aliases@.subrange(0, i as int)), name@),
        decreases i,
    {
        let ghost sub = pairs_view(aliases@.subrange(0, i as int));
        assert(sub.last() == (aliases@[i - 1].0@, aliases@[i - 1].1@));
        if str_eq(aliases[i - 1].0.as_str(), name) {
            return aliases[i - 1].1.clone();
        }
        assert(sub.drop_last() =~= pairs_view(aliases@.subrange(0, i - 1)));
        i = i - 1;
    }
    name.to_owned()
}

/// Whether `b.name` is read somewhere in the script.
fn is_member_read(program: &ScriptProgram, b: &str, name: &str) -> (r: bool)
    ensures
        r == member_read(*program, b@, name@),
{
    let mut i: usize = 0;
    while i < program.member_reads.len()
        invariant
            i <= program.member_reads@.len(),
            forall|j: int| 0 <= j < i ==> !((#[trigger] program.member_reads@[j]).0@ == b@ && program.member_reads@[j].1@ == name@),
        decreases program.member_reads@.len() - i,
    {
        if str_eq(program.member_reads[i].0.as_str(), b) && str_eq(program.member_reads[i].1.as_str(), name) {
            return true;
        }
        i = i + 1;
    }
    false
}

/// Whether `b` is referenced anywhere but in the `skipped` position.
fn is_used_whole(program: &ScriptProgram, b: &str, skipped: RefRole) -> (r: bool)
    ensures
        r == used_whole(*program, b@, skipped),
{
    let mut i: usize = 0;
    while i < program.identifier_refs.len()
        invariant
            i <= program.identifier_refs@.len(),
            forall|j: int| 0 <= j < i ==> !((#[trigger] program.identifier_refs@[j]).0@ == b@ && program.identifier_refs@[j].1 != skipped),
        decreases program.identifier_refs@.len() - i,
    {
        if str_eq(program.identifier_refs[i].0.as_str(), b) && program.identifier_refs[i].1 != skipped {
            return true;
        }
        i = i + 1;
    }
    false
}

/// The props a `<script setup>` declares through `defineProps` (runtime
/// object or array, inline type literal, through `withDefaults`), each with
/// the local it is read through and whether the script uses it (its
/// destructured local is referenced, or it is read as a member of the props
/// binding), and the whole-file abstain flags: unreadable names, props that
/// may be consumed unseen (a rest destructure, the props object used whole),
/// `defineExpose` and `defineModel` calls. Only the first `defineProps` call
/// that declares names is read; without declared props nothing is checked
/// and no binding is reported.
pub fn harvest_define_props(program: &ScriptProgram) -> (r: DefinePropsHarvest)
    ensures
        r.has_unharvestable_props == props_scan(program.body@).unharvestable,
        r.has_define_expose == props_scan(program.body@).expose,
        r.has_define_model == props_scan(program.body@).model,
        props_scan(program.body@).names.len() == 0 ==> {
            &&& r.props@.len() == 0
            &&& r.has_props_attrs_fallthrough == props_scan(program.body@).fallthrough
            &&& r.props_return_binding is None
        },
        props_scan(program.body@).names.len() > 0 ==> {
            let st = props_scan(program.body@);
            &&& r.has_props_attrs_fallthrough == (st.fallthrough || props_used_whole(*program, st))
            &&& opt_text(r.props_return_binding) == st.binding
            &&& r.props@.len() == st.names.len()
            &&& forall|i: int| 0 <= i < st.names.len() ==> harvested_prop(*program, st, #[trigger] r.props@[i], st.names[i])
        },
{
    let mut sc = PropsScanner::new();
    let mut k: usize = 0;
    while k < program.body.len()
        invariant
            k <= program.body@.len(),
            sc.scan() == props_scan(program.body@.subrange(0, k as int)),
        decreases program.body@.len() - k,
    {
        sc.statement(&program.body[k]);
        assert(program.body@.subrange(0, k + 1).drop_last() =~= program.body@.subrange(0, k as int));
        k = k + 1;
    }
    assert(program.body@.subrange(0, k as int) =~= program.body@);
    let ghost st = sc.scan();
    if sc.names.len() == 0 {
        return DefinePropsHarvest {
            props: Vec::new(),
            has_unharvestable_props: sc.unharvestable,
            has_props_attrs_fallthrough: sc.fallthrough,
            has_define_expose: sc.expose,
            has_define_model: sc.model,
            props_return_binding: None,
        };
    }
    let whole = match &sc.binding {
        Some(b) => is_used_whole(program, b.as_str(), RefRole::MemberObject),
        None => false,
    };
    let props = harvested_props(program, &sc);
    DefinePropsHarvest {
        props,
        has_unharvestable_props: sc.unharvestable,
        has_props_attrs_fallthrough: sc.fallthrough || whole,
        has_define_expose: sc.expose,
        has_define_model: sc.model,
        props_return_binding: sc.binding,
    }
}


// ---------------------------------------------------------------------------
// Svelte `$props()`
// ---------------------------------------------------------------------------

/// The expression is a bare `$props()` rune call.
pub open spec fn props_rune_call(e: ScriptExpr) -> bool {
    e matches ScriptExpr::Call(c) && callee_is(*c, "$props"@)
}

/// The props of a destructure of `$props()`: each flat property with a static
/// key is a prop read through its local; a computed key or a nested
/// destructure abstains.
pub open spec fn svelte_destructured(st: PropsScan, props: Seq<PatternProperty>) -> PropsScan
    decreases props.len(),
{
    if props.len() == 0 {
        st
    } else {
        let prev = svelte_destructured(st, props.drop_last());
        let p = props.last();
        match binding_local(p.value) {
            Some(l) => match p.key {
                Some(k) => PropsScan {
                    locals: prev.locals.push(l),
                    names: prev.names.push((k@, p.span_start)),
                    aliases: prev.aliases.push((k@, l)),
                    ..prev
                },
                None => PropsScan { locals: prev.locals.push(l), unharvestable: true, ..prev },
            },
            None => PropsScan { unharvestable: true, ..prev },
        }
    }
}

/// Binding `$props()` to `id`: a destructure declares its props (a rest
/// element makes every prop fall through); any other target abstains.
pub open spec fn bind_svelte_props(st: PropsScan, id: BindingPattern) -> PropsScan {
    match id {
        BindingPattern::Object(props, rest) => {
            let d = svelte_destructured(st, props@);
            if rest {
                PropsScan { fallthrough: true, ..d }
            } else {
                d
            }
        },
        _ => PropsScan { unharvestable: true, ..st },
    }
}

/// The declarators initialised with `$props()`, in order.
pub open spec fn svelte_declarators(st: PropsScan, ds: Seq<Declarator>) -> PropsScan
    decreases ds.len(),
{
    if ds.len() == 0 {
        st
    } else {
        let prev = svelte_declarators(st, ds.drop_last());
        let d = ds.last();
        match d.init {
            Some(init) => if props_rune_call(init) {
                bind_svelte_props(prev, d.id)
            } else {
                prev
            },
            None => prev,
        }
    }
}

/// The statement pass of the Svelte harvest over the first statements.
pub open spec fn svelte_scan(body: Seq<ScriptStmt>) -> PropsScan
    decreases body.len(),
{
    if body.len() == 0 {
        empty_props_scan()
    } else {
        let prev = svelte_scan(body.drop_last());
        match body.last() {
            ScriptStmt::Declaration(ds) => svelte_declarators(prev, ds@),
            _ => prev,
        }
    }
}

impl PropsScanner {
    fn svelte_destructure(&mut self, props: &Vec<PatternProperty>)
        ensures
            final(self).scan() == svelte_destructured(old(self).scan(), props@),
    {
        let ghost start = self.scan();
        let mut i: usize = 0;
        while i < props.len()
            invariant
                i <= props@.len(),
                self.scan() == svelte_destructured(start, props@.subrange(0, i as int)),
            decreases props@.len() - i,
        {
            let p = &props[i];
            match binding_local_name(&p.value) {
                Some(local) => {
                    let ghost locals0 = self.locals@;
                    self.locals.push(local.to_owned());
                    assert(texts(self.locals@) =~= texts(locals0).push(local@));
                    match &p.key {
                        Some(k) => {
                            push_named(&mut self.names, k, p.span_start);
                            let ghost aliases0 = self.aliases@;
                            self.aliases.push((k.clone(), local.to_owned()));
                            assert(pairs_view(self.aliases@) =~= pairs_view(aliases0).push((k@, local@)));
                        },
                        None => {
                            self.unharvestable = true;
                        },
                    }
                },
                None => {
                    self.unharvestable = true;
                },
            }
            assert(props@.subrange(0, i + 1).drop_last() =~= props@.subrange(0, i as int));
            assert(props@.subrange(0, i + 1).last() == props@[i as int]);
            i = i + 1;
        }
        assert(props@.subrange(0, i as int) =~= props@);
    }

    fn bind_svelte_props_target(&mut self, id: &BindingPattern)
        ensures
            final(self).scan() == bind_svelte_props(old(self).scan(), *id),
    {
        match id {
            BindingPattern::Object(props, rest) => {
                self.svelte_destructure(props);
                if *rest {
                    self.fallthrough = true;
                }
            },
            _ => {
                self.unharvestable = true;
            },
        }
    }

    fn svelte_statement(&mut self, s: &ScriptStmt)
        ensures
            final(self).scan() == match *s {
                ScriptStmt::Declaration(ds) => svelte_declarators(old(self).scan(), ds@),
                _ => old(self).scan(),
            },
    {
        match s {
            ScriptStmt::Declaration(ds) => {
                let ghost start = self.scan();
                let mut i: usize = 0;
                while i < ds.len()
                    invariant
                        i <= ds@.len(),
                        self.scan() == svelte_declarators(start, ds@.subrange(0, i as int)),
                    decreases ds@.len() - i,
                {
                    let d = &ds[i];
                    match &d.init {
                        Some(ScriptExpr::Call(c)) => {
                            if is_callee(c, "$props") {
                                self.bind_svelte_props_target(&d.id);
                            }
                        },
                        _ => {},
                    }
                    assert(ds@.subrange(0, i + 1).drop_last() =~= ds@.subrange(0, i as int));
                    assert(ds@.subrange(0, i + 1).last() == ds@[i as int]);
                    i = i + 1;
                }
                assert(ds@.subrange(0, i as int) =~= ds@);
            },
            _ => {},
        }
    }
}

/// Build the harvested props of a finished statement pass.
fn harvested_props(program: &ScriptProgram, sc: &PropsScanner) -> (r: Vec<ComponentProp>)
    ensures
        r@.len() == sc.scan().names.len(),
        forall|i: int| 0 <= i < sc.scan().names.len() ==> harvested_prop(*program, sc.scan(), #[trigger] r@[i], sc.scan().names[i]),
{
    let ghost st = sc.scan();
    let mut props: Vec<ComponentProp> = Vec::new();
    let mut i: usize = 0;
    while i < sc.names.len()
        invariant
            i <= sc.names@.len(),
            st == sc.scan(),
            props@.len() == i,
            forall|j: int| 0 <= j < i ==> harvested_prop(*program, st, #[trigger] props@[j], st.names[j]),
        decreases sc.names@.len() - i,
    {
        let name = sc.names[i].0.as_str();
        let local = lookup_alias(&sc.aliases, name);
        let by_local = holds_name(&sc.locals, local.as_str()) && holds_name(&program.referenced_roots, local.as_str());
        let by_member = match &sc.binding {
            Some(b) => is_member_read(program, b.as_str(), name),
            None => false,
        };
        let prop = ComponentProp {
            name: sc.names[i].0.clone(),
            local,
            span_start: sc.names[i].1,
            used_in_script: by_local || by_member,
            used_in_template: false,
            component: String::new(),
            used_outside_forward: false,
        };
        assert(st.names[i as int] == (sc.names@[i as int].0@, sc.names@[i as int].1));
        let ghost before = props@;
        props.push(prop);
        assert forall|j: int| 0 <= j < i + 1 implies harvested_prop(*program, st, #[trigger] props@[j], st.names[j]) by {
            if j < i {
                assert(props@[j] == before[j]);
            }
        }
        i = i + 1;
    }
    props
}

proof fn lemma_svelte_destructure_keeps_binding(st: PropsScan, props: Seq<PatternProperty>)
    ensures
        svelte_destructured(st, props).binding == st.binding,
        svelte_destructured(st, props).expose == st.expose,
        svelte_destructured(st, props).model == st.model,
    decreases props.len(),
{
    if props.len() > 0 {
        lemma_svelte_destructure_keeps_binding(st, props.drop_last());
    }
}

proof fn lemma_svelte_keeps_binding(st: PropsScan, ds: Seq<Declarator>)
    ensures
        svelte_declarators(st, ds).binding == st.binding,
        svelte_declarators(st, ds).expose == st.expose,
        svelte_declarators(st, ds).model == st.model,
    decreases ds.len(),
{
    if ds.len() > 0 {
        lemma_svelte_keeps_binding(st, ds.drop_last());
        let prev = svelte_declarators(st, ds.drop_last());
        if let BindingPattern::Object(ps, _) = ds.last().id {
            lemma_svelte_destructure_keeps_binding(prev, ps@);
        }
    }
}

proof fn lemma_svelte_scan_unbound(body: Seq<ScriptStmt>)
    ensures
        svelte_scan(body).binding is None,
        !svelte_scan(body).expose,
        !svelte_scan(body).model,
    decreases body.len(),
{
    if body.len() > 0 {
        lemma_svelte_scan_unbound(body.drop_last());
        if let ScriptStmt::Declaration(ds) = body.last() {
            lemma_svelte_keeps_binding(svelte_scan(body.drop_last()), ds@);
        }
    }
}

/// The props a Svelte 5 instance script declares through
/// `let { .. } = $props()`, each with the local it is read through and
/// whether that local is referenced, and the abstain flags: a whole-object
/// binding (`let p = $props()`), a computed key or a nested destructure makes
/// the names unreadable; a rest element lets props fall through. Without
/// declared props nothing is checked.
pub fn harvest_svelte_props(program: &ScriptProgram) -> (r: DefinePropsHarvest)
    ensures
        r.has_unharvestable_props == svelte_scan(program.body@).unharvestable,
        r.has_props_attrs_fallthrough == svelte_scan(program.body@).fallthrough,
        !r.has_define_expose,
        !r.has_define_model,
        r.props_return_binding is None,
        r.props@.len() == svelte_scan(program.body@).names.len(),
        forall|i: int|
            0 <= i < svelte_scan(program.body@).names.len() ==> harvested_prop(
                *program,
                svelte_scan(program.body@),
                #[trigger] r.props@[i],
                svelte_scan(program.body@).names[i],
            ),
{
    let mut sc = PropsScanner::new();
    let mut k: usize = 0;
    while k < program.body.len()
        invariant
            k <= program.body@.len(),
            sc.scan() == svelte_scan(program.body@.subrange(0, k as int)),
        decreases program.body@.len() - k,
    {
        sc.svelte_statement(&program.body[k]);
        assert(program.body@.subrange(0, k + 1).drop_last() =~= program.body@.subrange(0, k as int));
        k = k + 1;
    }
    assert(program.body@.subrange(0, k as int) =~= program.body@);
    proof {
        lemma_svelte_scan_unbound(program.body@);
    }
    let props = if sc.names.len() == 0 {
        Vec::new()
    } else {
        harvested_props(program, &sc)
    };
    DefinePropsHarvest {
        props,
        has_unharvestable_props: sc.unharvestable,
        has_props_attrs_fallthrough: sc.fallthrough,
        has_define_expose: false,
        has_define_model: false,
        props_return_binding: None,
    }
}


// ---------------------------------------------------------------------------
// `defineEmits`
// ---------------------------------------------------------------------------

/// The `defineEmits(...)` call an expression is.
pub open spec fn define_emits_call(e: ScriptExpr) -> Option<ScriptCall> {
    match e {
        ScriptExpr::Call(c) => if callee_is(*c, "defineEmits"@) {
            Some(*c)
        } else {
            None
        },
        _ => None,
    }
}

/// The `defineEmits(...)` call `expr` is (see [`define_emits_call`]).
pub fn unwrap_define_emits_call(expr: &ScriptExpr) -> (r: Option<&ScriptCall>)
    ensures
        match r {
            Some(c) => define_emits_call(*expr) == Some(*c),
            None => define_emits_call(*expr) is None,
        },
{
    match expr {
        ScriptExpr::Call(call) => {
            if is_callee(call, "defineEmits") {
                Some(call)
            } else {
                None
            }
        },
        _ => None,
    }
}

/// What the statement pass of the `defineEmits` harvest has found so far:
/// the declared events, the abstain flag and the name the emit function is
/// bound to.
pub struct EmitsScan {
    pub names: Seq<(Seq<char>, u32)>,
    pub unharvestable: bool,
    pub binding: Option<Seq<char>>,
}

/// Only the first `defineEmits` call that declares names is read (and none
/// once the file abstains).
pub open spec fn with_emit_names(st: EmitsScan, c: ScriptCall) -> EmitsScan {
    if st.names.len() == 0 && !st.unharvestable {
        let n = emits_call_names((st.names, st.unharvestable), c);
        EmitsScan { names: n.0, unharvestable: n.1, ..st }
    } else {
        st
    }
}

/// The declarators of one declaration: a `defineEmits` call must be bound to
/// a plain name for its uses to be traced; any other target abstains.
pub open spec fn emits_declarators(st: EmitsScan, ds: Seq<Declarator>) -> EmitsScan
    decreases ds.len(),
{
    if ds.len() == 0 {
        st
    } else {
        let prev = emits_declarators(st, ds.drop_last());
        let d = ds.last();
        match d.init {
            Some(init) => match define_emits_call(init) {
                Some(c) => {
                    let named = with_emit_names(prev, c);
                    match d.id {
                        BindingPattern::Identifier(n) => EmitsScan { binding: Some(n@), ..named },
                        _ => EmitsScan { unharvestable: true, ..named },
                    }
                },
                None => prev,
            },
            None => prev,
        }
    }
}

/// The statement pass of the emits harvest over the first statements; a
/// bare `defineEmits(...)` statement cannot be traced and abstains.
pub open spec fn emits_scan(body: Seq<ScriptStmt>) -> EmitsScan
    decreases body.len(),
{
    if body.len() == 0 {
        EmitsScan { names: seq![], unharvestable: false, binding: None }
    } else {
        let prev = emits_scan(body.drop_last());
        match body.last() {
            ScriptStmt::Declaration(ds) => emits_declarators(prev, ds@),
            ScriptStmt::Expression(e) => match define_emits_call(e) {
                Some(c) => EmitsScan { unharvestable: true, ..with_emit_names(prev, c) },
                None => prev,
            },
            _ => prev,
        }
    }
}

/// The optional literal is `name`.
pub open spec fn literal_is(o: Option<String>, name: Seq<char>) -> bool {
    o matches Some(l) && l@ == name
}

/// `b('name', ..)` is called somewhere in the script.
pub open spec fn emitted(p: ScriptProgram, b: Seq<char>, name: Seq<char>) -> bool {
    exists|i: int|
        0 <= i < p.identifier_calls@.len() && (#[trigger] p.identifier_calls@[i]).0@ == b && literal_is(
            p.identifier_calls@[i].1,
            name,
        )
}

/// `b(..)` is called somewhere without a string-literal first argument: the
/// event cannot be known.
pub open spec fn dynamic_emit(p: ScriptProgram, b: Seq<char>) -> bool {
    exists|i: int| 0 <= i < p.identifier_calls@.len() && (#[trigger] p.identifier_calls@[i]).0@ == b && p.identifier_calls@[i].1 is None
}

/// A declared event of a component.
#[derive(Debug, Clone, PartialEq, Eq)]
pub struct ComponentEmit {
    pub name: String,
    pub span_start: u32,
    /// The script emits it through the bound emit function.
    pub used: bool,
}

/// The events a `<script setup>` declares and the whole-file abstain flags.
#[derive(Debug)]
pub struct DefineEmitsHarvest {
    pub emits: Vec<ComponentEmit>,
    /// The names cannot be read, or their uses cannot be traced.
    pub has_unharvestable_emits: bool,
    /// The emit function is called with an event that is not a string literal.
    pub has_dynamic_emit: bool,
    /// The emit function itself flows somewhere (passed, returned, spread).
    pub has_emit_whole_object_use: bool,
    /// The name the emit function is bound to.
    pub emit_binding: Option<String>,
}

struct EmitsScanner {
    names: Vec<(String, u32)>,
    unharvestable: bool,
    binding: Option<String>,
}

impl EmitsScanner {
    spec fn scan(&self) -> EmitsScan {
        EmitsScan { names: names_view(self.names@), unharvestable: self.unharvestable, binding: opt_text(self.binding) }
    }

    fn collect_define_emits_names(&mut self, c: &ScriptCall)
        ensures
            final(self).scan() == with_emit_names(old(self).scan(), *c),
    {
        if self.names.len() == 0 && !self.unharvestable {
            collect_call_names(c, true, &mut self.names, &mut self.unharvestable);
        }
    }

    fn statement(&mut self, s: &ScriptStmt)
        ensures
            final(self).scan() == match *s {
                ScriptStmt::Declaration(ds) => emits_declarators(old(self).scan(), ds@),
                ScriptStmt::Expression(e) => match define_emits_call(e) {
                    Some(c) => EmitsScan { unharvestable: true, ..with_emit_names(old(self).scan(), c) },
                    None => old(self).scan(),
                },
                _ => old(self).scan(),
            },
    {
        match s {
            ScriptStmt::Declaration(ds) => {
                let ghost start = self.scan();
                let mut i: usize = 0;
                while i < ds.len()
                    invariant
                        i <= ds@.len(),
                        self.scan() == emits_declarators(start, ds@.subrange(0, i as int)),
                    decreases ds@.len() - i,
                {
                    let d = &ds[i];
                    match &d.init {
                        Some(init) => {
                            match unwrap_define_emits_call(init) {
                                Some(c) => {
                                    self.collect_define_emits_names(c);
                                    match &d.id {
                                        BindingPattern::Identifier(n) => {
                                            self.binding = Some(n.clone());
                                        },
                                        _ => {
                                            self.unharvestable = true;
                                        },
                                    }
                                },
                                None => {},
                            }
                        },
                        None => {},
                    }
                    assert(ds@.subrange(0, i + 1).drop_last() =~= ds@.subrange(0, i as int));
                    assert(ds@.subrange(0, i + 1).last() == ds@[i as int]);
                    i = i + 1;
                }
                assert(ds@.subrange(0, i as int) =~= ds@);
            },
            ScriptStmt::Expression(e) => {
                match unwrap_define_emits_call(e) {
                    Some(c) => {
                        self.collect_define_emits_names(c);
                        self.unharvestable = true;
                    },
                    None => {},
                }
            },
            _ => {},
        }
    }
}

/// Whether `b('name', ..)` is called somewhere.
fn is_emitted(program: &ScriptProgram, b: &str, name: &str) -> (r: bool)
    ensures
        r == emitted(*program, b@, name@),
{
    let mut i: usize = 0;
    while i < program.identifier_calls.len()
        invariant
            i <= program.identifier_calls@.len(),
            forall|j: int|
                0 <= j < i ==> !((#[trigger] program.identifier_calls@[j]).0@ == b@ && literal_is(
                    program.identifier_calls@[j].1,
                    name@,
                )),
        decreases program.identifier_calls@.len() - i,
    {
        if str_eq(program.identifier_calls[i].0.as_str(), b) {
            match &program.identifier_calls[i].1 {
                Some(l) => {
                    if str_eq(l.as_str(), name) {
                        return true;
                    }
                },
                None => {},
            }
        }
        i = i + 1;
    }
    false
}

/// Whether `b(..)` is called somewhere without a string-literal event.
fn has_dynamic_emit(program: &ScriptProgram, b: &str) -> (r: bool)
    ensures
        r == dynamic_emit(*program, b@),
{
    let mut i: usize = 0;
    while i < program.identifier_calls.len()
        invariant
            i <= program.identifier_calls@.len(),
            forall|j: int|
                0 <= j < i ==> !((#[trigger] program.identifier_calls@[j]).0@ == b@ && program.identifier_calls@[j].1 is None),
        decreases program.identifier_calls@.len() - i,
    {
        if str_eq(program.identifier_calls[i].0.as_str(), b) && program.identifier_calls[i].1.is_none() {
            return true;
        }
        i = i + 1;
    }
    false
}

/// The events a `<script setup>` declares through `defineEmits` (call
/// signatures or properties of an inline type literal, or a runtime string
/// array), each marked used when the script calls the bound emit function
/// with it, and the abstain flags: unreadable names, an unbound or
/// destructured `defineEmits`, an emit of a non-literal event, the emit
/// function used as a value. Only the first `defineEmits` call that declares
/// names is read; without declared events nothing is checked.
pub fn harvest_define_emits(program: &ScriptProgram) -> (r: DefineEmitsHarvest)
    ensures
        emits_scan(program.body@).names.len() == 0 ==> {
            &&& r.emits@.len() == 0
            &&& r.has_unharvestable_emits == emits_scan(program.body@).unharvestable
            &&& !r.has_dynamic_emit && !r.has_emit_whole_object_use
            &&& r.emit_binding is None
        },
        emits_scan(program.body@).names.len() > 0 && emits_scan(program.body@).binding is None ==> {
            &&& r.emits@.len() == 0
            &&& r.has_unharvestable_emits
            &&& !r.has_dynamic_emit && !r.has_emit_whole_object_use
            &&& r.emit_binding is None
        },
        emits_scan(program.body@).names.len() > 0 && emits_scan(program.body@).binding is Some ==> {
            let st = emits_scan(program.body@);
            let b = st.binding.unwrap();
            &&& r.has_unharvestable_emits == st.unharvestable
            &&& r.has_dynamic_emit == dynamic_emit(*program, b)
            &&& r.has_emit_whole_object_use == used_whole(*program, b, RefRole::Callee)
            &&& opt_text(r.emit_binding) == Some(b)
            &&& r.emits@.len() == st.names.len()
            &&& forall|i: int|
                0 <= i < st.names.len() ==> {
                    &&& (#[trigger] r.emits@[i]).name@ == st.names[i].0
                    &&& r.emits@[i].span_start == st.names[i].1
                    &&& r.emits@[i].used == emitted(*program, b, st.names[i].0)
                }
        },
{
    let mut sc = EmitsScanner { names: Vec::new(), unharvestable: false, binding: None };
    assert(sc.scan().names =~= Seq::<(Seq<char>, u32)>::empty());
    let mut k: usize = 0;
    while k < program.body.len()
        invariant
            k <= program.body@.len(),
            sc.scan() == emits_scan(program.body@.subrange(0, k as int)),
        decreases program.body@.len() - k,
    {
        sc.statement(&program.body[k]);
        assert(program.body@.subrange(0, k + 1).drop_last() =~= program.body@.subrange(0, k as int));
        assert(program.body@.subrange(0, k + 1).last() == program.body@[k as int]);
        k = k + 1;
    }
    assert(program.body@.subrange(0, k as int) =~= program.body@);
    let ghost st = sc.scan();
    if sc.names.len() == 0 {
        return DefineEmitsHarvest {
            emits: Vec::new(),
            has_unharvestable_emits: sc.unharvestable,
            has_dynamic_emit: false,
            has_emit_whole_object_use: false,
            emit_binding: None,
        };
    }
    let binding = match sc.binding {
        Some(b) => b,
        None => {
            return DefineEmitsHarvest {
                emits: Vec::new(),
                has_unharvestable_emits: true,
                has_dynamic_emit: false,
                has_emit_whole_object_use: false,
                emit_binding: None,
            };
        },
    };
    let dynamic = has_dynamic_emit(program, binding.as_str());
    let whole = is_used_whole(program, binding.as_str(), RefRole::Callee);
    let mut emits: Vec<ComponentEmit> = Vec::new();
    let mut i: usize = 0;
    while i < sc.names.len()
        invariant
            i <= sc.names@.len(),
            st.names == names_view(sc.names@),
            st.binding == Some(binding@),
            emits@.len() == i,
            forall|j: int|
                0 <= j < i ==> {
                    &&& (#[trigger] emits@[j]).name@ == st.names[j].0
                    &&& emits@[j].span_start == st.names[j].1
                    &&& emits@[j].used == emitted(*program, binding@, st.names[j].0)
                },
        decreases sc.names@.len() - i,
    {
        let used = is_emitted(program, binding.as_str(), sc.names[i].0.as_str());
        let e = ComponentEmit { name: sc.names[i].0.clone(), span_start: sc.names[i].1, used };
        assert(st.names[i as int] == (sc.names@[i as int].0@, sc.names@[i as int].1));
        let ghost before = emits@;
        emits.push(e);
        assert forall|j: int|
            0 <= j < i + 1 implies {
                &&& (#[trigger] emits@[j]).name@ == st.names[j].0
                &&& emits@[j].span_start == st.names[j].1
                &&& emits@[j].used == emitted(*program, binding@, st.names[j].0)
            } by {
            if j < i {
                assert(emits@[j] == before[j]);
            }
        }
        i = i + 1;
    }
    DefineEmitsHarvest {
        emits,
        has_unharvestable_emits: sc.unharvestable,
        has_dynamic_emit: dynamic,
        has_emit_whole_object_use: whole,
        emit_binding: Some(binding),
    }
}


// ---------------------------------------------------------------------------
// Options API (`export default { props, emits, .. }`)
// ---------------------------------------------------------------------------

/// The component-options object of a non-setup script, from statement `i`
/// on: the first `export default` of an expression decides. An object
/// literal is the options object; `defineComponent(obj)` gives its object
/// argument; `defineComponent<T>()` without an object argument reports a type
/// generic (the second component), and anything else gives no object.
pub open spec fn options_object_from(body: Seq<ScriptStmt>, i: int) -> (Option<Seq<ObjectMember>>, bool)
    decreases body.len() - i,
{
    if i < 0 || i >= body.len() {
        (None, false)
    } else {
        match body[i] {
            ScriptStmt::ExportDefault(Some(e)) => match e {
                ScriptExpr::Object(members) => (Some(members@), false),
                ScriptExpr::Call(c) => if !callee_is(*c, "defineComponent"@) {
                    (None, false)
                } else {
                    match first_expr(*c) {
                        Some(ScriptExpr::Object(members)) => (Some(members@), false),
                        _ => (None, c.type_arguments is Some),
                    }
                },
                _ => (None, false),
            },
            _ => options_object_from(body, i + 1),
        }
    }
}

/// The value of the first property of `members` (from `i` on) with the
/// static key `key`.
pub open spec fn options_value_from(members: Seq<ObjectMember>, key: Seq<char>, i: int) -> Option<ScriptExpr>
    decreases members.len() - i,
{
    if i < 0 || i >= members.len() {
        None
    } else {
        match members[i] {
            ObjectMember::Property(Some(k), _, v) => if k@ == key {
                Some(v)
            } else {
                options_value_from(members, key, i + 1)
            },
            _ => options_value_from(members, key, i + 1),
        }
    }
}

/// The member is a property with the static key `key`.
pub open spec fn keyed(m: ObjectMember, key: Seq<char>) -> bool {
    m matches ObjectMember::Property(Some(k), _, _) && k@ == key
}

/// Some property of `members` has the static key `key`.
pub open spec fn has_option_key(members: Seq<ObjectMember>, key: Seq<char>) -> bool {
    exists|i: int| 0 <= i < members.len() && keyed(#[trigger] members[i], key)
}

/// The names of an options `props:` / `emits:` object: every static key (a
/// computed key or a spread abstains).
pub open spec fn options_object_names(acc: NameScan, members: Seq<ObjectMember>) -> NameScan
    decreases members.len(),
{
    if members.len() == 0 {
        acc
    } else {
        let prev = options_object_names(acc, members.drop_last());
        match members.last() {
            ObjectMember::Property(Some(k), sp, _) => (prev.0.push((k@, sp)), prev.1),
            _ => (prev.0, true),
        }
    }
}

/// The names an options `props:` / `emits:` value declares: object keys or
/// array strings; any other value abstains.
pub open spec fn options_names(acc: NameScan, value: ScriptExpr) -> NameScan {
    match value {
        ScriptExpr::Object(members) => options_object_names(acc, members@),
        ScriptExpr::Array(items) => array_names(acc, items@),
        _ => (acc.0, true),
    }
}

/// The component-options object of `program` (see [`options_object_from`]).
fn find_options_object(program: &ScriptProgram) -> (r: (Option<&Vec<ObjectMember>>, bool))
    ensures
        r.1 == options_object_from(program.body@, 0).1,
        match r.0 {
            Some(m) => options_object_from(program.body@, 0).0 == Some(m@),
            None => options_object_from(program.body@, 0).0 is None,
        },
{
    let mut i: usize = 0;
    while i < program.body.len()
        invariant
            i <= program.body@.len(),
            options_object_from(program.body@, 0) == options_object_from(program.body@, i as int),
        decreases program.body@.len() - i,
    {
        match &program.body[i] {
            ScriptStmt::ExportDefault(Some(e)) => {
                match e {
                    ScriptExpr::Object(members) => {
                        return (Some(members), false);
                    },
                    ScriptExpr::Call(c) => {
                        if !is_callee(c, "defineComponent") {
                            return (None, false);
                        }
                        match first_argument(c) {
                            Some(ScriptExpr::Object(members)) => {
                                return (Some(members), false);
                            },
                            _ => {
                                return (None, c.type_arguments.is_some());
                            },
                        }
                    },
                    _ => {
                        return (None, false);
                    },
                }
            },
            _ => {},
        }
        i = i + 1;
    }
    (None, false)
}

/// The value of the first property with static key `key`.
fn options_property_value<'a>(members: &'a Vec<ObjectMember>, key: &str) -> (r: Option<&'a ScriptExpr>)
    ensures
        match r {
            Some(v) => options_value_from(members@, key@, 0) == Some(*v),
            None => options_value_from(members@, key@, 0) is None,
        },
{
    let mut i: usize = 0;
    while i < members.len()
        invariant
            i <= members@.len(),
            options_value_from(members@, key@, 0) == options_value_from(members@, key@, i as int),
        decreases members@.len() - i,
    {
        match &members[i] {
            ObjectMember::Property(Some(k), _, v) => {
                if str_eq(k.as_str(), key) {
                    return Some(v);
                }
            },
            _ => {},
        }
        i = i + 1;
    }
    None
}

/// Whether some property has the static key `key`.
fn has_options_key(members: &Vec<ObjectMember>, key: &str) -> (r: bool)
    ensures
        r == has_option_key(members@, key@),
{
    let mut i: usize = 0;
    while i < members.len()
        invariant
            i <= members@.len(),
            forall|j: int| 0 <= j < i ==> !keyed(#[trigger] members@[j], key@),
        decreases members@.len() - i,
    {
        match &members[i] {
            ObjectMember::Property(Some(k), _, _) => {
                if str_eq(k.as_str(), key) {
                    return true;
                }
            },
            _ => {},
        }
        i = i + 1;
    }
    false
}

/// Add the names an options `props:` / `emits:` value declares.
fn collect_options_names(value: &ScriptExpr, names: &mut Vec<(String, u32)>, abstain: &mut bool)
    ensures
        (names_view(final(names)@), *final(abstain)) == options_names((names_view(old(names)@), *old(abstain)), *value),
{
    match value {
        ScriptExpr::Object(members) => {
            let ghost start = (names_view(names@), *abstain);
            let mut i: usize = 0;
            while i < members.len()
                invariant
                    i <= members@.len(),
                    (names_view(names@), *abstain) == options_object_names(start, members@.subrange(0, i as int)),
                decreases members@.len() - i,
            {
                match &members[i] {
                    ObjectMember::Property(Some(k), sp, _) => push_named(names, k, *sp),
                    _ => *abstain = true,
                }
                assert(members@.subrange(0, i + 1).drop_last() =~= members@.subrange(0, i as int));
                i = i + 1;
            }
            assert(members@.subrange(0, i as int) =~= members@);
        },
        ScriptExpr::Array(items) => add_array_names(items, names, abstain),
        _ => *abstain = true,
    }
}

/// The declared names of the options object's `key:` value (none without
/// one).
pub open spec fn options_declared(members: Seq<ObjectMember>, key: Seq<char>) -> NameScan {
    match options_value_from(members, key, 0) {
        Some(v) => options_names((seq![], false), v),
        None => (seq![], false),
    }
}

/// `this.name` is read somewhere.
pub open spec fn this_read(p: ScriptProgram, name: Seq<char>) -> bool {
    texts(p.this_reads@).contains(name)
}

/// `this.$emit('name', ..)` is called somewhere.
pub open spec fn this_emitted(p: ScriptProgram, name: Seq<char>) -> bool {
    exists|i: int| 0 <= i < p.this_emits@.len() && literal_is(#[trigger] p.this_emits@[i], name)
}

/// `this.$emit(..)` is called somewhere without a string-literal event.
pub open spec fn this_dynamic_emit(p: ScriptProgram) -> bool {
    exists|i: int| 0 <= i < p.this_emits@.len() && (#[trigger] p.this_emits@[i]) is None
}

/// The props an Options-API component declares (`props: [..]` or
/// `props: { .. }` on `export default { .. }` or `defineComponent({ .. })`),
/// each read through its own name and used when the script reads
/// `this.<name>`, and the abstain flags: unreadable names, a
/// `defineComponent<T>()` type generic, a `mixins` or `extends` key; a
/// `setup` key or a computed `this[..]` read lets props be consumed unseen.
/// Without declared props nothing is checked.
pub fn harvest_options_api_props(program: &ScriptProgram) -> (r: DefinePropsHarvest)
    ensures
        !r.has_define_expose && !r.has_define_model && r.props_return_binding is None,
        match options_object_from(program.body@, 0).0 {
            None => {
                &&& r.props@.len() == 0
                &&& r.has_unharvestable_props == options_object_from(program.body@, 0).1
                &&& !r.has_props_attrs_fallthrough
            },
            Some(m) => {
                let d = options_declared(m, "props"@);
                &&& r.has_unharvestable_props == (has_option_key(m, "mixins"@) || has_option_key(m, "extends"@) || d.1)
                &&& r.has_props_attrs_fallthrough == (has_option_key(m, "setup"@) || d.0.len() > 0
                    && program.has_dynamic_this)
                &&& r.props@.len() == d.0.len()
                &&& forall|i: int|
                    0 <= i < d.0.len() ==> {
                        &&& (#[trigger] r.props@[i]).name@ == d.0[i].0
                        &&& r.props@[i].local@ == d.0[i].0
                        &&& r.props@[i].span_start == d.0[i].1
                        &&& r.props@[i].used_in_script == this_read(*program, d.0[i].0)
                        &&& !r.props@[i].used_in_template
                        &&& r.props@[i].component@ == Seq::<char>::empty()
                        &&& !r.props@[i].used_outside_forward
                    }
            },
        },
{
    let (found, type_generic) = find_options_object(program);
    let members = match found {
        Some(m) => m,
        None => {
            return DefinePropsHarvest {
                props: Vec::new(),
                has_unharvestable_props: type_generic,
                has_props_attrs_fallthrough: false,
                has_define_expose: false,
                has_define_model: false,
                props_return_binding: None,
            };
        },
    };
    let mut unharvestable = has_options_key(members, "mixins") || has_options_key(members, "extends");
    let mut fallthrough = has_options_key(members, "setup");
    let mut names: Vec<(String, u32)> = Vec::new();
    let mut declared_abstain = false;
    match options_property_value(members, "props") {
        Some(v) => {
            assert(names_view(names@) =~= Seq::<(Seq<char>, u32)>::empty());
            collect_options_names(v, &mut names, &mut declared_abstain);
        },
        None => {
            assert(names_view(names@) =~= Seq::<(Seq<char>, u32)>::empty());
        },
    }
    let ghost d = options_declared(members@, "props"@);
    assert(names_view(names@) == d.0 && declared_abstain == d.1);
    unharvestable = unharvestable || declared_abstain;
    let mut props: Vec<ComponentProp> = Vec::new();
    if names.len() > 0 {
        if program.has_dynamic_this {
            fallthrough = true;
        }
        let mut i: usize = 0;
        while i < names.len()
            invariant
                i <= names@.len(),
                names_view(names@) == d.0,
                props@.len() == i,
                forall|j: int|
                    0 <= j < i ==> {
                        &&& (#[trigger] props@[j]).name@ == d.0[j].0
                        &&& props@[j].local@ == d.0[j].0
                        &&& props@[j].span_start == d.0[j].1
                        &&& props@[j].used_in_script == this_read(*program, d.0[j].0)
                        &&& !props@[j].used_in_template
                        &&& props@[j].component@ == Seq::<char>::empty()
                        &&& !props@[j].used_outside_forward
                    },
            decreases names@.len() - i,
        {
            let used = holds_name(&program.this_reads, names[i].0.as_str());
            let prop = ComponentProp {
                name: names[i].0.clone(),
                local: names[i].0.clone(),
                span_start: names[i].1,
                used_in_script: used,
                used_in_template: false,
                component: String::new(),
                used_outside_forward: false,
            };
            assert(d.0[i as int] == (names@[i as int].0@, names@[i as int].1));
            let ghost before = props@;
            props.push(prop);
            assert forall|j: int|
                0 <= j < i + 1 implies {
                    &&& (#[trigger] props@[j]).name@ == d.0[j].0
                    &&& props@[j].local@ == d.0[j].0
                    &&& props@[j].span_start == d.0[j].1
                    &&& props@[j].used_in_script == this_read(*program, d.0[j].0)
                    &&& !props@[j].used_in_template
                    &&& props@[j].component@ == Seq::<char>::empty()
                    &&& !props@[j].used_outside_forward
                } by {
                if j < i {
                    assert(props@[j] == before[j]);
                }
            }
            i = i + 1;
        }
    }
    DefinePropsHarvest {
        props,
        has_unharvestable_props: unharvestable,
        has_props_attrs_fallthrough: fallthrough,
        has_define_expose: false,
        has_define_model: false,
        props_return_binding: None,
    }
}

/// Whether `this.$emit('name', ..)` is called somewhere.
fn is_this_emitted(program: &ScriptProgram, name: &str) -> (r: bool)
    ensures
        r == this_emitted(*program, name@),
{
    let mut i: usize = 0;
    while i < program.this_emits.len()
        invariant
            i <= program.this_emits@.len(),
            forall|j: int| 0 <= j < i ==> !literal_is(#[trigger] program.this_emits@[j], name@),
        decreases program.this_emits@.len() - i,
    {
        match &program.this_emits[i] {
            Some(l) => {
                if str_eq(l.as_str(), name) {
                    return true;
                }
            },
            None => {},
        }
        i = i + 1;
    }
    false
}

/// Whether `this.$emit(..)` is called somewhere without a literal event.
fn has_this_dynamic_emit(program: &ScriptProgram) -> (r: bool)
    ensures
        r == this_dynamic_emit(*program),
{
    let mut i: usize = 0;
    while i < program.this_emits.len()
        invariant
            i <= program.this_emits@.len(),
            forall|j: int| 0 <= j < i ==> !((#[trigger] program.this_emits@[j]) is None),
        decreases program.this_emits@.len() - i,
    {
        if program.this_emits[i].is_none() {
            return true;
        }
        i = i + 1;
    }
    false
}

/// The events an Options-API component declares (`emits: [..]` or
/// `emits: { .. }`), each used when the script calls `this.$emit` with it,
/// and the abstain flags: unreadable names, a `defineComponent<T>()` type
/// generic, a `mixins` or `extends` key; a `setup` key (which can emit
/// through its context) or a `this.$emit` of a non-literal event makes the
/// emitted events unknowable. Without declared events nothing is checked.
pub fn harvest_options_api_emits(program: &ScriptProgram) -> (r: DefineEmitsHarvest)
    ensures
        !r.has_emit_whole_object_use && r.emit_binding is None,
        match options_object_from(program.body@, 0).0 {
            None => {
                &&& r.emits@.len() == 0
                &&& r.has_unharvestable_emits == options_object_from(program.body@, 0).1
                &&& !r.has_dynamic_emit
            },
            Some(m) => {
                let d = options_declared(m, "emits"@);
                &&& r.has_unharvestable_emits == (has_option_key(m, "mixins"@) || has_option_key(m, "extends"@) || d.1)
                &&& r.has_dynamic_emit == (has_option_key(m, "setup"@) || d.0.len() > 0 && this_dynamic_emit(*program))
                &&& r.emits@.len() == d.0.len()
                &&& forall|i: int|
                    0 <= i < d.0.len() ==> {
                        &&& (#[trigger] r.emits@[i]).name@ == d.0[i].0
                        &&& r.emits@[i].span_start == d.0[i].1
                        &&& r.emits@[i].used == this_emitted(*program, d.0[i].0)
                    }
            },
        },
{
    let (found, type_generic) = find_options_object(program);
    let members = match found {
        Some(m) => m,
        None => {
            return DefineEmitsHarvest {
                emits: Vec::new(),
                has_unharvestable_emits: type_generic,
                has_dynamic_emit: false,
                has_emit_whole_object_use: false,
                emit_binding: None,
            };
        },
    };
    let mut unharvestable = has_options_key(members, "mixins") || has_options_key(members, "extends");
    let mut dynamic = has_options_key(members, "setup");
    let mut names: Vec<(String, u32)> = Vec::new();
    let mut declared_abstain = false;
    match options_property_value(members, "emits") {
        Some(v) => {
            assert(names_view(names@) =~= Seq::<(Seq<char>, u32)>::empty());
            collect_options_names(v, &mut names, &mut declared_abstain);
        },
        None => {
            assert(names_view(names@) =~= Seq::<(Seq<char>, u32)>::empty());
        },
    }
    let ghost d = options_declared(members@, "emits"@);
    assert(names_view(names@) == d.0 && declared_abstain == d.1);
    unharvestable = unharvestable || declared_abstain;
    let mut emits: Vec<ComponentEmit> = Vec::new();
    if names.len() > 0 {
        if has_this_dynamic_emit(program) {
            dynamic = true;
        }
        let mut i: usize = 0;
        while i < names.len()
            invariant
                i <= names@.len(),
                names_view(names@) == d.0,
                emits@.len() == i,
                forall|j: int|
                    0 <= j < i ==> {
                        &&& (#[trigger] emits@[j]).name@ == d.0[j].0
                        &&& emits@[j].span_start == d.0[j].1
                        &&& emits@[j].used == this_emitted(*program, d.0[j].0)
                    },
            decreases names@.len() - i,
        {
            let used = is_this_emitted(program, names[i].0.as_str());
            let e = ComponentEmit { name: names[i].0.clone(), span_start: names[i].1, used };
            assert(d.0[i as int] == (names@[i as int].0@, names@[i as int].1));
            let ghost before = emits@;
            emits.push(e);
            assert forall|j: int|
                0 <= j < i + 1 implies {
                    &&& (#[trigger] emits@[j]).name@ == d.0[j].0
                    &&& emits@[j].span_start == d.0[j].1
                    &&& emits@[j].used == this_emitted(*program, d.0[j].0)
                } by {
                if j < i {
                    assert(emits@[j] == before[j]);
                }
            }
            i = i + 1;
        }
    }
    DefineEmitsHarvest {
        emits,
        has_unharvestable_emits: unharvestable,
        has_dynamic_emit: dynamic,
        has_emit_whole_object_use: false,
        emit_binding: None,
    }
}

} // verus!
