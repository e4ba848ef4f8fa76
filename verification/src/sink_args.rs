//! The identifiers a security-sink argument is built from.
//!
//! To trace a sink argument back to a tainted local binding, the analysis
//! collects the bare identifiers that surface in the argument's expression:
//! through member roots, operators, templates, calls, conditionals, object
//! values and array elements. The walk is shallow on purpose: an identifier
//! in any other position (a function body, a class) is not collected, a
//! conservative miss rather than a false link.
//!
//! The same walk collects the source paths of the argument: the flattened
//! paths of its static member reads (`req.body.text`) with their objects
//! (`req.body`), except reads of public environment variables.
//!
//! The expression is held in [`SinkExpr`], which keeps exactly the shapes the
//! walk reads.

use vstd::prelude::*;
use vstd::string::StringSliceAdditionalSpecFns;

use crate::security::{push_ident, texts};

verus! {

/// The flattened path of a static member expression (`req.body.text`), and
/// whether it reads a public (build-inlined) environment variable.
#[derive(Debug)]
pub struct MemberPath {
    pub path: String,
    pub public_env: bool,
}

/// The shape of an expression as far as the identifier walk reads it.
#[derive(Debug)]
pub enum SinkExpr {
    /// A bare identifier reference (`id`).
    Identifier(String),
    /// A wrapper that passes its operand through: parentheses, `as`,
    /// `satisfies`, a non-null assertion `!`, `await`, a unary operator.
    Wrapped(Box<SinkExpr>),
    /// `object.property`: only the object can carry identifiers; the member
    /// path, when the expression flattens to one, is a source path.
    StaticMember(Box<SinkExpr>, String, Option<MemberPath>),
    /// `object[key]`.
    ComputedMember(Box<SinkExpr>, Box<SinkExpr>),
    /// A binary or logical operator.
    Binary(Box<SinkExpr>, Box<SinkExpr>),
    /// `test ? consequent : alternate`.
    Conditional(Box<SinkExpr>, Box<SinkExpr>, Box<SinkExpr>),
    /// A comma sequence, the substitutions of a template literal, the values
    /// of an object literal's plain properties, or the element expressions of
    /// an array literal, in source order.
    Group(Vec<SinkExpr>),
    /// A call: the callee, then the plain (non-spread) arguments.
    Call(Box<SinkExpr>, Vec<SinkExpr>),
    /// Anything else (a literal, a function, a class, ...).
    Other,
}

/// The identifiers of `e` in walk order, repeats included.
pub open spec fn expr_idents(e: SinkExpr) -> Seq<Seq<char>>
    decreases e,
{
    match e {
        SinkExpr::Identifier(name) => seq![name@],
        SinkExpr::Wrapped(inner) => expr_idents(*inner),
        SinkExpr::StaticMember(object, _, _) => expr_idents(*object),
        SinkExpr::ComputedMember(object, key) => expr_idents(*object) + expr_idents(*key),
        SinkExpr::Binary(left, right) => expr_idents(*left) + expr_idents(*right),
        SinkExpr::Conditional(test, yes, no) => expr_idents(*test) + expr_idents(*yes) + expr_idents(*no),
        SinkExpr::Group(items) => list_idents(items@),
        SinkExpr::Call(callee, args) => expr_idents(*callee) + list_idents(args@),
        SinkExpr::Other => seq![],
    }
}

/// The identifiers of each expression of `items` in turn.
pub open spec fn list_idents(items: Seq<SinkExpr>) -> Seq<Seq<char>>
    decreases items,
{
    if items.len() == 0 {
        seq![]
    } else {
        list_idents(items.drop_last()) + expr_idents(items.last())
    }
}

/// `out` followed by each name of `names` that is not already there, in
/// first-seen order.
pub open spec fn add_new(out: Seq<Seq<char>>, names: Seq<Seq<char>>) -> Seq<Seq<char>>
    decreases names.len(),
{
    if names.len() == 0 {
        out
    } else {
        let prev = add_new(out, names.drop_last());
        if prev.contains(names.last()) {
            prev
        } else {
            prev.push(names.last())
        }
    }
}

/// Adding two runs of names one after the other adds their concatenation.
pub proof fn lemma_add_new_concat(out: Seq<Seq<char>>, a: Seq<Seq<char>>, b: Seq<Seq<char>>)
    ensures
        add_new(add_new(out, a), b) == add_new(out, a + b),
    decreases b.len(),
{
    if b.len() == 0 {
        assert(a + b =~= a);
    } else {
        lemma_add_new_concat(out, a, b.drop_last());
        assert((a + b).drop_last() =~= a + b.drop_last());
        assert((a + b).last() == b.last());
    }
}

/// Adding names never drops one, and leaves each name at most once when it
/// was so before.
pub proof fn lemma_add_new_keeps_and_dedups(out: Seq<Seq<char>>, names: Seq<Seq<char>>)
    ensures
        add_new(out, names).len() >= out.len(),
        add_new(out, names).subrange(0, out.len() as int) == out,
        forall|x: Seq<char>| names.contains(x) ==> #[trigger] add_new(out, names).contains(x),
        out.no_duplicates() ==> add_new(out, names).no_duplicates(),
    decreases names.len(),
{
    if names.len() > 0 {
        let prev = add_new(out, names.drop_last());
        lemma_add_new_keeps_and_dedups(out, names.drop_last());
        assert forall|x: Seq<char>| names.contains(x) implies #[trigger] add_new(out, names).contains(x) by {
            let i = choose|i: int| 0 <= i < names.len() && names[i] == x;
            if i < names.len() - 1 {
                assert(names.drop_last()[i] == x);
                assert(names.drop_last().contains(x));
                assert(prev.contains(x));
                if !prev.contains(names.last()) {
                    let j = choose|j: int| 0 <= j < prev.len() && prev[j] == x;
                    assert(prev.push(names.last())[j] == x);
                }
            } else if !prev.contains(names.last()) {
                assert(prev.push(names.last())[prev.len() as int] == x);
            }
        }
        if !prev.contains(names.last()) {
            assert(prev.push(names.last()).subrange(0, out.len() as int) =~= prev.subrange(0, out.len() as int));
        }
    }
}

/// Add the identifiers of `expr` to `out`, each unless already there.
pub fn collect_idents_into(expr: &SinkExpr, out: &mut Vec<String>)
    ensures
        texts(final(out)@) == add_new(texts(old(out)@), expr_idents(*expr)),
    decreases expr,
{
    let ghost start = texts(out@);
    match expr {
        SinkExpr::Identifier(name) => {
            push_ident(name.as_str(), out);
            proof {
                reveal_with_fuel(add_new, 2);
                assert(seq![name@].drop_last() =~= Seq::<Seq<char>>::empty());
            }
        },
        SinkExpr::Wrapped(inner) => collect_idents_into(inner, out),
        SinkExpr::StaticMember(object, _, _) => collect_idents_into(object, out),
        SinkExpr::ComputedMember(object, key) => {
            collect_idents_into(object, out);
            collect_idents_into(key, out);
            proof {
                lemma_add_new_concat(start, expr_idents(**object), expr_idents(**key));
            }
        },
        SinkExpr::Binary(left, right) => {
            collect_idents_into(left, out);
            collect_idents_into(right, out);
            proof {
                lemma_add_new_concat(start, expr_idents(**left), expr_idents(**right));
            }
        },
        SinkExpr::Conditional(test, yes, no) => {
            collect_idents_into(test, out);
            collect_idents_into(yes, out);
            proof {
                lemma_add_new_concat(start, expr_idents(**test), expr_idents(**yes));
            }
            collect_idents_into(no, out);
            proof {
                lemma_add_new_concat(start, expr_idents(**test) + expr_idents(**yes), expr_idents(**no));
            }
        },
        SinkExpr::Group(items) => {
            collect_list_idents_into(items, out);
        },
        SinkExpr::Call(callee, args) => {
            collect_idents_into(callee, out);
            collect_list_idents_into(args, out);
            proof {
                lemma_add_new_concat(start, expr_idents(**callee), list_idents(args@));
            }
        },
        SinkExpr::Other => {},
    }
}

/// Add the identifiers of each expression of `items` in turn.
fn collect_list_idents_into(items: &Vec<SinkExpr>, out: &mut Vec<String>)
    ensures
        texts(final(out)@) == add_new(texts(old(out)@), list_idents(items@)),
    decreases items,
{
    let ghost start = texts(out@);
    let mut i: usize = 0;
    assert(items@.subrange(0, 0) =~= Seq::<SinkExpr>::empty());
    while i < items.len()
        invariant
            i <= items@.len(),
            texts(out@) == add_new(start, list_idents(items@.subrange(0, i as int))),
        decreases items@.len() - i,
    {
        proof {
            assert(decreases_to!(items => items@));
            assert(decreases_to!(items@ => items@[i as int]));
        }
        collect_idents_into(&items[i], out);
        proof {
            let pre = items@.subrange(0, i as int);
            let post = items@.subrange(0, i + 1);
            assert(post.drop_last() =~= pre);
            assert(post.last() == items@[i as int]);
            lemma_add_new_concat(start, list_idents(pre), expr_idents(items@[i as int]));
        }
        i = i + 1;
    }
    assert(items@.subrange(0, i as int) =~= items@);
}

/// The identifiers referenced in a sink argument, each once, in the order
/// the walk meets them.
pub fn collect_arg_idents(expr: &SinkExpr) -> (r: Vec<String>)
    ensures
        texts(r@) == add_new(seq![], expr_idents(*expr)),
        texts(r@).no_duplicates(),
        forall|x: Seq<char>| #[trigger] texts(r@).contains(x) <==> expr_idents(*expr).contains(x),
{
    let mut out: Vec<String> = Vec::new();
    collect_idents_into(expr, &mut out);
    proof {
        assert(texts(Seq::<String>::empty()) =~= Seq::<Seq<char>>::empty());
        lemma_add_new_keeps_and_dedups(seq![], expr_idents(*expr));
        lemma_add_new_only_from(seq![], expr_idents(*expr));
    }
    out
}

/// Every name `add_new` holds was in `out` or in `names`.
pub proof fn lemma_add_new_only_from(out: Seq<Seq<char>>, names: Seq<Seq<char>>)
    ensures
        forall|x: Seq<char>| #[trigger] add_new(out, names).contains(x) ==> out.contains(x) || names.contains(x),
    decreases names.len(),
{
    if names.len() > 0 {
        lemma_add_new_only_from(out, names.drop_last());
        let prev = add_new(out, names.drop_last());
        assert forall|x: Seq<char>| #[trigger] add_new(out, names).contains(x) implies out.contains(x) || names.contains(x) by {
            if prev.contains(x) {
                if names.drop_last().contains(x) {
                    let i = choose|i: int| 0 <= i < names.drop_last().len() && names.drop_last()[i] == x;
                    assert(names[i] == x);
                }
            } else {
                let j = choose|j: int| 0 <= j < add_new(out, names).len() && add_new(out, names)[j] == x;
                assert(j == prev.len());
                assert(names[names.len() - 1] == x);
            }
        }
    }
}


// ---------------------------------------------------------------------------
// Source paths
// ---------------------------------------------------------------------------

/// The part of `path` before its last `.`, if it has one.
pub open spec fn before_last_dot(path: Seq<char>) -> Option<Seq<char>>
    decreases path.len(),
{
    if path.len() == 0 {
        None
    } else if path.last() == '.' {
        Some(path.drop_last())
    } else {
        before_last_dot(path.drop_last())
    }
}

/// The paths one member path contributes: itself, then its object.
pub open spec fn member_paths(path: Seq<char>) -> Seq<Seq<char>> {
    match before_last_dot(path) {
        Some(object) => seq![path, object],
        None => seq![path],
    }
}

/// The source paths of `e` in walk order, repeats included: each static
/// member read that flattens to a path contributes the path and its object,
/// then the paths of its object expression; a public environment read
/// contributes nothing, not even through its object.
pub open spec fn expr_source_paths(e: SinkExpr) -> Seq<Seq<char>>
    decreases e,
{
    match e {
        SinkExpr::Identifier(_) => seq![],
        SinkExpr::Wrapped(inner) => expr_source_paths(*inner),
        SinkExpr::StaticMember(object, _, member) => match member {
            Some(m) => if m.public_env {
                seq![]
            } else {
                member_paths(m.path@) + expr_source_paths(*object)
            },
            None => expr_source_paths(*object),
        },
        SinkExpr::ComputedMember(object, key) => expr_source_paths(*object) + expr_source_paths(*key),
        SinkExpr::Binary(left, right) => expr_source_paths(*left) + expr_source_paths(*right),
        SinkExpr::Conditional(test, yes, no) => expr_source_paths(*test) + expr_source_paths(*yes) + expr_source_paths(*no),
        SinkExpr::Group(items) => list_source_paths(items@),
        SinkExpr::Call(callee, args) => expr_source_paths(*callee) + list_source_paths(args@),
        SinkExpr::Other => seq![],
    }
}

/// The source paths of each expression of `items` in turn.
pub open spec fn list_source_paths(items: Seq<SinkExpr>) -> Seq<Seq<char>>
    decreases items,
{
    if items.len() == 0 {
        seq![]
    } else {
        list_source_paths(items.drop_last()) + expr_source_paths(items.last())
    }
}

/// `str::rsplit_once` with `'.'`: the text before and after the last `.`.
#[verifier::external_body]
fn split_last_dot(path: &str) -> (r: Option<(&str, &str)>)
    ensures
        r matches Some((object, property)) ==> path@ == object@ + seq!['.'] + property@ && !property@.contains('.'),
        r is None ==> !path@.contains('.'),
{
    path.rsplit_once('.')
}

proof fn lemma_before_last_dot(object: Seq<char>, property: Seq<char>)
    requires
        !property.contains('.'),
    ensures
        before_last_dot(object + seq!['.'] + property) == Some(object),
    decreases property.len(),
{
    let s = object + seq!['.'] + property;
    if property.len() == 0 {
        assert(s.drop_last() =~= object);
    } else {
        let p = property.drop_last();
        assert(!p.contains('.')) by {
            if p.contains('.') {
                let i = choose|i: int| 0 <= i < p.len() && p[i] == '.';
                assert(property[i] == '.');
            }
        }
        assert(property.last() != '.');
        assert(s.drop_last() =~= object + seq!['.'] + p);
        lemma_before_last_dot(object, p);
    }
}

proof fn lemma_no_dot(path: Seq<char>)
    requires
        !path.contains('.'),
    ensures
        before_last_dot(path) is None,
    decreases path.len(),
{
    if path.len() > 0 {
        assert(path.last() != '.') by {
            assert(path[path.len() - 1] == path.last());
        }
        assert(!path.drop_last().contains('.')) by {
            if path.drop_last().contains('.') {
                let i = choose|i: int| 0 <= i < path.drop_last().len() && path.drop_last()[i] == '.';
                assert(path[i] == '.');
            }
        }
        lemma_no_dot(path.drop_last());
    }
}

/// Add a member path and its object to `out`, each unless already there.
fn push_member_source_paths(path: &str, out: &mut Vec<String>)
    ensures
        texts(final(out)@) == add_new(texts(old(out)@), member_paths(path@)),
{
    let ghost start = texts(out@);
    push_ident(path, out);
    proof {
        reveal_with_fuel(add_new, 2);
        assert(seq![path@].drop_last() =~= Seq::<Seq<char>>::empty());
    }
    match split_last_dot(path) {
        Some((object, property)) => {
            push_ident(object, out);
            proof {
                lemma_before_last_dot(object@, property@);
                assert(member_paths(path@) == seq![path@, object@]);
                reveal_with_fuel(add_new, 3);
                assert(seq![path@, object@].drop_last() =~= seq![path@]);
            }
        },
        None => {
            proof {
                lemma_no_dot(path@);
            }
        },
    }
}

/// Add the source paths of `expr` to `out`, each unless already there.
pub fn collect_source_paths_into(expr: &SinkExpr, out: &mut Vec<String>)
    ensures
        texts(final(out)@) == add_new(texts(old(out)@), expr_source_paths(*expr)),
    decreases expr,
{
    let ghost start = texts(out@);
    match expr {
        SinkExpr::Identifier(_) => {},
        SinkExpr::Wrapped(inner) => collect_source_paths_into(inner, out),
        SinkExpr::StaticMember(object, _, member) => {
            match member {
                Some(m) => {
                    if !m.public_env {
                        push_member_source_paths(m.path.as_str(), out);
                        collect_source_paths_into(object, out);
                        proof {
                            lemma_add_new_concat(start, member_paths(m.path@), expr_source_paths(**object));
                        }
                    }
                },
                None => collect_source_paths_into(object, out),
            }
        },
        SinkExpr::ComputedMember(object, key) => {
            collect_source_paths_into(object, out);
            collect_source_paths_into(key, out);
            proof {
                lemma_add_new_concat(start, expr_source_paths(**object), expr_source_paths(**key));
            }
        },
        SinkExpr::Binary(left, right) => {
            collect_source_paths_into(left, out);
            collect_source_paths_into(right, out);
            proof {
                lemma_add_new_concat(start, expr_source_paths(**left), expr_source_paths(**right));
            }
        },
        SinkExpr::Conditional(test, yes, no) => {
            collect_source_paths_into(test, out);
            collect_source_paths_into(yes, out);
            proof {
                lemma_add_new_concat(start, expr_source_paths(**test), expr_source_paths(**yes));
            }
            collect_source_paths_into(no, out);
            proof {
                lemma_add_new_concat(start, expr_source_paths(**test) + expr_source_paths(**yes), expr_source_paths(**no));
            }
        },
        SinkExpr::Group(items) => {
            collect_list_source_paths_into(items, out);
        },
        SinkExpr::Call(callee, args) => {
            collect_source_paths_into(callee, out);
            collect_list_source_paths_into(args, out);
            proof {
                lemma_add_new_concat(start, expr_source_paths(**callee), list_source_paths(args@));
            }
        },
        SinkExpr::Other => {},
    }
}

/// Add the source paths of each expression of `items` in turn.
fn collect_list_source_paths_into(items: &Vec<SinkExpr>, out: &mut Vec<String>)
    ensures
        texts(final(out)@) == add_new(texts(old(out)@), list_source_paths(items@)),
    decreases items,
{
    let ghost start = texts(out@);
    let mut i: usize = 0;
    assert(items@.subrange(0, 0) =~= Seq::<SinkExpr>::empty());
    while i < items.len()
        invariant
            i <= items@.len(),
            texts(out@) == add_new(start, list_source_paths(items@.subrange(0, i as int))),
        decreases items@.len() - i,
    {
        proof {
            assert(decreases_to!(items => items@));
            assert(decreases_to!(items@ => items@[i as int]));
        }
        collect_source_paths_into(&items[i], out);
        proof {
            let pre = items@.subrange(0, i as int);
            let post = items@.subrange(0, i + 1);
            assert(post.drop_last() =~= pre);
            assert(post.last() == items@[i as int]);
            lemma_add_new_concat(start, list_source_paths(pre), expr_source_paths(items@[i as int]));
        }
        i = i + 1;
    }
    assert(items@.subrange(0, i as int) =~= items@);
}

/// The source paths a sink argument reads, each once, in the order the walk
/// meets them.
pub fn collect_arg_source_paths(expr: &SinkExpr) -> (r: Vec<String>)
    ensures
        texts(r@) == add_new(seq![], expr_source_paths(*expr)),
        texts(r@).no_duplicates(),
        forall|x: Seq<char>| #[trigger] texts(r@).contains(x) <==> expr_source_paths(*expr).contains(x),
{
    let mut out: Vec<String> = Vec::new();
    collect_source_paths_into(expr, &mut out);
    proof {
        assert(texts(Seq::<String>::empty()) =~= Seq::<Seq<char>>::empty());
        lemma_add_new_keeps_and_dedups(seq![], expr_source_paths(*expr));
        lemma_add_new_only_from(seq![], expr_source_paths(*expr));
    }
    out
}


/// The prefix of a public, build-inlined environment variable read.
pub open spec fn public_env_prefix() -> Seq<u8> {
    "process.env.NEXT_PUBLIC_".spec_bytes()
}

/// A member path reads a public environment variable: `process.env.`
/// followed by a `NEXT_PUBLIC_` name (non-empty, no further member).
pub open spec fn public_env_path(path: Seq<u8>) -> bool {
    let pre = public_env_prefix();
    &&& path.len() > pre.len()
    &&& path.subrange(0, pre.len() as int) == pre
    &&& !crate::text::has_byte(path, pre.len() as int, path.len() as int, 0x2e)
}

/// Whether the member path `path` reads a public environment variable (see
/// [`public_env_path`]); such a read is no secret source.
pub fn is_public_env_path(path: &str) -> (r: bool)
    ensures
        r == public_env_path(path.spec_bytes()),
{
    let s = path.as_bytes();
    let lit = "process.env.NEXT_PUBLIC_".as_bytes();
    if !crate::text::range_starts_with(s, 0, s.len(), lit) {
        return false;
    }
    if s.len() == lit.len() {
        return false;
    }
    !crate::text::find_byte(s, lit.len(), s.len(), 0x2e)
}

} // verus!
