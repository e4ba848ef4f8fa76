//! The static value of a security-sink argument.
//!
//! An argument has a static value when it is a literal, a module-level
//! constant holding one (unless a nested scope shadows the name), `-` or `+`
//! on a static integer, `String(x)` of a static value (unless `String` is
//! shadowed or declared locally), or a template literal whose parts are all
//! static. The expression is held in [`StaticExpr`], which keeps exactly the
//! shapes this evaluation reads.

use vstd::prelude::*;
use vstd::string::StringExecFns;
use vstd::utf8::{decode_utf8, encode_utf8};

use crate::security::SinkLiteralValue;
use crate::text;

verus! {

/// An argument expression as the static evaluation reads it.
#[derive(Debug)]
pub struct StaticExpr {
    /// Its value when it is a literal itself.
    pub literal: Option<SinkLiteralValue>,
    /// Its shape, with parentheses and TS casts peeled.
    pub shape: StaticShape,
}

/// The shapes the static evaluation looks into.
#[derive(Debug)]
pub enum StaticShape {
    /// A bare identifier.
    Identifier(String),
    /// Unary `-` (`true`) or `+` (`false`) on an operand.
    Unary(bool, Box<StaticExpr>),
    /// A call: the callee's name when it is a bare identifier, then the
    /// arguments (`None` for a spread).
    Call(Option<String>, Vec<Option<StaticExpr>>),
    /// A template literal: each quasi's cooked text (`None` when it has
    /// none), then the substitutions.
    Template(Vec<Option<String>>, Vec<StaticExpr>),
    /// Anything else.
    Other,
}

/// A static value with its text as characters.
pub enum LiteralView {
    Text(Seq<char>),
    Integer(i64),
    Boolean(bool),
    Null,
}

pub open spec fn literal_view(v: SinkLiteralValue) -> LiteralView {
    match v {
        SinkLiteralValue::String(s) => LiteralView::Text(s@),
        SinkLiteralValue::Integer(n) => LiteralView::Integer(n),
        SinkLiteralValue::Boolean(b) => LiteralView::Boolean(b),
        SinkLiteralValue::Null => LiteralView::Null,
    }
}

/// The decimal digits of `n`, with a leading `-` when negative, as bytes.
pub open spec fn int_bytes(n: i64) -> Seq<u8> {
    if n < 0 {
        seq![0x2du8] + text::decimal((-n) as nat)
    } else {
        text::decimal(n as nat)
    }
}

/// `String(v)` of a static value: a string as it is, an integer in decimal,
/// `true` / `false`, `null`.
pub open spec fn text_of(v: LiteralView) -> Seq<char> {
    match v {
        LiteralView::Text(s) => s,
        LiteralView::Integer(n) => decode_utf8(int_bytes(n)),
        LiteralView::Boolean(b) => if b {
            "true"@
        } else {
            "false"@
        },
        LiteralView::Null => "null"@,
    }
}

/// Some string of `names` is `n`.
pub open spec fn names_contain(names: Seq<String>, n: Seq<char>) -> bool {
    exists|i: int| 0 <= i < names.len() && (#[trigger] names[i])@ == n
}

/// The value of the first of the first `k` module constants named `n`.
pub open spec fn lookup(lits: Seq<(String, SinkLiteralValue)>, n: Seq<char>, k: int) -> Option<LiteralView>
    decreases k,
{
    if k <= 0 {
        None
    } else {
        match lookup(lits, n, k - 1) {
            Some(v) => Some(v),
            None => if lits[k - 1].0@ == n {
                Some(literal_view(lits[k - 1].1))
            } else {
                None
            },
        }
    }
}

/// The static value of `e`, if it has one.
pub open spec fn static_literal(
    e: StaticExpr,
    lits: Seq<(String, SinkLiteralValue)>,
    shadowed: Seq<String>,
    locals: Seq<String>,
) -> Option<LiteralView>
    decreases e, 0int,
{
    match e.literal {
        Some(v) => Some(literal_view(v)),
        None => match e.shape {
            StaticShape::Identifier(n) => if names_contain(shadowed, n@) {
                None
            } else {
                lookup(lits, n@, lits.len() as int)
            },
            StaticShape::Unary(negate, arg) => match static_literal(*arg, lits, shadowed, locals) {
                Some(LiteralView::Integer(v)) => if !negate {
                    Some(LiteralView::Integer(v))
                } else if v == i64::MIN {
                    None
                } else {
                    Some(LiteralView::Integer((-v) as i64))
                },
                _ => None,
            },
            StaticShape::Call(callee, args) => match callee {
                Some(c) => if c@ == "String"@ && args@.len() == 1 && !names_contain(shadowed, c@) && !names_contain(
                    locals,
                    c@,
                ) {
                    match args@[0] {
                        Some(a) => match static_literal(a, lits, shadowed, locals) {
                            Some(v) => Some(LiteralView::Text(text_of(v))),
                            None => None,
                        },
                        None => None,
                    }
                } else {
                    None
                },
                None => None,
            },
            StaticShape::Template(quasis, exprs) => match template_text(
                quasis@,
                exprs@,
                quasis@.len() as int,
                lits,
                shadowed,
                locals,
            ) {
                Some(t) => Some(LiteralView::Text(t)),
                None => None,
            },
            StaticShape::Other => None,
        },
    }
}

/// The text of the first `k` quasis of a template, each followed by the text
/// of the substitution at its index (if any); `None` when a quasi has no
/// cooked text or a substitution has no static value.
pub open spec fn template_text(
    quasis: Seq<Option<String>>,
    exprs: Seq<StaticExpr>,
    k: int,
    lits: Seq<(String, SinkLiteralValue)>,
    shadowed: Seq<String>,
    locals: Seq<String>,
) -> Option<Seq<char>>
    decreases exprs, k,
{
    if k <= 0 {
        Some(seq![])
    } else {
        match template_text(quasis, exprs, k - 1, lits, shadowed, locals) {
            None => None,
            Some(prev) => match quasis[k - 1] {
                None => None,
                Some(q) => if k - 1 < exprs.len() {
                    match static_literal(exprs[k - 1], lits, shadowed, locals) {
                        Some(v) => Some(prev + q@ + text_of(v)),
                        None => None,
                    }
                } else {
                    Some(prev + q@)
                },
            },
        }
    }
}

fn copy_literal(v: &SinkLiteralValue) -> (r: SinkLiteralValue)
    ensures
        literal_view(r) == literal_view(*v),
{
    match v {
        SinkLiteralValue::String(s) => SinkLiteralValue::String(s.clone()),
        SinkLiteralValue::Integer(n) => SinkLiteralValue::Integer(*n),
        SinkLiteralValue::Boolean(b) => SinkLiteralValue::Boolean(*b),
        SinkLiteralValue::Null => SinkLiteralValue::Null,
    }
}

fn push_decimal_u64(out: &mut Vec<u8>, n: u64)
    ensures
        final(out)@ == old(out)@ + text::decimal(n as nat),
    decreases n,
{
    if n >= 10 {
        push_decimal_u64(out, n / 10);
    }
    out.push(0x30 + (n % 10) as u8);
    proof {
        if n >= 10 {
            assert(old(out)@ + text::decimal(n as nat) =~= (old(out)@ + text::decimal((n / 10) as nat)).push(
                (0x30 + n % 10) as u8,
            ));
        } else {
            assert(old(out)@ + text::decimal(n as nat) =~= old(out)@.push((0x30 + n % 10) as u8));
        }
    }
}

/// `String(v)` of a static value (see [`text_of`]).
pub fn literal_string(v: &SinkLiteralValue) -> (r: String)
    ensures
        r@ == text_of(literal_view(*v)),
{
    match v {
        SinkLiteralValue::String(s) => s.clone(),
        SinkLiteralValue::Integer(n) => {
            let mut bytes: Vec<u8> = Vec::new();
            let magnitude: u64 = if *n < 0 {
                (0i128 - (*n as i128)) as u64
            } else {
                *n as u64
            };
            if *n < 0 {
                bytes.push(0x2d);
            }
            push_decimal_u64(&mut bytes, magnitude);
            proof {
                text::lemma_decimal_valid(magnitude as nat);
                if *n < 0 {
                    text::lemma_ascii_byte_valid(0x2d);
                    assert(seq![0x2du8] == Seq::<u8>::empty().push(0x2du8));
                    vstd::utf8::valid_utf8_concat(seq![0x2du8], text::decimal(magnitude as nat));
                    assert(bytes@ =~= seq![0x2du8] + text::decimal(magnitude as nat));
                } else {
                    assert(bytes@ =~= text::decimal(magnitude as nat));
                }
                assert(bytes@ == int_bytes(*n));
            }
            match text::utf8_string(bytes) {
                Some(st) => {
                    proof {
                        vstd::utf8::encode_utf8_decode_utf8(st@);
                    }
                    st
                },
                None => String::new(),
            }
        },
        SinkLiteralValue::Boolean(b) => if *b {
            String::from_str("true")
        } else {
            String::from_str("false")
        },
        SinkLiteralValue::Null => String::from_str("null"),
    }
}

fn names_contain_exec(names: &Vec<String>, n: &str) -> (r: bool)
    ensures
        r == names_contain(names@, n@),
{
    let mut i: usize = 0;
    while i < names.len()
        invariant
            i <= names@.len(),
            forall|j: int| 0 <= j < i ==> names@[j]@ != n@,
        decreases names@.len() - i,
    {
        if text::str_eq(names[i].as_str(), n) {
            return true;
        }
        i = i + 1;
    }
    false
}

fn lookup_exec(lits: &Vec<(String, SinkLiteralValue)>, n: &str) -> (r: Option<SinkLiteralValue>)
    ensures
        match r {
            Some(v) => lookup(lits@, n@, lits@.len() as int) == Some(literal_view(v)),
            None => lookup(lits@, n@, lits@.len() as int) is None,
        },
{
    let mut i: usize = 0;
    while i < lits.len()
        invariant
            i <= lits@.len(),
            lookup(lits@, n@, i as int) is None,
        decreases lits@.len() - i,
    {
        if text::str_eq(lits[i].0.as_str(), n) {
            let v = copy_literal(&lits[i].1);
            proof {
                lemma_lookup_found(lits@, n@, i as int + 1, lits@.len() as int);
            }
            return Some(v);
        }
        i = i + 1;
    }
    None
}

proof fn lemma_lookup_found(lits: Seq<(String, SinkLiteralValue)>, n: Seq<char>, a: int, b: int)
    requires
        0 < a <= b,
        lookup(lits, n, a) is Some,
    ensures
        lookup(lits, n, b) == lookup(lits, n, a),
    decreases b - a,
{
    if a < b {
        lemma_lookup_found(lits, n, a, b - 1);
    }
}

/// The static value of a sink argument `expr` (see [`static_literal`]), given
/// the module-level constants with static values, the names a nested scope
/// shadows, and the names declared locally.
pub fn static_sink_literal_value(
    expr: &StaticExpr,
    module_literals: &Vec<(String, SinkLiteralValue)>,
    shadowed: &Vec<String>,
    local_decls: &Vec<String>,
) -> (r: Option<SinkLiteralValue>)
    ensures
        match r {
            Some(v) => static_literal(*expr, module_literals@, shadowed@, local_decls@) == Some(literal_view(v)),
            None => static_literal(*expr, module_literals@, shadowed@, local_decls@) is None,
        },
    decreases expr, 0int,
{
    if let Some(v) = &expr.literal {
        return Some(copy_literal(v));
    }
    match &expr.shape {
        StaticShape::Identifier(n) => {
            if names_contain_exec(shadowed, n.as_str()) {
                None
            } else {
                lookup_exec(module_literals, n.as_str())
            }
        },
        StaticShape::Unary(negate, arg) => {
            match static_sink_literal_value(arg, module_literals, shadowed, local_decls) {
                Some(SinkLiteralValue::Integer(v)) => {
                    if !*negate {
                        Some(SinkLiteralValue::Integer(v))
                    } else if v == i64::MIN {
                        None
                    } else {
                        Some(SinkLiteralValue::Integer(-v))
                    }
                },
                _ => None,
            }
        },
        StaticShape::Call(callee, args) => {
            match callee {
                Some(c) => {
                    if text::str_eq(c.as_str(), "String") && args.len() == 1 && !names_contain_exec(shadowed, c.as_str())
                        && !names_contain_exec(local_decls, c.as_str()) {
                        proof {
                            reveal_strlit("String");
                            assert(decreases_to!(args => args@));
                            assert(decreases_to!(args@ => args@[0]));
                        }
                        match &args[0] {
                            Some(a) => match static_sink_literal_value(a, module_literals, shadowed, local_decls) {
                                Some(v) => Some(SinkLiteralValue::String(literal_string(&v))),
                                None => None,
                            },
                            None => None,
                        }
                    } else {
                        None
                    }
                },
                None => None,
            }
        },
        StaticShape::Template(quasis, exprs) => {
            match template_string(quasis, exprs, quasis.len(), module_literals, shadowed, local_decls) {
                Some(t) => Some(SinkLiteralValue::String(t)),
                None => None,
            }
        },
        StaticShape::Other => None,
    }
}

fn template_string(
    quasis: &Vec<Option<String>>,
    exprs: &Vec<StaticExpr>,
    k: usize,
    module_literals: &Vec<(String, SinkLiteralValue)>,
    shadowed: &Vec<String>,
    local_decls: &Vec<String>,
) -> (r: Option<String>)
    requires
        k <= quasis@.len(),
    ensures
        match r {
            Some(t) => template_text(quasis@, exprs@, k as int, module_literals@, shadowed@, local_decls@) == Some(t@),
            None => template_text(quasis@, exprs@, k as int, module_literals@, shadowed@, local_decls@) is None,
        },
    decreases exprs, k,
{
    if k == 0 {
        let t = String::new();
        assert(t@ =~= Seq::<char>::empty());
        return Some(t);
    }
    let prev = match template_string(quasis, exprs, k - 1, module_literals, shadowed, local_decls) {
        Some(p) => p,
        None => {
            return None;
        },
    };
    match &quasis[k - 1] {
        None => None,
        Some(q) => {
            let mut t = prev;
            t.append(q.as_str());
            if k - 1 < exprs.len() {
                proof {
                    assert(decreases_to!(exprs => exprs@));
                    assert(decreases_to!(exprs@ => exprs@[k - 1]));
                }
                match static_sink_literal_value(&exprs[k - 1], module_literals, shadowed, local_decls) {
                    Some(v) => {
                        let s = literal_string(&v);
                        t.append(s.as_str());
                        Some(t)
                    },
                    None => None,
                }
            } else {
                Some(t)
            }
        },
    }
}

} // verus!
