use fallow::security::SinkLiteralValue;
use fallow::sink_literals::{literal_string, static_sink_literal_value, StaticExpr, StaticShape};

fn lit(v: SinkLiteralValue) -> StaticExpr {
    StaticExpr { literal: Some(v), shape: StaticShape::Other }
}

fn shape(s: StaticShape) -> StaticExpr {
    StaticExpr { literal: None, shape: s }
}

fn ident(n: &str) -> StaticExpr {
    shape(StaticShape::Identifier(n.to_string()))
}

fn text(v: Option<SinkLiteralValue>) -> Option<String> {
    match v {
        Some(SinkLiteralValue::String(s)) => Some(s),
        Some(other) => Some(format!("<{}>", literal_string(&other))),
        None => None,
    }
}

fn eval(e: &StaticExpr, lits: &Vec<(String, SinkLiteralValue)>, shadowed: &[&str], locals: &[&str]) -> Option<String> {
    let shadowed: Vec<String> = shadowed.iter().map(|s| s.to_string()).collect();
    let locals: Vec<String> = locals.iter().map(|s| s.to_string()).collect();
    text(static_sink_literal_value(e, lits, &shadowed, &locals))
}

#[test]
fn literals_and_module_constants() {
    let lits = vec![("MODE".to_string(), SinkLiteralValue::String("0777".to_string()))];
    assert_eq!(eval(&lit(SinkLiteralValue::Integer(5)), &lits, &[], &[]), Some("<5>".to_string()));
    assert_eq!(eval(&ident("MODE"), &lits, &[], &[]), Some("0777".to_string()));
    // A nested scope shadowing the constant hides it; unknown names have no value.
    assert_eq!(eval(&ident("MODE"), &lits, &["MODE"], &[]), None);
    assert_eq!(eval(&ident("OTHER"), &lits, &[], &[]), None);
}

#[test]
fn unary_signs_apply_to_integers_only() {
    let lits = Vec::new();
    let neg = |e: StaticExpr| shape(StaticShape::Unary(true, Box::new(e)));
    let plus = |e: StaticExpr| shape(StaticShape::Unary(false, Box::new(e)));
    assert_eq!(eval(&neg(lit(SinkLiteralValue::Integer(8))), &lits, &[], &[]), Some("<-8>".to_string()));
    assert_eq!(eval(&plus(lit(SinkLiteralValue::Integer(8))), &lits, &[], &[]), Some("<8>".to_string()));
    assert_eq!(eval(&neg(lit(SinkLiteralValue::Integer(i64::MIN))), &lits, &[], &[]), None);
    assert_eq!(eval(&neg(lit(SinkLiteralValue::String("1".to_string()))), &lits, &[], &[]), None);
}

#[test]
fn string_calls_convert_static_values() {
    let lits = Vec::new();
    let call = |args: Vec<Option<StaticExpr>>| shape(StaticShape::Call(Some("String".to_string()), args));
    assert_eq!(eval(&call(vec![Some(lit(SinkLiteralValue::Integer(-12)))]), &lits, &[], &[]), Some("-12".to_string()));
    assert_eq!(eval(&call(vec![Some(lit(SinkLiteralValue::Null))]), &lits, &[], &[]), Some("null".to_string()));
    assert_eq!(eval(&call(vec![Some(lit(SinkLiteralValue::Boolean(false)))]), &lits, &[], &[]), Some("false".to_string()));
    // A local `String`, a shadowed one, two arguments or a spread: no value.
    assert_eq!(eval(&call(vec![Some(lit(SinkLiteralValue::Integer(1)))]), &lits, &[], &["String"]), None);
    assert_eq!(eval(&call(vec![Some(lit(SinkLiteralValue::Integer(1)))]), &lits, &["String"], &[]), None);
    assert_eq!(
        eval(&call(vec![Some(lit(SinkLiteralValue::Integer(1))), Some(lit(SinkLiteralValue::Integer(2)))]), &lits, &[], &[]),
        None
    );
    assert_eq!(eval(&call(vec![None]), &lits, &[], &[]), None);
}

#[test]
fn templates_concatenate_static_parts() {
    let lits = vec![("N".to_string(), SinkLiteralValue::Integer(7))];
    let tpl = |quasis: Vec<Option<&str>>, exprs: Vec<StaticExpr>| {
        shape(StaticShape::Template(quasis.into_iter().map(|q| q.map(|s| s.to_string())).collect(), exprs))
    };
    // `a${true}b${N}c`
    let t = tpl(vec![Some("a"), Some("b"), Some("c")], vec![lit(SinkLiteralValue::Boolean(true)), ident("N")]);
    assert_eq!(eval(&t, &lits, &[], &[]), Some("atrueb7c".to_string()));
    // A quasi without a cooked value, or a substitution without a static value.
    assert_eq!(eval(&tpl(vec![Some("a"), None], vec![ident("N")]), &lits, &[], &[]), None);
    assert_eq!(eval(&tpl(vec![Some("a"), Some("")], vec![ident("x")]), &lits, &[], &[]), None);
}
