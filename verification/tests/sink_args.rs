use fallow::sink_args::{
    collect_arg_idents, collect_arg_source_paths, collect_idents_into, collect_source_paths_into, is_public_env_path,
    MemberPath, SinkExpr,
};

fn id(name: &str) -> SinkExpr {
    SinkExpr::Identifier(name.to_string())
}

fn boxed(e: SinkExpr) -> Box<SinkExpr> {
    Box::new(e)
}

#[test]
fn member_roots_and_call_parts_are_collected_once_in_order() {
    // escape(req.query.id) + `${id}` + getId().trim()
    let expr = SinkExpr::Binary(
        boxed(SinkExpr::Binary(
            boxed(SinkExpr::Call(
                boxed(id("escape")),
                vec![SinkExpr::StaticMember(
                    boxed(SinkExpr::StaticMember(boxed(id("req")), "query".to_string(), None)),
                    "id".to_string(),
                    None,
                )],
            )),
            boxed(SinkExpr::Group(vec![id("id")])),
        )),
        boxed(SinkExpr::Call(
            boxed(SinkExpr::StaticMember(
                boxed(SinkExpr::Call(boxed(id("getId")), vec![])),
                "trim".to_string(),
                None,
            )),
            vec![],
        )),
    );
    assert_eq!(collect_arg_idents(&expr), vec!["escape", "req", "id", "getId"]);
}

#[test]
fn repeated_identifiers_and_opaque_shapes() {
    // cond ? a : (a, b[c]) with an opaque literal alongside
    let expr = SinkExpr::Conditional(
        boxed(id("cond")),
        boxed(id("a")),
        boxed(SinkExpr::Group(vec![
            id("a"),
            SinkExpr::ComputedMember(boxed(id("b")), boxed(id("c"))),
            SinkExpr::Other,
        ])),
    );
    assert_eq!(collect_arg_idents(&expr), vec!["cond", "a", "b", "c"]);
    assert!(collect_arg_idents(&SinkExpr::Other).is_empty());
    assert_eq!(collect_arg_idents(&SinkExpr::Wrapped(boxed(id("x")))), vec!["x"]);
}

#[test]
fn collecting_into_keeps_what_was_there() {
    let mut out = vec!["msg".to_string()];
    let expr = SinkExpr::Group(vec![
        SinkExpr::Group(vec![id("content"), id("msg")]),
        SinkExpr::Call(boxed(id("fmt")), vec![id("content")]),
    ]);
    collect_idents_into(&expr, &mut out);
    assert_eq!(out, vec!["msg", "content", "fmt"]);
}

fn member(object: SinkExpr, property: &str, path: &str, public_env: bool) -> SinkExpr {
    SinkExpr::StaticMember(
        boxed(object),
        property.to_string(),
        Some(MemberPath { path: path.to_string(), public_env }),
    )
}

#[test]
fn member_reads_give_their_path_and_object_once() {
    // escape(req.body.text, req.body)
    let text = member(member(id("req"), "body", "req.body", false), "text", "req.body.text", false);
    let expr = SinkExpr::Call(boxed(id("escape")), vec![text, member(id("req"), "body", "req.body", false)]);
    assert_eq!(collect_arg_source_paths(&expr), vec!["req.body.text", "req.body", "req"]);
    // The identifiers of the same argument are unaffected by the paths.
    assert_eq!(collect_arg_idents(&expr), vec!["escape", "req"]);
}

#[test]
fn public_env_reads_contribute_no_source() {
    // process.env.NEXT_PUBLIC_URL + process.env.SECRET
    let env = member(id("process"), "env", "process.env", false);
    let public = member(member(id("process"), "env", "process.env", false), "NEXT_PUBLIC_URL", "process.env.NEXT_PUBLIC_URL", true);
    let secret = member(env, "SECRET", "process.env.SECRET", false);
    assert!(collect_arg_source_paths(&public).is_empty());
    let expr = SinkExpr::Binary(boxed(public), boxed(secret));
    assert_eq!(collect_arg_source_paths(&expr), vec!["process.env.SECRET", "process.env", "process"]);
}

#[test]
fn unflattened_members_and_computed_keys_recurse() {
    // getUser()[key.name].id, with only `key.name` flattening
    let call = SinkExpr::Call(boxed(id("getUser")), vec![]);
    let computed = SinkExpr::ComputedMember(boxed(call), boxed(member(id("key"), "name", "key.name", false)));
    let expr = SinkExpr::StaticMember(boxed(computed), "id".to_string(), None);
    let mut out = vec!["key".to_string()];
    collect_source_paths_into(&expr, &mut out);
    assert_eq!(out, vec!["key", "key.name"]);
}

#[test]
fn public_env_paths_are_next_public_reads() {
    assert!(is_public_env_path("process.env.NEXT_PUBLIC_URL"));
    assert!(!is_public_env_path("process.env.SECRET"));
    assert!(!is_public_env_path("process.env.NEXT_PUBLIC_"));
    assert!(!is_public_env_path("process.env.NEXT_PUBLIC_A.length"));
    assert!(!is_public_env_path("window.process.env.NEXT_PUBLIC_A"));
}
