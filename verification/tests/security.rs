use fallow::security::{
    is_chmod_literal_callee, is_cleartext_transport_literal, is_cleartext_transport_literal_callee,
    is_cleartext_websocket_literal, is_framework_route_receiver_path, is_http_route_handler_name,
    is_literal_metadata_url_callee, is_metadata_service_literal, is_post_message_callee,
    is_resource_amplification_callee, is_route_registration_method, is_string_code_callee,
    is_temp_file_literal_callee, is_trpc_procedure_method, is_weak_crypto_literal_callee, push_ident,
    push_source_path, should_capture_literal_sink_value, should_capture_member_assign_sink,
    should_capture_missing_jwt_verify_options, SinkLiteralValue, SinkShape,
};

fn string(value: &str) -> SinkLiteralValue {
    SinkLiteralValue::String(value.to_string())
}

#[test]
fn callee_classes() {
    assert!(is_post_message_callee("postMessage"));
    assert!(is_post_message_callee("window.parent.postMessage"));
    assert!(!is_post_message_callee("xpostMessage"));
    assert!(is_weak_crypto_literal_callee("crypto.createHash"));
    assert!(!is_weak_crypto_literal_callee("crypto.randomUUID"));
    assert!(is_string_code_callee("setInterval"));
    assert!(!is_string_code_callee("window.setInterval"));
    assert!(is_chmod_literal_callee("fs.promises.chmod"));
    assert!(is_temp_file_literal_callee("createWriteStream"));
    assert!(!is_temp_file_literal_callee("fs.readFile"));
    assert!(is_literal_metadata_url_callee("https.request"));
    assert!(!is_literal_metadata_url_callee("http.get"));
    assert!(is_cleartext_transport_literal_callee("http.get"));
    assert!(!is_cleartext_transport_literal_callee("https.request"));
}

#[test]
fn literal_classes() {
    assert!(is_cleartext_transport_literal("HTTP://example.com"));
    assert!(is_cleartext_transport_literal("ftp://files"));
    assert!(!is_cleartext_transport_literal("https://example.com"));
    assert!(!is_cleartext_transport_literal("http:"));
    assert!(is_cleartext_websocket_literal("Ws://chat"));
    assert!(!is_cleartext_websocket_literal("wss://chat"));
    assert!(is_metadata_service_literal("http://169.254.169.254/latest/meta-data"));
    assert!(is_metadata_service_literal("http://metadata.google.internal/computeMetadata"));
    assert!(!is_metadata_service_literal("http://169.254.169.25"));
}

#[test]
fn literal_sink_decisions() {
    assert!(should_capture_literal_sink_value("window.postMessage", SinkShape::MemberCall, 1, &string("*")));
    assert!(!should_capture_literal_sink_value("window.postMessage", SinkShape::MemberCall, 1, &string("https://a")));
    assert!(!should_capture_literal_sink_value("window.postMessage", SinkShape::MemberCall, 0, &string("*")));
    assert!(should_capture_literal_sink_value("createHash", SinkShape::Call, 0, &string("md5")));
    assert!(should_capture_literal_sink_value("setTimeout", SinkShape::Call, 0, &string("run()")));
    assert!(should_capture_literal_sink_value("fetch", SinkShape::Call, 0, &string("http://api")));
    assert!(!should_capture_literal_sink_value("fetch", SinkShape::Call, 0, &string("https://api")));
    assert!(should_capture_literal_sink_value("axios.get", SinkShape::MemberCall, 0, &string("http://169.254.169.254")));
    assert!(should_capture_literal_sink_value("fs.chmod", SinkShape::MemberCall, 1, &SinkLiteralValue::Integer(511)));
    assert!(!should_capture_literal_sink_value("fs.chmod", SinkShape::MemberCall, 0, &SinkLiteralValue::Integer(511)));
    assert!(!should_capture_literal_sink_value("fetch", SinkShape::Call, 0, &SinkLiteralValue::Null));
    assert!(!should_capture_literal_sink_value("fetch", SinkShape::Call, 0, &SinkLiteralValue::Boolean(true)));
    assert!(should_capture_literal_sink_value("Function", SinkShape::NewExpression, 0, &string("return 1")));
    assert!(should_capture_literal_sink_value("WebSocket", SinkShape::NewExpression, 0, &string("ws://x")));
    assert!(!should_capture_literal_sink_value("WebSocket", SinkShape::NewExpression, 0, &string("wss://x")));
    assert!(should_capture_literal_sink_value(
        "process.env.NODE_TLS_REJECT_UNAUTHORIZED",
        SinkShape::MemberAssign,
        0,
        &string("0")
    ));
    assert!(!should_capture_literal_sink_value(
        "process.env.NODE_TLS_REJECT_UNAUTHORIZED",
        SinkShape::MemberAssign,
        0,
        &string("1")
    ));
    assert!(!should_capture_literal_sink_value("eval", SinkShape::TaggedTemplate, 0, &string("x")));
}

#[test]
fn member_assign_sink_decisions() {
    assert!(should_capture_member_assign_sink("location.href", None, true));
    assert!(!should_capture_member_assign_sink("location.href", None, false));
    assert!(!should_capture_member_assign_sink("location.href", Some(&string("/home")), false));
    assert!(should_capture_member_assign_sink(
        "process.env.NODE_TLS_REJECT_UNAUTHORIZED",
        Some(&string("0")),
        false
    ));
}

#[test]
fn jwt_verify_without_options() {
    assert!(should_capture_missing_jwt_verify_options("jwt.verify", SinkShape::MemberCall, 2));
    assert!(should_capture_missing_jwt_verify_options("verify", SinkShape::Call, 2));
    assert!(!should_capture_missing_jwt_verify_options("jwt.verify", SinkShape::MemberCall, 3));
    assert!(!should_capture_missing_jwt_verify_options("jwt.verify", SinkShape::NewExpression, 2));
    assert!(!should_capture_missing_jwt_verify_options("jwt.unverify", SinkShape::MemberCall, 2));
}

#[test]
fn resource_amplification_callees() {
    assert!(is_resource_amplification_callee("Array", SinkShape::Call, 0));
    assert!(is_resource_amplification_callee("Array", SinkShape::NewExpression, 0));
    assert!(!is_resource_amplification_callee("Array", SinkShape::Call, 1));
    assert!(is_resource_amplification_callee("Buffer.allocUnsafe", SinkShape::MemberCall, 0));
    assert!(is_resource_amplification_callee("name.repeat", SinkShape::MemberCall, 0));
    assert!(is_resource_amplification_callee("a.b.padStart", SinkShape::MemberCall, 0));
    assert!(!is_resource_amplification_callee("a.repeatAll", SinkShape::MemberCall, 0));
    assert!(!is_resource_amplification_callee("name.repeat", SinkShape::JsxAttr, 0));
}

#[test]
fn names_are_collected_once_in_order() {
    let mut out: Vec<String> = Vec::new();
    push_ident("token", &mut out);
    push_ident("secret", &mut out);
    push_ident("token", &mut out);
    assert_eq!(out, vec!["token".to_string(), "secret".to_string()]);
    push_source_path("process.env.KEY".to_string(), &mut out);
    push_source_path("secret".to_string(), &mut out);
    assert_eq!(out, vec!["token".to_string(), "secret".to_string(), "process.env.KEY".to_string()]);
}

#[test]
fn route_names() {
    assert!(is_http_route_handler_name("PATCH"));
    assert!(!is_http_route_handler_name("patch"));
    assert!(is_route_registration_method("use"));
    assert!(!is_route_registration_method("listen"));
    assert!(is_trpc_procedure_method("subscription"));
    assert!(!is_trpc_procedure_method("input"));
}

#[test]
fn framework_route_receivers() {
    assert!(is_framework_route_receiver_path("app.get", "get"));
    assert!(is_framework_route_receiver_path("this.Router.post", "post"));
    assert!(is_framework_route_receiver_path("adminApp.use", "use"));
    assert!(is_framework_route_receiver_path("fastify.get", "get"));
    assert!(is_framework_route_receiver_path("api.routes.get", "get"));
    assert!(is_framework_route_receiver_path("route.get", "get"));
    assert!(!is_framework_route_receiver_path("client.get", "get"));
    assert!(!is_framework_route_receiver_path("app.get", "post"));
    assert!(!is_framework_route_receiver_path("appget", "get"));
    assert!(!is_framework_route_receiver_path("get", "get"));
    assert!(is_framework_route_receiver_path(".get", "get") == false);
}
