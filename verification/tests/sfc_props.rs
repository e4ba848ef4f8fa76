use fallow::sfc_props::{
    binding_local_name, harvest_define_emits, harvest_define_props, harvest_options_api_emits,
    harvest_options_api_props, harvest_svelte_props, unwrap_define_emits_call, unwrap_define_props_call,
    ArrayItem, BindingPattern, CallArgument, Declarator, ObjectMember, PatternProperty, RefRole,
    ScriptCall, ScriptExpr, ScriptProgram, ScriptStmt, TypeArgument, TypeMember,
};

fn s(v: &str) -> String {
    v.to_string()
}

fn program(body: Vec<ScriptStmt>) -> ScriptProgram {
    ScriptProgram {
        body,
        referenced_roots: vec![],
        member_reads: vec![],
        identifier_calls: vec![],
        identifier_refs: vec![],
        this_reads: vec![],
        this_emits: vec![],
        has_dynamic_this: false,
    }
}

fn call(callee: &str, type_arguments: Option<Vec<TypeArgument>>, args: Vec<ScriptExpr>) -> ScriptExpr {
    ScriptExpr::Call(Box::new(ScriptCall {
        callee: Some(s(callee)),
        type_arguments,
        arguments: args.into_iter().map(CallArgument::Expression).collect(),
    }))
}

fn strings(items: &[(&str, u32)]) -> ScriptExpr {
    ScriptExpr::Array(items.iter().map(|(v, sp)| ArrayItem::StringLiteral(s(v), *sp)).collect())
}

fn object(keys: &[(&str, u32)]) -> ScriptExpr {
    ScriptExpr::Object(keys.iter().map(|(k, sp)| ObjectMember::Property(Some(s(k)), *sp, ScriptExpr::Other)).collect())
}

fn declare(id: BindingPattern, init: ScriptExpr) -> ScriptStmt {
    ScriptStmt::Declaration(vec![Declarator { id, init: Some(init) }])
}

fn ident(name: &str) -> BindingPattern {
    BindingPattern::Identifier(s(name))
}

fn shorthand(name: &str, span_start: u32) -> PatternProperty {
    PatternProperty { key: Some(s(name)), value: ident(name), span_start }
}

#[test]
fn props_read_through_the_binding_are_used() {
    // const props = defineProps({ foo: String, bar: Number }); props.foo
    let mut p = program(vec![declare(ident("props"), call("defineProps", None, vec![object(&[("foo", 20), ("bar", 33)])]))]);
    p.member_reads = vec![(s("props"), s("foo")), (s("other"), s("bar"))];
    let h = harvest_define_props(&p);
    assert_eq!(h.props.len(), 2);
    assert_eq!((h.props[0].name.as_str(), h.props[0].local.as_str(), h.props[0].span_start), ("foo", "foo", 20));
    assert!(h.props[0].used_in_script);
    assert_eq!(h.props[1].name, "bar");
    assert!(!h.props[1].used_in_script);
    assert!(!h.props[0].used_in_template && h.props[0].component.is_empty() && !h.props[0].used_outside_forward);
    assert_eq!(h.props_return_binding.as_deref(), Some("props"));
    assert!(!h.has_unharvestable_props && !h.has_props_attrs_fallthrough);
}

#[test]
fn destructured_props_are_used_through_referenced_locals() {
    // const { foo, bar: b = 1 } = withDefaults(defineProps<{ foo: string; bar: number }>(), {})
    let target = BindingPattern::Object(
        vec![
            shorthand("foo", 8),
            PatternProperty {
                key: Some(s("bar")),
                value: BindingPattern::Defaulted(Box::new(ident("b"))),
                span_start: 13,
            },
        ],
        false,
    );
    let define = call(
        "defineProps",
        Some(vec![TypeArgument::Literal(vec![
            TypeMember::Property(Some(s("foo")), 60),
            TypeMember::Property(Some(s("bar")), 73),
            TypeMember::Other,
        ])]),
        vec![],
    );
    let mut p = program(vec![declare(target, call("withDefaults", None, vec![define, ScriptExpr::Other]))]);
    p.referenced_roots = vec![s("b"), s("unrelated")];
    let h = harvest_define_props(&p);
    assert_eq!(h.props.len(), 2);
    assert_eq!((h.props[0].name.as_str(), h.props[0].local.as_str()), ("foo", "foo"));
    assert!(!h.props[0].used_in_script);
    assert_eq!((h.props[1].name.as_str(), h.props[1].local.as_str(), h.props[1].span_start), ("bar", "b", 73));
    assert!(h.props[1].used_in_script);
    assert_eq!(h.props_return_binding, None);
}

#[test]
fn unreadable_or_escaping_props_abstain() {
    // defineProps<Props>()
    let h = harvest_define_props(&program(vec![ScriptStmt::Expression(call(
        "defineProps",
        Some(vec![TypeArgument::Other]),
        vec![],
    ))]));
    assert!(h.has_unharvestable_props && h.props.is_empty());
    // const { a, ...rest } = defineProps(['a'])
    let h = harvest_define_props(&program(vec![declare(
        BindingPattern::Object(vec![shorthand("a", 8)], true),
        call("defineProps", None, vec![strings(&[("a", 40)])]),
    )]));
    assert!(h.has_props_attrs_fallthrough && h.props.len() == 1);
    // const props = defineProps(['x']); useThing(props)
    let mut p = program(vec![declare(ident("props"), call("defineProps", None, vec![strings(&[("x", 30)])]))]);
    p.identifier_refs = vec![(s("props"), RefRole::MemberObject), (s("useThing"), RefRole::Callee)];
    assert!(!harvest_define_props(&p).has_props_attrs_fallthrough);
    p.identifier_refs.push((s("props"), RefRole::Plain));
    assert!(harvest_define_props(&p).has_props_attrs_fallthrough);
    // defineProps({ ...base, a: String })
    let h = harvest_define_props(&program(vec![ScriptStmt::Expression(call(
        "defineProps",
        None,
        vec![ScriptExpr::Object(vec![ObjectMember::Spread, ObjectMember::Property(Some(s("a")), 25, ScriptExpr::Other)])],
    ))]));
    assert!(h.has_unharvestable_props);
    assert_eq!(h.props.len(), 1);
}

#[test]
fn expose_and_model_are_noted_without_props() {
    let h = harvest_define_props(&program(vec![
        ScriptStmt::Expression(call("defineExpose", None, vec![ScriptExpr::Other])),
        declare(ident("model"), call("defineModel", None, vec![])),
    ]));
    assert!(h.has_define_expose && h.has_define_model);
    assert!(h.props.is_empty() && h.props_return_binding.is_none());
}

#[test]
fn only_the_first_props_declaration_is_read() {
    let h = harvest_define_props(&program(vec![
        ScriptStmt::Expression(call("defineProps", None, vec![strings(&[("a", 13)])])),
        ScriptStmt::Expression(call("defineProps", None, vec![strings(&[("b", 40)])])),
    ]));
    assert_eq!(h.props.len(), 1);
    assert_eq!(h.props[0].name, "a");
}

#[test]
fn emits_called_through_the_binding_are_used() {
    // const emit = defineEmits(['save', 'close']); emit('save')
    let mut p = program(vec![declare(ident("emit"), call("defineEmits", None, vec![strings(&[("save", 26), ("close", 34)])]))]);
    p.identifier_calls = vec![(s("emit"), Some(s("save"))), (s("log"), Some(s("close")))];
    p.identifier_refs = vec![(s("emit"), RefRole::Callee)];
    let h = harvest_define_emits(&p);
    assert_eq!(h.emits.len(), 2);
    assert_eq!((h.emits[0].name.as_str(), h.emits[0].span_start, h.emits[0].used), ("save", 26, true));
    assert_eq!((h.emits[1].name.as_str(), h.emits[1].used), ("close", false));
    assert!(!h.has_unharvestable_emits && !h.has_dynamic_emit && !h.has_emit_whole_object_use);
    assert_eq!(h.emit_binding.as_deref(), Some("emit"));
    p.identifier_calls.push((s("emit"), None));
    p.identifier_refs.push((s("emit"), RefRole::Plain));
    let h = harvest_define_emits(&p);
    assert!(h.has_dynamic_emit && h.has_emit_whole_object_use);
}

#[test]
fn typed_emits_and_untraceable_emits() {
    let typed = || {
        call(
            "defineEmits",
            Some(vec![TypeArgument::Literal(vec![
                TypeMember::CallSignature(Some(s("change")), 20),
                TypeMember::Property(Some(s("update")), 45),
            ])]),
            vec![],
        )
    };
    let h = harvest_define_emits(&program(vec![declare(ident("emit"), typed())]));
    let names: Vec<&str> = h.emits.iter().map(|e| e.name.as_str()).collect();
    assert_eq!(names, vec!["change", "update"]);
    assert!(!h.has_unharvestable_emits);
    // bare defineEmits<...>(): nothing can be traced
    let h = harvest_define_emits(&program(vec![ScriptStmt::Expression(typed())]));
    assert!(h.has_unharvestable_emits && h.emits.is_empty() && h.emit_binding.is_none());
    // const { x } = defineEmits(['a'])
    let h = harvest_define_emits(&program(vec![declare(
        BindingPattern::Object(vec![shorthand("x", 8)], false),
        call("defineEmits", None, vec![strings(&[("a", 30)])]),
    )]));
    assert!(h.has_unharvestable_emits && h.emits.is_empty());
    // defineEmits({ a: null }) is not read
    let h = harvest_define_emits(&program(vec![declare(ident("emit"), call("defineEmits", None, vec![object(&[("a", 27)])]))]));
    assert!(h.has_unharvestable_emits && h.emits.is_empty());
}

#[test]
fn svelte_props_destructure() {
    // let { a, b: bee = 2, ...rest } = $props()
    let target = BindingPattern::Object(
        vec![
            shorthand("a", 6),
            PatternProperty { key: Some(s("b")), value: BindingPattern::Defaulted(Box::new(ident("bee"))), span_start: 9 },
        ],
        true,
    );
    let mut p = program(vec![declare(target, call("$props", None, vec![]))]);
    p.referenced_roots = vec![s("bee")];
    let h = harvest_svelte_props(&p);
    assert_eq!(h.props.len(), 2);
    assert_eq!((h.props[0].name.as_str(), h.props[0].local.as_str(), h.props[0].used_in_script), ("a", "a", false));
    assert_eq!((h.props[1].name.as_str(), h.props[1].local.as_str(), h.props[1].used_in_script), ("b", "bee", true));
    assert!(h.has_props_attrs_fallthrough && !h.has_unharvestable_props);
    // let p = $props()
    let h = harvest_svelte_props(&program(vec![declare(ident("p"), call("$props", None, vec![]))]));
    assert!(h.has_unharvestable_props && h.props.is_empty());
    // let { a: { x } } = $props()
    let nested = BindingPattern::Object(
        vec![PatternProperty { key: Some(s("a")), value: BindingPattern::Object(vec![shorthand("x", 11)], false), span_start: 6 }],
        false,
    );
    let h = harvest_svelte_props(&program(vec![declare(nested, call("$props", None, vec![]))]));
    assert!(h.has_unharvestable_props && h.props.is_empty());
}

#[test]
fn options_api_props_and_emits() {
    // export default { props: ['foo', 'bar'], emits: { save: null }, methods: {..} }
    let options = ScriptExpr::Object(vec![
        ObjectMember::Property(Some(s("props")), 17, strings(&[("foo", 25), ("bar", 32)])),
        ObjectMember::Property(Some(s("emits")), 40, object(&[("save", 49)])),
        ObjectMember::Property(Some(s("methods")), 62, ScriptExpr::Other),
    ]);
    let mut p = program(vec![ScriptStmt::Other, ScriptStmt::ExportDefault(Some(options))]);
    p.this_reads = vec![s("foo"), s("$refs")];
    p.this_emits = vec![Some(s("save"))];
    let h = harvest_options_api_props(&p);
    assert_eq!(h.props.len(), 2);
    assert_eq!((h.props[0].name.as_str(), h.props[0].local.as_str(), h.props[0].span_start), ("foo", "foo", 25));
    assert!(h.props[0].used_in_script && !h.props[1].used_in_script);
    assert!(!h.has_unharvestable_props && !h.has_props_attrs_fallthrough);
    let e = harvest_options_api_emits(&p);
    assert_eq!(e.emits.len(), 1);
    assert_eq!((e.emits[0].name.as_str(), e.emits[0].span_start, e.emits[0].used), ("save", 49, true));
    assert!(!e.has_dynamic_emit);
    p.has_dynamic_this = true;
    p.this_emits.push(None);
    assert!(harvest_options_api_props(&p).has_props_attrs_fallthrough);
    assert!(harvest_options_api_emits(&p).has_dynamic_emit);
}

#[test]
fn options_api_abstains() {
    // export default defineComponent<Props>()
    let p = program(vec![ScriptStmt::ExportDefault(Some(call("defineComponent", Some(vec![TypeArgument::Other]), vec![])))]);
    assert!(harvest_options_api_props(&p).has_unharvestable_props);
    assert!(harvest_options_api_emits(&p).has_unharvestable_emits);
    // export default defineComponent({ mixins: [..], setup() {..}, props: { a: String, [k]: Number } })
    let options = ScriptExpr::Object(vec![
        ObjectMember::Property(Some(s("mixins")), 2, ScriptExpr::Other),
        ObjectMember::Property(Some(s("setup")), 20, ScriptExpr::Other),
        ObjectMember::Property(
            Some(s("props")),
            40,
            ScriptExpr::Object(vec![
                ObjectMember::Property(Some(s("a")), 49, ScriptExpr::Other),
                ObjectMember::Property(None, 60, ScriptExpr::Other),
            ]),
        ),
    ]);
    let p = program(vec![ScriptStmt::ExportDefault(Some(call("defineComponent", None, vec![options])))]);
    let h = harvest_options_api_props(&p);
    assert!(h.has_unharvestable_props && h.has_props_attrs_fallthrough);
    assert_eq!(h.props.len(), 1);
    let e = harvest_options_api_emits(&p);
    assert!(e.has_unharvestable_emits && e.has_dynamic_emit && e.emits.is_empty());
    // no default export
    let h = harvest_options_api_props(&program(vec![ScriptStmt::ExportDefault(None)]));
    assert!(!h.has_unharvestable_props && h.props.is_empty());
}

#[test]
fn macro_calls_are_recognised() {
    let wrapped = call("withDefaults", None, vec![call("defineProps", None, vec![]), ScriptExpr::Other]);
    assert!(unwrap_define_props_call(&wrapped).is_some());
    assert!(unwrap_define_props_call(&call("withDefaults", None, vec![])).is_none());
    assert!(unwrap_define_props_call(&call("defineEmits", None, vec![])).is_none());
    assert!(unwrap_define_emits_call(&call("defineEmits", None, vec![])).is_some());
    assert!(unwrap_define_emits_call(&ScriptExpr::Other).is_none());
    let defaulted = BindingPattern::Defaulted(Box::new(BindingPattern::Defaulted(Box::new(ident("x")))));
    assert_eq!(binding_local_name(&defaulted), Some("x"));
    assert_eq!(binding_local_name(&BindingPattern::Other), None);
}
