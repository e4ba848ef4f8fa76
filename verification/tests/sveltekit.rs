use fallow::sveltekit::{
    is_sveltekit_load_type_name, LoadBody, LoadDeclaration, LoadDeclarator, LoadHarvest, LoadInit, LoadProperty,
    LoadReturn,
};

#[test]
fn recognizes_the_four_load_types() {
    for name in ["PageLoad", "PageServerLoad", "LayoutLoad", "LayoutServerLoad"] {
        assert!(is_sveltekit_load_type_name(name), "{name}");
    }
    for name in ["pageLoad", "Load", "PageLoadEvent", "", "LayoutServerLoad "] {
        assert!(!is_sveltekit_load_type_name(name), "{name}");
    }
}

fn prop(name: &str, start: u32) -> LoadProperty {
    LoadProperty::Property {
        computed: false,
        name: Some(name.to_string()),
        span_start: start,
        span_end: start + name.len() as u32,
    }
}

fn object(props: Vec<LoadProperty>) -> LoadReturn {
    LoadReturn::Object(props)
}

fn body(returns: usize, final_return: Option<LoadReturn>) -> LoadBody {
    LoadBody { returns, final_return }
}

fn const_load(init: LoadInit) -> LoadDeclaration {
    LoadDeclaration::Variable(vec![LoadDeclarator { binding: Some("load".to_string()), init: Some(init) }])
}

fn harvest(decl: &LoadDeclaration) -> LoadHarvest {
    let mut h = LoadHarvest::new();
    h.try_harvest_load_export(decl);
    h
}

fn key_names(h: &LoadHarvest) -> Vec<String> {
    h.keys.iter().map(|k| k.name.clone()).collect()
}

#[test]
fn harvests_object_literal_keys_from_arrow_load() {
    // export const load = async () => { return { used: 1, dead: 2 }; };
    let decl = const_load(LoadInit::BlockArrow(body(1, Some(object(vec![prop("used", 43), prop("dead", 52)])))));
    let h = harvest(&decl);
    assert_eq!(key_names(&h), vec!["used", "dead"]);
    assert_eq!((h.keys[0].span_start, h.keys[0].span_end), (43, 47));
    assert!(!h.unharvestable);
}

#[test]
fn harvests_keys_from_async_function_load() {
    // export async function load() { return { a: 1, b: 2 }; }
    let decl = LoadDeclaration::Function {
        name: Some("load".to_string()),
        body: Some(body(1, Some(object(vec![prop("a", 40), prop("b", 46)])))),
    };
    let h = harvest(&decl);
    assert_eq!(key_names(&h), vec!["a", "b"]);
    assert!(!h.unharvestable);
}

#[test]
fn harvests_through_satisfies_pageload() {
    // export const load = (async () => ({ x: 1 })) satisfies PageLoad;
    let decl = const_load(LoadInit::ExpressionArrow(Some(object(vec![prop("x", 36)]))));
    let h = harvest(&decl);
    assert_eq!(key_names(&h), vec!["x"]);
    assert!(!h.unharvestable);
}

#[test]
fn abstains_on_spread_return() {
    // export const load = async () => { return { ...base, extra: 1 }; };
    let decl = const_load(LoadInit::BlockArrow(body(1, Some(object(vec![LoadProperty::Spread, prop("extra", 52)])))));
    let h = harvest(&decl);
    assert!(h.keys.is_empty());
    assert!(h.unharvestable);
}

#[test]
fn abstains_on_non_object_return() {
    // export const load = async () => { return makeData(); };
    let decl = const_load(LoadInit::BlockArrow(body(1, Some(LoadReturn::Other))));
    let h = harvest(&decl);
    assert!(h.keys.is_empty());
    assert!(h.unharvestable);
}

#[test]
fn abstains_on_multi_return_body() {
    // export async function load(x) { if (x) { return { a: 1 }; } return { b: 2 }; }
    let decl = LoadDeclaration::Function {
        name: Some("load".to_string()),
        body: Some(body(2, Some(object(vec![prop("b", 70)])))),
    };
    assert!(harvest(&decl).unharvestable);
}

#[test]
fn abstains_on_computed_key() {
    // export const load = async () => { return { [k]: 1 }; };
    let computed = LoadProperty::Property { computed: true, name: None, span_start: 43, span_end: 46 };
    let decl = const_load(LoadInit::BlockArrow(body(1, Some(object(vec![computed])))));
    assert!(harvest(&decl).unharvestable);
}

#[test]
fn other_exports_and_wrapped_loads() {
    // export function other() { return { a: 1 }; } leaves the harvest alone
    let other = LoadDeclaration::Function {
        name: Some("other".to_string()),
        body: Some(body(1, Some(object(vec![prop("a", 35)])))),
    };
    let mut h = LoadHarvest::new();
    h.try_harvest_load_export(&other);
    assert!(h.keys.is_empty() && !h.unharvestable);
    // export const load = wrap(handler); abstains; a later load still adds keys
    h.try_harvest_load_export(&const_load(LoadInit::Other));
    assert!(h.unharvestable);
    h.try_harvest_load_export(&const_load(LoadInit::BlockArrow(body(0, None))));
    assert!(h.keys.is_empty());
    h.try_harvest_load_export(&const_load(LoadInit::ExpressionArrow(Some(object(vec![prop("y", 1)])))));
    assert_eq!(key_names(&h), vec!["y"]);
}
