//! SvelteKit `load`: its type names, and the keys of the object it returns.

use vstd::prelude::*;

use crate::text::str_eq;

verus! {

/// Whether a TS type name is a SvelteKit load type (`PageLoad`,
/// `PageServerLoad`, `LayoutLoad`, `LayoutServerLoad`), which marks a `load`
/// declared with a `: PageLoad` annotation or `satisfies PageLoad`. Only the
/// base name of a generic type (`PageLoad<{ ... }>`) is passed here.
pub fn is_sveltekit_load_type_name(name: &str) -> (r: bool)
    ensures
        r == (name@ == "PageLoad"@ || name@ == "PageServerLoad"@ || name@ == "LayoutLoad"@ || name@
            == "LayoutServerLoad"@),
{
    str_eq(name, "PageLoad") || str_eq(name, "PageServerLoad") || str_eq(name, "LayoutLoad") || str_eq(
        name,
        "LayoutServerLoad",
    )
}


// ---------------------------------------------------------------------------
// The keys a `load` returns
// ---------------------------------------------------------------------------

/// One property of a returned object literal.
#[derive(Debug)]
pub enum LoadProperty {
    /// `...base`.
    Spread,
    /// `key: value`: whether the key is computed (`[k]`), the key's static
    /// name when it has one, and the key's span.
    Property { computed: bool, name: Option<String>, span_start: u32, span_end: u32 },
}

/// The expression a `load` returns, with parentheses peeled.
#[derive(Debug)]
pub enum LoadReturn {
    /// An object literal, with its properties in order.
    Object(Vec<LoadProperty>),
    /// Anything else (`data`, `makeData()`).
    Other,
}

/// A function body: how many `return` statements it holds, and the
/// expression its final `return` hands back, if any.
#[derive(Debug)]
pub struct LoadBody {
    pub returns: usize,
    pub final_return: Option<LoadReturn>,
}

/// The initializer of a `load` binding, with TS casts, `satisfies` and
/// parentheses peeled.
#[derive(Debug)]
pub enum LoadInit {
    /// An arrow with an expression body: the returned expression when it
    /// can be read.
    ExpressionArrow(Option<LoadReturn>),
    /// An arrow with a block body.
    BlockArrow(LoadBody),
    /// A function expression, with its body when it has one.
    Function(Option<LoadBody>),
    /// Anything else: a wrapped factory, an identifier.
    Other,
}

/// One declarator: the name it binds when it binds a plain identifier, and
/// its initializer.
#[derive(Debug)]
pub struct LoadDeclarator {
    pub binding: Option<String>,
    pub init: Option<LoadInit>,
}

/// An exported declaration, as far as the `load` harvest reads it.
#[derive(Debug)]
pub enum LoadDeclaration {
    /// `export [async] function name() { ... }`; no body for an overload
    /// signature.
    Function { name: Option<String>, body: Option<LoadBody> },
    /// `export const ...`.
    Variable(Vec<LoadDeclarator>),
    /// Any other declaration.
    Other,
}

/// A key of the object a `load` returns, with its span.
#[derive(Debug, Clone)]
pub struct LoadReturnKey {
    pub name: String,
    pub span_start: u32,
    pub span_end: u32,
}

/// The keys harvested so far, and whether some `load` could not be
/// harvested.
#[derive(Debug)]
pub struct LoadHarvest {
    pub keys: Vec<LoadReturnKey>,
    pub unharvestable: bool,
}

pub open spec fn key_view(k: LoadReturnKey) -> (Seq<char>, u32, u32) {
    (k.name@, k.span_start, k.span_end)
}

pub open spec fn keys_view(keys: Seq<LoadReturnKey>) -> Seq<(Seq<char>, u32, u32)> {
    keys.map_values(|k: LoadReturnKey| key_view(k))
}

impl LoadHarvest {
    pub open spec fn view(&self) -> (Seq<(Seq<char>, u32, u32)>, bool) {
        (keys_view(self.keys@), self.unharvestable)
    }
}

/// The keys of the first `k` properties, or `None` when one of them is a
/// spread, a computed key or a key without a static name.
pub open spec fn property_keys(props: Seq<LoadProperty>, k: int) -> Option<Seq<(Seq<char>, u32, u32)>>
    decreases k,
{
    if k <= 0 {
        Some(seq![])
    } else {
        match property_keys(props, k - 1) {
            None => None,
            Some(prev) => match props[k - 1] {
                LoadProperty::Spread => None,
                LoadProperty::Property { computed, name, span_start, span_end } => if computed {
                    None
                } else {
                    match name {
                        Some(n) => Some(prev.push((n@, span_start, span_end))),
                        None => None,
                    }
                },
            },
        }
    }
}

/// The keys of a returned expression: those of an object literal without
/// spreads or computed keys; `None` (abstain) otherwise.
pub open spec fn return_keys(r: LoadReturn) -> Option<Seq<(Seq<char>, u32, u32)>> {
    match r {
        LoadReturn::Object(props) => property_keys(props@, props@.len() as int),
        LoadReturn::Other => None,
    }
}

/// The harvest after reading one returned expression: its keys appended,
/// or the abstain flag set.
pub open spec fn after_return(h: (Seq<(Seq<char>, u32, u32)>, bool), r: LoadReturn) -> (Seq<(Seq<char>, u32, u32)>, bool) {
    match return_keys(r) {
        Some(keys) => (h.0 + keys, h.1),
        None => (h.0, true),
    }
}

/// The harvest after reading a function body: a body with more than one
/// `return` abstains; one without a final `return` adds nothing.
pub open spec fn after_body(h: (Seq<(Seq<char>, u32, u32)>, bool), b: LoadBody) -> (Seq<(Seq<char>, u32, u32)>, bool) {
    if b.returns > 1 {
        (h.0, true)
    } else {
        match b.final_return {
            Some(r) => after_return(h, r),
            None => h,
        }
    }
}

/// The harvest after reading the initializer of a `load` binding.
pub open spec fn after_init(h: (Seq<(Seq<char>, u32, u32)>, bool), init: LoadInit) -> (Seq<(Seq<char>, u32, u32)>, bool) {
    match init {
        LoadInit::ExpressionArrow(Some(r)) => after_return(h, r),
        LoadInit::ExpressionArrow(None) => (h.0, true),
        LoadInit::BlockArrow(b) => after_body(h, b),
        LoadInit::Function(Some(b)) => after_body(h, b),
        LoadInit::Function(None) => (h.0, true),
        LoadInit::Other => (h.0, true),
    }
}

/// The harvest after the first `k` declarators: each binding `load` with an
/// initializer is read.
pub open spec fn after_declarators(
    h: (Seq<(Seq<char>, u32, u32)>, bool),
    ds: Seq<LoadDeclarator>,
    k: int,
) -> (Seq<(Seq<char>, u32, u32)>, bool)
    decreases k,
{
    if k <= 0 {
        h
    } else {
        let prev = after_declarators(h, ds, k - 1);
        let d = ds[k - 1];
        match (d.binding, d.init) {
            (Some(name), Some(init)) => if name@ == "load"@ {
                after_init(prev, init)
            } else {
                prev
            },
            _ => prev,
        }
    }
}

/// The harvest after reading an exported declaration: a function named
/// `load` with a body, or the `load` declarators of a variable declaration.
pub open spec fn after_declaration(
    h: (Seq<(Seq<char>, u32, u32)>, bool),
    decl: LoadDeclaration,
) -> (Seq<(Seq<char>, u32, u32)>, bool) {
    match decl {
        LoadDeclaration::Function { name, body } => match (name, body) {
            (Some(n), Some(b)) => if n@ == "load"@ {
                after_body(h, b)
            } else {
                h
            },
            _ => h,
        },
        LoadDeclaration::Variable(ds) => after_declarators(h, ds@, ds@.len() as int),
        LoadDeclaration::Other => h,
    }
}

/// A `load` bound to a function expression (or an arrow with a block body)
/// is read exactly like `export function load` with the same body; in
/// particular, a body whose single `return` hands back an object literal
/// without spreads or computed keys appends that object's keys and leaves
/// the abstain flag as it was.
pub proof fn lemma_load_init_reads_body(
    h: (Seq<(Seq<char>, u32, u32)>, bool),
    name: String,
    d: LoadDeclarator,
    body: LoadBody,
)
    requires
        name@ == "load"@,
        d.binding == Some(name),
        d.init == Some(LoadInit::Function(Some(body))),
    ensures
        after_declarators(h, seq![d], 1) == after_declaration(
            h,
            LoadDeclaration::Function { name: Some(name), body: Some(body) },
        ),
        after_init(h, LoadInit::Function(Some(body))) == after_init(h, LoadInit::BlockArrow(body)),
        body.returns <= 1 ==> match body.final_return {
            Some(r) => match return_keys(r) {
                Some(keys) => after_init(h, LoadInit::Function(Some(body))) == (h.0 + keys, h.1),
                None => after_init(h, LoadInit::Function(Some(body))) == (h.0, true),
            },
            None => after_init(h, LoadInit::Function(Some(body))) == h,
        },
{
    reveal_with_fuel(after_declarators, 2);
}

/// The keys of a returned object literal, or `Err` to abstain (a spread, a
/// computed key, a key without a static name, or no object literal).
pub fn harvest_load_return_keys(returned: &LoadReturn) -> (r: Result<Vec<LoadReturnKey>, ()>)
    ensures
        match r {
            Ok(keys) => return_keys(*returned) == Some(keys_view(keys@)),
            Err(_) => return_keys(*returned) is None,
        },
{
    let props = match returned {
        LoadReturn::Object(props) => props,
        LoadReturn::Other => {
            return Err(());
        },
    };
    let mut keys: Vec<LoadReturnKey> = Vec::new();
    let mut i: usize = 0;
    while i < props.len()
        invariant
            i <= props@.len(),
            *returned == LoadReturn::Object(*props),
            property_keys(props@, i as int) == Some(keys_view(keys@)),
        decreases props@.len() - i,
    {
        match &props[i] {
            LoadProperty::Spread => {
                proof {
                    lemma_property_keys_none_after(props@, i as int + 1, props@.len() as int);
                }
                return Err(());
            },
            LoadProperty::Property { computed, name, span_start, span_end } => {
                if *computed {
                    proof {
                        lemma_property_keys_none_after(props@, i as int + 1, props@.len() as int);
                    }
                    return Err(());
                }
                match name {
                    Some(n) => {
                        let ghost before = keys@;
                        keys.push(LoadReturnKey { name: n.clone(), span_start: *span_start, span_end: *span_end });
                        proof {
                            assert(keys_view(keys@) =~= keys_view(before).push((n@, *span_start, *span_end)));
                        }
                    },
                    None => {
                        proof {
                            lemma_property_keys_none_after(props@, i as int + 1, props@.len() as int);
                        }
                        return Err(());
                    },
                }
            },
        }
        i = i + 1;
    }
    Ok(keys)
}

proof fn lemma_property_keys_none_after(props: Seq<LoadProperty>, a: int, b: int)
    requires
        0 < a <= b,
        property_keys(props, a) is None,
    ensures
        property_keys(props, b) is None,
    decreases b - a,
{
    if a < b {
        lemma_property_keys_none_after(props, a, b - 1);
    }
}

impl LoadHarvest {
    /// Nothing harvested yet.
    pub fn new() -> (r: Self)
        ensures
            r@ == (Seq::<(Seq<char>, u32, u32)>::empty(), false),
    {
        let r = LoadHarvest { keys: Vec::new(), unharvestable: false };
        proof {
            assert(keys_view(r.keys@) =~= Seq::<(Seq<char>, u32, u32)>::empty());
        }
        r
    }

    /// Read one returned expression.
    fn harvest_return(&mut self, returned: &LoadReturn)
        ensures
            final(self)@ == after_return(old(self)@, *returned),
    {
        match harvest_load_return_keys(returned) {
            Ok(keys) => {
                let ghost before = self.keys@;
                let mut i: usize = 0;
                while i < keys.len()
                    invariant
                        i <= keys@.len(),
                        self.unharvestable == old(self).unharvestable,
                        before == old(self).keys@,
                        keys_view(self.keys@) == keys_view(before) + keys_view(keys@.subrange(0, i as int)),
                    decreases keys@.len() - i,
                {
                    let ghost mid = self.keys@;
                    let k = &keys[i];
                    self.keys.push(LoadReturnKey { name: k.name.clone(), span_start: k.span_start, span_end: k.span_end });
                    proof {
                        assert(keys@.subrange(0, i + 1) =~= keys@.subrange(0, i as int).push(keys@[i as int]));
                        assert(keys_view(self.keys@) =~= keys_view(mid).push(key_view(keys@[i as int])));
                        assert(keys_view(keys@.subrange(0, i + 1)) =~= keys_view(keys@.subrange(0, i as int)).push(
                            key_view(keys@[i as int]),
                        ));
                    }
                    i = i + 1;
                }
                proof {
                    assert(keys@.subrange(0, i as int) =~= keys@);
                }
            },
            Err(_) => {
                self.unharvestable = true;
            },
        }
    }

    /// Read a function body.
    fn harvest_body(&mut self, body: &LoadBody)
        ensures
            final(self)@ == after_body(old(self)@, *body),
    {
        if body.returns > 1 {
            self.unharvestable = true;
            return;
        }
        match &body.final_return {
            Some(returned) => self.harvest_return(returned),
            None => {},
        }
    }

    /// Read the initializer of a `load` binding.
    fn harvest_init(&mut self, init: &LoadInit)
        ensures
            final(self)@ == after_init(old(self)@, *init),
    {
        match init {
            LoadInit::ExpressionArrow(Some(returned)) => self.harvest_return(returned),
            LoadInit::ExpressionArrow(None) => {
                self.unharvestable = true;
            },
            LoadInit::BlockArrow(body) => self.harvest_body(body),
            LoadInit::Function(Some(body)) => self.harvest_body(body),
            LoadInit::Function(None) => {
                self.unharvestable = true;
            },
            LoadInit::Other => {
                self.unharvestable = true;
            },
        }
    }

    /// Harvest the keys of the object a `load` export returns, from an
    /// `export [async] function load` or an `export const load = ...`
    /// declaration; abstain (set the flag) on any shape whose keys cannot be
    /// read. Any other declaration leaves the harvest unchanged.
    pub fn try_harvest_load_export(&mut self, declaration: &LoadDeclaration)
        ensures
            final(self)@ == after_declaration(old(self)@, *declaration),
    {
        match declaration {
            LoadDeclaration::Function { name, body } => {
                match (name, body) {
                    (Some(n), Some(b)) => {
                        if str_eq(n.as_str(), "load") {
                            self.harvest_body(b);
                        }
                    },
                    _ => {},
                }
            },
            LoadDeclaration::Variable(declarators) => {
                let ghost start = self@;
                let mut i: usize = 0;
                while i < declarators.len()
                    invariant
                        i <= declarators@.len(),
                        self@ == after_declarators(start, declarators@, i as int),
                    decreases declarators@.len() - i,
                {
                    let d = &declarators[i];
                    match (&d.binding, &d.init) {
                        (Some(name), Some(init)) => {
                            if str_eq(name.as_str(), "load") {
                                self.harvest_init(init);
                            }
                        },
                        _ => {},
                    }
                    i = i + 1;
                }
            },
            LoadDeclaration::Other => {},
        }
    }
}

} // verus!
