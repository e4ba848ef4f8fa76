//! Which exports of a re-exported module a reference attaches to.
//!
//! A name re-exported through `export *` may exist in the source module as a
//! type export, a value export, or both. A reference that reaches the barrel
//! attaches to the type exports, the value exports, or both, depending on how
//! it was imported and on how the importing module uses the binding.

use vstd::prelude::*;
use vstd::string::StringSliceAdditionalSpecFns;

verus! {

/// The import bindings of a module that its code uses in type positions and
/// in value positions.
#[derive(Debug, Clone, Default)]
pub struct ImportBindingUsage {
    pub type_referenced_import_bindings: Vec<String>,
    pub value_referenced_import_bindings: Vec<String>,
}

/// `name` is one of the bindings listed.
pub open spec fn binding_listed(list: Seq<String>, name: Seq<char>) -> bool {
    exists|i: int| 0 <= i < list.len() && (#[trigger] list[i])@ == name
}

/// The usage record behind an optional reference.
pub open spec fn usage_of(module: Option<&ImportBindingUsage>) -> Option<ImportBindingUsage> {
    match module {
        Some(m) => Some(*m),
        None => None,
    }
}

/// The import binding `local_name` is used in a type position of the module.
pub open spec fn type_usage(module: Option<ImportBindingUsage>, local_name: Seq<char>) -> bool {
    local_name.len() > 0 && match module {
        Some(m) => binding_listed(m.type_referenced_import_bindings@, local_name),
        None => false,
    }
}

/// The import binding `local_name` is used in a value position of the module.
pub open spec fn value_usage(module: Option<ImportBindingUsage>, local_name: Seq<char>) -> bool {
    local_name.len() > 0 && match module {
        Some(m) => binding_listed(m.value_referenced_import_bindings@, local_name),
        None => false,
    }
}

fn listed(list: &Vec<String>, name: &str) -> (r: bool)
    ensures
        r == binding_listed(list@, name@),
{
    let mut i: usize = 0;
    while i < list.len()
        invariant
            i <= list@.len(),
            forall|j: int| 0 <= j < i ==> (#[trigger] list@[j])@ != name@,
        decreases list@.len() - i,
    {
        if crate::text::str_eq(list[i].as_str(), name) {
            return true;
        }
        i = i + 1;
    }
    false
}

/// Whether the importing module uses the binding `local_name` as a type
/// (never for an empty name or an unknown module).
pub fn import_binding_has_type_usage(source_mod: Option<&ImportBindingUsage>, local_name: &str) -> (r: bool)
    ensures
        r == type_usage(usage_of(source_mod), local_name@),
{
    if local_name.as_bytes().len() == 0 {
        proof {
            crate::text::lemma_encode_empty(local_name@);
        }
        return false;
    }
    proof {
        crate::text::lemma_encode_empty(local_name@);
    }
    match source_mod {
        Some(m) => listed(&m.type_referenced_import_bindings, local_name),
        None => false,
    }
}

/// Whether the importing module uses the binding `local_name` as a value
/// (never for an empty name or an unknown module).
pub fn import_binding_has_value_usage(source_mod: Option<&ImportBindingUsage>, local_name: &str) -> (r: bool)
    ensures
        r == value_usage(usage_of(source_mod), local_name@),
{
    if local_name.as_bytes().len() == 0 {
        proof {
            crate::text::lemma_encode_empty(local_name@);
        }
        return false;
    }
    proof {
        crate::text::lemma_encode_empty(local_name@);
    }
    match source_mod {
        Some(m) => listed(&m.value_referenced_import_bindings, local_name),
        None => false,
    }
}

/// The fallback when no usage decides: a type-only reference attaches to the
/// type exports if there are any (else the value exports); any other to the
/// value exports if there are any (else the type exports).
pub open spec fn fallback_targets(is_type_only: bool, has_type_exports: bool, has_value_exports: bool) -> (bool, bool) {
    if is_type_only {
        (has_type_exports, !has_type_exports && has_value_exports)
    } else {
        (!has_value_exports && has_type_exports, has_value_exports)
    }
}

/// Targets of a reference made by a named import: type exports when there are
/// some and the import is type-only, there are no value exports, or the
/// binding is used as a type; value exports when there are some and there are
/// no type exports or the binding is used as a value; when neither holds, the
/// fallback.
pub open spec fn named_import_targets(
    is_type_only: bool,
    has_type_exports: bool,
    has_value_exports: bool,
    used_as_type: bool,
    used_as_value: bool,
) -> (bool, bool) {
    let t = has_type_exports && (!has_value_exports || is_type_only || used_as_type);
    let v = has_value_exports && (!has_type_exports || used_as_value);
    if t || v {
        (t, v)
    } else {
        fallback_targets(is_type_only, has_type_exports, has_value_exports)
    }
}

/// Which of the type / value exports a named-import reference attaches to
/// (see [`named_import_targets`]).
pub fn decide_named_import_attach_targets(
    source_mod: Option<&ImportBindingUsage>,
    local_name: &str,
    is_type_only: bool,
    has_type_exports: bool,
    has_value_exports: bool,
) -> (r: (bool, bool))
    ensures
        r == named_import_targets(
            is_type_only,
            has_type_exports,
            has_value_exports,
            type_usage(usage_of(source_mod), local_name@),
            value_usage(usage_of(source_mod), local_name@),
        ),
{
    let attach_type_exports = if !has_type_exports {
        false
    } else if !has_value_exports || is_type_only {
        true
    } else {
        import_binding_has_type_usage(source_mod, local_name)
    };
    let attach_value_exports = if !has_value_exports {
        false
    } else if !has_type_exports {
        true
    } else {
        import_binding_has_value_usage(source_mod, local_name)
    };
    if attach_type_exports || attach_value_exports {
        (attach_type_exports, attach_value_exports)
    } else {
        decide_barrel_export_attach_targets(is_type_only, has_type_exports, has_value_exports)
    }
}

/// Which of the type / value exports a reference already on a barrel export
/// attaches to: the fallback of [`fallback_targets`].
pub fn decide_barrel_export_attach_targets(is_type_only: bool, has_type_exports: bool, has_value_exports: bool) -> (r: (bool, bool))
    ensures
        r == fallback_targets(is_type_only, has_type_exports, has_value_exports),
{
    if is_type_only {
        (has_type_exports, !has_type_exports && has_value_exports)
    } else {
        (!has_value_exports && has_type_exports, has_value_exports)
    }
}

/// A reference attaches only to kinds of export that exist, and whenever
/// some export exists it attaches to at least one: no reference is dropped.
pub proof fn lemma_targets_exist_and_never_drop(
    is_type_only: bool,
    has_type_exports: bool,
    has_value_exports: bool,
    used_as_type: bool,
    used_as_value: bool,
)
    ensures
        ({
            let r = named_import_targets(is_type_only, has_type_exports, has_value_exports, used_as_type, used_as_value);
            &&& r.0 ==> has_type_exports
            &&& r.1 ==> has_value_exports
            &&& (has_type_exports || has_value_exports) ==> (r.0 || r.1)
        }),
        ({
            let f = fallback_targets(is_type_only, has_type_exports, has_value_exports);
            &&& f.0 ==> has_type_exports
            &&& f.1 ==> has_value_exports
            &&& !(f.0 && f.1)
            &&& (has_type_exports || has_value_exports) ==> (f.0 || f.1)
        }),
{
}

} // verus!
