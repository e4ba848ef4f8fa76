//! Dropping the diagnostics of rules that the client disabled.
//!
//! A diagnostic is dropped when its code is a string naming a disabled
//! rule; one with no code or a numeric code is always kept. The diagnostics
//! are `ls_types::Diagnostic` values, which this module reads only through
//! their code.

use vstd::prelude::*;

verus! {

#[verifier::external_type_specification]
#[verifier::external_body]
pub struct ExDiagnostic(ls_types::Diagnostic);

/// The code of a diagnostic when it is a string; `None` when the code is a
/// number or absent.
pub uninterp spec fn diagnostic_text_code(d: ls_types::Diagnostic) -> Option<Seq<char>>;

/// The string code of `d`, if it has one.
///
/// Trusted: reads the `code` field of `ls_types::Diagnostic` (an
/// `Option<NumberOrString>`) and hands out the string of a
/// `NumberOrString::String`, `None` otherwise; the contract names that
/// result [`diagnostic_text_code`].
#[verifier::external_body]
fn text_code(d: &ls_types::Diagnostic) -> (r: Option<String>)
    ensures
        r is Some == diagnostic_text_code(*d) is Some,
        r matches Some(s) ==> diagnostic_text_code(*d) == Some(s@),
{
    match &d.code {
        Some(ls_types::NumberOrString::String(s)) => Some(s.clone()),
        Some(ls_types::NumberOrString::Number(_)) => None,
        None => None,
    }
}

/// A copy of the diagnostic.
///
/// Trusted: `ls_types::Diagnostic` derives `Clone`, which copies every field,
/// so the copy equals the original.
#[verifier::external_body]
fn copy_diagnostic(d: &ls_types::Diagnostic) -> (r: ls_types::Diagnostic)
    ensures
        r == *d,
{
    d.clone()
}

/// The texts of the disabled codes.
pub open spec fn code_texts(codes: Seq<String>) -> Seq<Seq<char>> {
    codes.map_values(|c: String| c@)
}

/// `d` survives: it has no string code, or its code is not disabled.
pub open spec fn kept(d: ls_types::Diagnostic, disabled: Seq<Seq<char>>) -> bool {
    match diagnostic_text_code(d) {
        Some(code) => !disabled.contains(code),
        None => true,
    }
}

/// Whether `code` is one of `disabled`.
fn is_disabled(code: &str, disabled: &Vec<String>) -> (r: bool)
    ensures
        r == code_texts(disabled@).contains(code@),
{
    let mut i: usize = 0;
    while i < disabled.len()
        invariant
            i <= disabled@.len(),
            forall|j: int| 0 <= j < i ==> disabled@[j]@ != code@,
        decreases disabled@.len() - i,
    {
        if crate::text::str_eq(disabled[i].as_str(), code) {
            assert(code_texts(disabled@)[i as int] == code@);
            return true;
        }
        i = i + 1;
    }
    proof {
        if code_texts(disabled@).contains(code@) {
            let j = choose|j: int| 0 <= j < code_texts(disabled@).len() && code_texts(disabled@)[j] == code@;
            assert(disabled@[j]@ == code@);
        }
    }
    false
}

/// The diagnostics, in order, without those whose string code is disabled.
pub fn filter_disabled_diagnostics(diags: &Vec<ls_types::Diagnostic>, disabled: &Vec<String>) -> (r: Vec<
    ls_types::Diagnostic,
>)
    ensures
        r@ == diags@.filter(|d: ls_types::Diagnostic| kept(d, code_texts(disabled@))),
{
    let ghost pred = |d: ls_types::Diagnostic| kept(d, code_texts(disabled@));
    let mut out: Vec<ls_types::Diagnostic> = Vec::new();
    let mut k: usize = 0;
    proof {
        reveal(Seq::filter);
        assert(diags@.subrange(0, 0).filter(pred) =~= Seq::<ls_types::Diagnostic>::empty());
    }
    while k < diags.len()
        invariant
            k <= diags@.len(),
            pred == (|d: ls_types::Diagnostic| kept(d, code_texts(disabled@))),
            out@ == diags@.subrange(0, k as int).filter(pred),
        decreases diags@.len() - k,
    {
        let d = &diags[k];
        let keep = match text_code(d) {
            Some(code) => !is_disabled(code.as_str(), disabled),
            None => true,
        };
        proof {
            reveal(Seq::filter);
            let next = diags@.subrange(0, k + 1);
            assert(next.drop_last() =~= diags@.subrange(0, k as int));
            assert(next.last() == diags@[k as int]);
            assert(keep == pred(diags@[k as int]));
        }
        if keep {
            out.push(copy_diagnostic(d));
        }
        k = k + 1;
    }
    assert(diags@.subrange(0, k as int) =~= diags@);
    out
}

} // verus!
