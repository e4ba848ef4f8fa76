//! Which calls and literals of a module are recorded as security sinks, and
//! which route registrations are recognised.
//!
//! A sink is described by the dotted path of its callee (`crypto.createHash`,
//! `fs.writeFile`), the syntactic shape of the site and the index of the
//! argument. A non-literal argument is always of interest; a literal one only
//! where the literal itself is the risk (a weak hash name, a `*` target
//! origin, a cleartext `http://` URL, a world-writable mode). The predicates
//! here are over the UTF-8 bytes of the paths and literals.

use vstd::prelude::*;
use vstd::string::StringSliceAdditionalSpecFns;

use crate::text::{lower_seq, range_eq, range_eq_ignore_case, seq_contains, str_eq};

verus! {

/// The syntactic shape of a sink site.
#[derive(Debug, Clone, Copy, PartialEq, Eq, Structural)]
pub enum SinkShape {
    /// `f(arg)`.
    Call,
    /// `obj.f(arg)`.
    MemberCall,
    /// `new F(arg)`.
    NewExpression,
    /// `obj.prop = value`.
    MemberAssign,
    /// A tagged template.
    TaggedTemplate,
    /// A JSX attribute.
    JsxAttr,
    /// A hard-coded secret.
    SecretLiteral,
}

/// The static value of a literal sink argument.
#[derive(Debug)]
pub enum SinkLiteralValue {
    String(String),
    Integer(i64),
    Boolean(bool),
    Null,
}

// ---------------------------------------------------------------------------
// Byte-level helpers
// ---------------------------------------------------------------------------

/// `s` ends with `suffix`.
pub open spec fn ends_with(s: Seq<u8>, suffix: Seq<u8>) -> bool {
    suffix.len() <= s.len() && s.subrange(s.len() - suffix.len(), s.len() as int) == suffix
}

/// `s` starts with `prefix` up to ASCII case (`to_ascii_lowercase`
/// followed by `starts_with` a lowercase literal).
pub open spec fn starts_with_ignore_case(s: Seq<u8>, prefix: Seq<u8>) -> bool {
    prefix.len() <= s.len() && lower_seq(s.subrange(0, prefix.len() as int)) == lower_seq(prefix)
}

/// Where the last `.`-separated segment of `s[..i)` begins.
pub open spec fn segment_start(s: Seq<u8>, i: int) -> int
    decreases i,
{
    if i <= 0 {
        0
    } else if s[i - 1] == 0x2e {
        i
    } else {
        segment_start(s, i - 1)
    }
}

/// The text after the last `.` of `s`, or all of `s` (`rsplit('.').next()`).
pub open spec fn last_segment(s: Seq<u8>) -> Seq<u8> {
    s.subrange(segment_start(s, s.len() as int), s.len() as int)
}

/// Whether `s` ends with `suffix`.
fn bytes_end_with(s: &[u8], suffix: &[u8]) -> (r: bool)
    ensures
        r == ends_with(s@, suffix@),
{
    if suffix.len() > s.len() {
        return false;
    }
    range_eq(s, s.len() - suffix.len(), s.len(), suffix)
}

/// Whether `s` starts with `prefix` up to ASCII case.
fn bytes_start_with_ignore_case(s: &[u8], prefix: &[u8]) -> (r: bool)
    ensures
        r == starts_with_ignore_case(s@, prefix@),
{
    if prefix.len() > s.len() {
        return false;
    }
    range_eq_ignore_case(s, 0, prefix.len(), prefix)
}

proof fn lemma_segment_start_bounds(s: Seq<u8>, i: int)
    requires
        0 <= i <= s.len(),
    ensures
        0 <= segment_start(s, i) <= i,
    decreases i,
{
    if i > 0 && s[i - 1] != 0x2e {
        lemma_segment_start_bounds(s, i - 1);
    }
}

/// Where the last `.`-separated segment of `s[..hi)` begins.
fn find_segment_start(s: &[u8], hi: usize) -> (r: usize)
    requires
        hi <= s@.len(),
    ensures
        r == segment_start(s@, hi as int),
        r <= hi,
{
    let mut i = hi;
    while i > 0 && s[i - 1] != 0x2e
        invariant
            i <= hi <= s@.len(),
            segment_start(s@, i as int) == segment_start(s@, hi as int),
        decreases i,
    {
        i = i - 1;
    }
    proof {
        lemma_segment_start_bounds(s@, hi as int);
    }
    i
}

// ---------------------------------------------------------------------------
// Callee classes
// ---------------------------------------------------------------------------

/// `postMessage`, directly or as a method.
pub open spec fn post_message_callee(p: Seq<char>) -> bool {
    p == "postMessage"@ || ends_with(encode(p), ".postMessage".spec_bytes())
}

/// The UTF-8 bytes of a string.
pub open spec fn encode(p: Seq<char>) -> Seq<u8> {
    vstd::utf8::encode_utf8(p)
}

/// Whether the callee is `postMessage` or a `.postMessage` method.
pub fn is_post_message_callee(callee_path: &str) -> (r: bool)
    ensures
        r == post_message_callee(callee_path@),
{
    str_eq(callee_path, "postMessage") || bytes_end_with(callee_path.as_bytes(), ".postMessage".as_bytes())
}

/// Hash and cipher constructors whose algorithm name is a literal argument.
pub open spec fn weak_crypto_callee(p: Seq<char>) -> bool {
    ||| p == "createHash"@
    ||| p == "createCipher"@
    ||| p == "createDecipher"@
    ||| p == "createCipheriv"@
    ||| p == "createDecipheriv"@
    ||| p == "crypto.createHash"@
    ||| p == "crypto.createCipher"@
    ||| p == "crypto.createDecipher"@
    ||| p == "crypto.createCipheriv"@
    ||| p == "crypto.createDecipheriv"@
}

/// Whether the callee takes a hash or cipher algorithm name.
pub fn is_weak_crypto_literal_callee(callee_path: &str) -> (r: bool)
    ensures
        r == weak_crypto_callee(callee_path@),
{
    str_eq(callee_path, "createHash") || str_eq(callee_path, "createCipher") || str_eq(callee_path, "createDecipher")
        || str_eq(callee_path, "createCipheriv") || str_eq(callee_path, "createDecipheriv") || str_eq(
        callee_path,
        "crypto.createHash",
    ) || str_eq(callee_path, "crypto.createCipher") || str_eq(callee_path, "crypto.createDecipher") || str_eq(
        callee_path,
        "crypto.createCipheriv",
    ) || str_eq(callee_path, "crypto.createDecipheriv")
}

/// Timers that evaluate a string argument as code.
pub open spec fn string_code_callee(p: Seq<char>) -> bool {
    p == "setTimeout"@ || p == "setInterval"@
}

/// Whether the callee evaluates a string argument as code.
pub fn is_string_code_callee(callee_path: &str) -> (r: bool)
    ensures
        r == string_code_callee(callee_path@),
{
    str_eq(callee_path, "setTimeout") || str_eq(callee_path, "setInterval")
}

/// Permission changes whose mode is a literal argument.
pub open spec fn chmod_callee(p: Seq<char>) -> bool {
    ||| p == "fs.chmod"@
    ||| p == "fs.chmodSync"@
    ||| p == "fs.promises.chmod"@
    ||| p == "chmod"@
    ||| p == "chmodSync"@
}

/// Whether the callee changes file permissions.
pub fn is_chmod_literal_callee(callee_path: &str) -> (r: bool)
    ensures
        r == chmod_callee(callee_path@),
{
    str_eq(callee_path, "fs.chmod") || str_eq(callee_path, "fs.chmodSync") || str_eq(callee_path, "fs.promises.chmod")
        || str_eq(callee_path, "chmod") || str_eq(callee_path, "chmodSync")
}

/// File writers whose path is a literal argument.
pub open spec fn temp_file_callee(p: Seq<char>) -> bool {
    ||| p == "fs.writeFile"@
    ||| p == "fs.writeFileSync"@
    ||| p == "fs.appendFile"@
    ||| p == "fs.appendFileSync"@
    ||| p == "fs.createWriteStream"@
    ||| p == "fs.promises.writeFile"@
    ||| p == "fs.promises.appendFile"@
    ||| p == "writeFile"@
    ||| p == "writeFileSync"@
    ||| p == "appendFile"@
    ||| p == "appendFileSync"@
    ||| p == "createWriteStream"@
}

/// Whether the callee writes a file at a literal path.
pub fn is_temp_file_literal_callee(callee_path: &str) -> (r: bool)
    ensures
        r == temp_file_callee(callee_path@),
{
    str_eq(callee_path, "fs.writeFile") || str_eq(callee_path, "fs.writeFileSync") || str_eq(callee_path, "fs.appendFile")
        || str_eq(callee_path, "fs.appendFileSync") || str_eq(callee_path, "fs.createWriteStream") || str_eq(
        callee_path,
        "fs.promises.writeFile",
    ) || str_eq(callee_path, "fs.promises.appendFile") || str_eq(callee_path, "writeFile") || str_eq(
        callee_path,
        "writeFileSync",
    ) || str_eq(callee_path, "appendFile") || str_eq(callee_path, "appendFileSync") || str_eq(
        callee_path,
        "createWriteStream",
    )
}

/// HTTP clients whose URL may name a cloud metadata service.
pub open spec fn metadata_url_callee(p: Seq<char>) -> bool {
    ||| p == "fetch"@
    ||| p == "axios.get"@
    ||| p == "axios.post"@
    ||| p == "got"@
    ||| p == "ky"@
    ||| p == "needle"@
    ||| p == "request"@
    ||| p == "http.request"@
    ||| p == "https.request"@
    ||| p == "undici.request"@
}

/// Whether the callee is an HTTP client checked for metadata-service URLs.
pub fn is_literal_metadata_url_callee(callee_path: &str) -> (r: bool)
    ensures
        r == metadata_url_callee(callee_path@),
{
    str_eq(callee_path, "fetch") || str_eq(callee_path, "axios.get") || str_eq(callee_path, "axios.post") || str_eq(
        callee_path,
        "got",
    ) || str_eq(callee_path, "ky") || str_eq(callee_path, "needle") || str_eq(callee_path, "request") || str_eq(
        callee_path,
        "http.request",
    ) || str_eq(callee_path, "https.request") || str_eq(callee_path, "undici.request")
}

/// HTTP clients whose URL may use a cleartext scheme.
pub open spec fn cleartext_transport_callee(p: Seq<char>) -> bool {
    ||| p == "fetch"@
    ||| p == "axios.get"@
    ||| p == "axios.post"@
    ||| p == "got"@
    ||| p == "ky"@
    ||| p == "needle"@
    ||| p == "request"@
    ||| p == "http.request"@
    ||| p == "http.get"@
    ||| p == "superagent.get"@
    ||| p == "undici.request"@
}

/// Whether the callee is an HTTP client checked for cleartext URLs.
pub fn is_cleartext_transport_literal_callee(callee_path: &str) -> (r: bool)
    ensures
        r == cleartext_transport_callee(callee_path@),
{
    str_eq(callee_path, "fetch") || str_eq(callee_path, "axios.get") || str_eq(callee_path, "axios.post") || str_eq(
        callee_path,
        "got",
    ) || str_eq(callee_path, "ky") || str_eq(callee_path, "needle") || str_eq(callee_path, "request") || str_eq(
        callee_path,
        "http.request",
    ) || str_eq(callee_path, "http.get") || str_eq(callee_path, "superagent.get") || str_eq(
        callee_path,
        "undici.request",
    )
}

// ---------------------------------------------------------------------------
// Literal classes
// ---------------------------------------------------------------------------

/// A URL with a cleartext scheme: `http://` or `ftp://`, in any case.
pub open spec fn cleartext_transport_literal(v: Seq<char>) -> bool {
    starts_with_ignore_case(encode(v), "http://".spec_bytes()) || starts_with_ignore_case(
        encode(v),
        "ftp://".spec_bytes(),
    )
}

/// Whether the literal is a cleartext `http://` or `ftp://` URL.
pub fn is_cleartext_transport_literal(value: &str) -> (r: bool)
    ensures
        r == cleartext_transport_literal(value@),
{
    let b = value.as_bytes();
    bytes_start_with_ignore_case(b, "http://".as_bytes()) || bytes_start_with_ignore_case(b, "ftp://".as_bytes())
}

/// A cleartext WebSocket URL: `ws://`, in any case.
pub open spec fn cleartext_websocket_literal(v: Seq<char>) -> bool {
    starts_with_ignore_case(encode(v), "ws://".spec_bytes())
}

/// Whether the literal is a cleartext `ws://` URL.
pub fn is_cleartext_websocket_literal(value: &str) -> (r: bool)
    ensures
        r == cleartext_websocket_literal(value@),
{
    bytes_start_with_ignore_case(value.as_bytes(), "ws://".as_bytes())
}

/// A literal naming a cloud metadata service.
pub open spec fn metadata_service_literal(v: Seq<char>) -> bool {
    seq_contains(encode(v), "169.254.169.254".spec_bytes()) || seq_contains(
        encode(v),
        "metadata.google.internal".spec_bytes(),
    )
}

/// Whether the literal names a cloud metadata service.
pub fn is_metadata_service_literal(value: &str) -> (r: bool)
    ensures
        r == metadata_service_literal(value@),
{
    let b = value.as_bytes();
    crate::text::contains(b, "169.254.169.254".as_bytes()) || crate::text::contains(
        b,
        "metadata.google.internal".as_bytes(),
    )
}

// ---------------------------------------------------------------------------
// Sink decisions
// ---------------------------------------------------------------------------

/// A literal argument that is itself the risk, by site shape, callee and
/// argument index: a `*` target origin of `postMessage`; a hash or cipher
/// name; code given to a timer as a string; a path written as a file; a
/// cleartext or metadata-service URL given to an HTTP client; a literal
/// permission mode; `new Function("...")` or a cleartext `new
/// WebSocket("ws://...")`; `process.env.NODE_TLS_REJECT_UNAUTHORIZED = "0"`.
pub open spec fn literal_sink(p: Seq<char>, shape: SinkShape, arg_index: u32, literal: SinkLiteralValue) -> bool {
    match shape {
        SinkShape::Call | SinkShape::MemberCall => match literal {
            SinkLiteralValue::String(value) => {
                ||| arg_index == 1 && post_message_callee(p) && value@ == "*"@
                ||| arg_index == 0 && weak_crypto_callee(p)
                ||| arg_index == 0 && string_code_callee(p)
                ||| arg_index == 0 && temp_file_callee(p)
                ||| arg_index == 0 && cleartext_transport_callee(p) && cleartext_transport_literal(value@)
                ||| arg_index == 0 && metadata_url_callee(p) && metadata_service_literal(value@)
            },
            SinkLiteralValue::Integer(_) => arg_index == 1 && chmod_callee(p),
            SinkLiteralValue::Boolean(_) | SinkLiteralValue::Null => false,
        },
        SinkShape::NewExpression => match literal {
            SinkLiteralValue::String(value) => arg_index == 0 && (p == "Function"@ || (p == "WebSocket"@
                && cleartext_websocket_literal(value@))),
            _ => false,
        },
        SinkShape::MemberAssign => arg_index == 0 && p == "process.env.NODE_TLS_REJECT_UNAUTHORIZED"@ && (
        literal matches SinkLiteralValue::String(value) && value@ == "0"@),
        SinkShape::TaggedTemplate | SinkShape::JsxAttr | SinkShape::SecretLiteral => false,
    }
}

/// Whether a literal argument is recorded as a sink (see [`literal_sink`]).
pub fn should_capture_literal_sink_value(
    callee_path: &str,
    sink_shape: SinkShape,
    arg_index: u32,
    literal: &SinkLiteralValue,
) -> (r: bool)
    ensures
        r == literal_sink(callee_path@, sink_shape, arg_index, *literal),
{
    match sink_shape {
        SinkShape::Call | SinkShape::MemberCall => match literal {
            SinkLiteralValue::String(value) => {
                (arg_index == 1 && is_post_message_callee(callee_path) && str_eq(value.as_str(), "*")) || (arg_index
                    == 0 && is_weak_crypto_literal_callee(callee_path)) || (arg_index == 0 && is_string_code_callee(
                    callee_path,
                )) || (arg_index == 0 && is_temp_file_literal_callee(callee_path)) || (arg_index == 0
                    && is_cleartext_transport_literal_callee(callee_path) && is_cleartext_transport_literal(
                    value.as_str(),
                )) || (arg_index == 0 && is_literal_metadata_url_callee(callee_path) && is_metadata_service_literal(
                    value.as_str(),
                ))
            },
            SinkLiteralValue::Integer(_) => arg_index == 1 && is_chmod_literal_callee(callee_path),
            SinkLiteralValue::Boolean(_) | SinkLiteralValue::Null => false,
        },
        SinkShape::NewExpression => match literal {
            SinkLiteralValue::String(value) => arg_index == 0 && (str_eq(callee_path, "Function") || (str_eq(
                callee_path,
                "WebSocket",
            ) && is_cleartext_websocket_literal(value.as_str()))),
            SinkLiteralValue::Integer(_) | SinkLiteralValue::Boolean(_) | SinkLiteralValue::Null => false,
        },
        SinkShape::MemberAssign => {
            arg_index == 0 && str_eq(callee_path, "process.env.NODE_TLS_REJECT_UNAUTHORIZED") && match literal {
                SinkLiteralValue::String(value) => str_eq(value.as_str(), "0"),
                _ => false,
            }
        },
        SinkShape::TaggedTemplate | SinkShape::JsxAttr | SinkShape::SecretLiteral => false,
    }
}

/// Whether an assignment to a member sink is recorded: always for a
/// non-literal value, and for a literal one as [`literal_sink`] says.
pub fn should_capture_member_assign_sink(
    callee_path: &str,
    arg_literal: Option<&SinkLiteralValue>,
    arg_is_non_literal: bool,
) -> (r: bool)
    ensures
        r == (arg_is_non_literal || (arg_literal matches Some(l) && literal_sink(
            callee_path@,
            SinkShape::MemberAssign,
            0,
            *l,
        ))),
{
    if arg_is_non_literal {
        return true;
    }
    match arg_literal {
        Some(literal) => should_capture_literal_sink_value(callee_path, SinkShape::MemberAssign, 0, literal),
        None => false,
    }
}

/// A JWT `verify` called with two arguments (no options), as a call or a
/// method.
pub open spec fn missing_jwt_verify_options(p: Seq<char>, shape: SinkShape, arg_len: usize) -> bool {
    &&& arg_len == 2
    &&& (shape == SinkShape::Call || shape == SinkShape::MemberCall)
    &&& (p == "verify"@ || ends_with(encode(p), ".verify".spec_bytes()))
}

/// Whether a `verify` call lacks its options argument.
pub fn should_capture_missing_jwt_verify_options(callee_path: &str, sink_shape: SinkShape, arg_len: usize) -> (r: bool)
    ensures
        r == missing_jwt_verify_options(callee_path@, sink_shape, arg_len),
{
    arg_len == 2 && (sink_shape == SinkShape::Call || sink_shape == SinkShape::MemberCall) && (str_eq(
        callee_path,
        "verify",
    ) || bytes_end_with(callee_path.as_bytes(), ".verify".as_bytes()))
}

/// A size or count argument that can amplify memory use: argument 0 of
/// `Array(n)` / `new Array(n)`, of `Buffer.alloc*`, and of a `repeat`,
/// `padStart` or `padEnd` method.
pub open spec fn resource_amplification_callee(p: Seq<char>, shape: SinkShape, arg_index: u32) -> bool {
    arg_index == 0 && match shape {
        SinkShape::Call | SinkShape::NewExpression => p == "Array"@,
        SinkShape::MemberCall => {
            ||| p == "Buffer.alloc"@
            ||| p == "Buffer.allocUnsafe"@
            ||| p == "Buffer.allocUnsafeSlow"@
            ||| last_segment(encode(p)) == "repeat".spec_bytes()
            ||| last_segment(encode(p)) == "padStart".spec_bytes()
            ||| last_segment(encode(p)) == "padEnd".spec_bytes()
        },
        _ => false,
    }
}

/// Whether the argument sizes an allocation (see
/// [`resource_amplification_callee`]).
pub fn is_resource_amplification_callee(callee_path: &str, sink_shape: SinkShape, arg_index: u32) -> (r: bool)
    ensures
        r == resource_amplification_callee(callee_path@, sink_shape, arg_index),
{
    if arg_index != 0 {
        return false;
    }
    match sink_shape {
        SinkShape::Call | SinkShape::NewExpression => str_eq(callee_path, "Array"),
        SinkShape::MemberCall => {
            if str_eq(callee_path, "Buffer.alloc") || str_eq(callee_path, "Buffer.allocUnsafe") || str_eq(
                callee_path,
                "Buffer.allocUnsafeSlow",
            ) {
                return true;
            }
            let b = callee_path.as_bytes();
            let start = find_segment_start(b, b.len());
            range_eq(b, start, b.len(), "repeat".as_bytes()) || range_eq(b, start, b.len(), "padStart".as_bytes())
                || range_eq(b, start, b.len(), "padEnd".as_bytes())
        },
        SinkShape::MemberAssign | SinkShape::TaggedTemplate | SinkShape::JsxAttr | SinkShape::SecretLiteral => false,
    }
}

// ---------------------------------------------------------------------------
// Collected names
// ---------------------------------------------------------------------------

/// The texts of `names`.
pub open spec fn texts(names: Seq<String>) -> Seq<Seq<char>> {
    names.map_values(|n: String| n@)
}

/// Whether some string of `names` is `name`.
pub(crate) fn holds_name(names: &Vec<String>, name: &str) -> (r: bool)
    ensures
        r == texts(names@).contains(name@),
{
    let mut i: usize = 0;
    while i < names.len()
        invariant
            i <= names@.len(),
            forall|j: int| 0 <= j < i ==> names@[j]@ != name@,
        decreases names@.len() - i,
    {
        if str_eq(names[i].as_str(), name) {
            assert(texts(names@)[i as int] == name@);
            return true;
        }
        i = i + 1;
    }
    proof {
        if texts(names@).contains(name@) {
            let j = choose|j: int| 0 <= j < texts(names@).len() && texts(names@)[j] == name@;
            assert(names@[j]@ == name@);
        }
    }
    false
}

/// Append `name` unless it is already there (names in first-seen order).
pub fn push_ident(name: &str, out: &mut Vec<String>)
    ensures
        texts(final(out)@) == if texts(old(out)@).contains(name@) {
            texts(old(out)@)
        } else {
            texts(old(out)@).push(name@)
        },
{
    if !holds_name(out, name) {
        let ghost before = out@;
        out.push(name.to_owned());
        proof {
            assert(texts(out@) =~= texts(before).push(name@));
        }
    }
}

/// Append `path` unless it is already there (paths in first-seen order).
pub fn push_source_path(path: String, out: &mut Vec<String>)
    ensures
        texts(final(out)@) == if texts(old(out)@).contains(path@) {
            texts(old(out)@)
        } else {
            texts(old(out)@).push(path@)
        },
{
    if !holds_name(out, path.as_str()) {
        let ghost before = out@;
        let ghost text = path@;
        out.push(path);
        proof {
            assert(texts(out@) =~= texts(before).push(text));
        }
    }
}

// ---------------------------------------------------------------------------
// Routes
// ---------------------------------------------------------------------------

/// An exported HTTP handler name of a route module (`GET`, `POST`, ...).
pub open spec fn http_route_handler_name(n: Seq<char>) -> bool {
    ||| n == "GET"@
    ||| n == "POST"@
    ||| n == "PUT"@
    ||| n == "PATCH"@
    ||| n == "DELETE"@
    ||| n == "OPTIONS"@
    ||| n == "HEAD"@
}

/// Whether the name is an HTTP route handler export.
pub fn is_http_route_handler_name(name: &str) -> (r: bool)
    ensures
        r == http_route_handler_name(name@),
{
    str_eq(name, "GET") || str_eq(name, "POST") || str_eq(name, "PUT") || str_eq(name, "PATCH") || str_eq(
        name,
        "DELETE",
    ) || str_eq(name, "OPTIONS") || str_eq(name, "HEAD")
}

/// A route-registration method (`app.get`, `router.use`, ...).
pub open spec fn route_registration_method(m: Seq<char>) -> bool {
    ||| m == "all"@
    ||| m == "delete"@
    ||| m == "get"@
    ||| m == "head"@
    ||| m == "options"@
    ||| m == "patch"@
    ||| m == "post"@
    ||| m == "put"@
    ||| m == "use"@
}

/// Whether the method registers a route.
pub fn is_route_registration_method(method: &str) -> (r: bool)
    ensures
        r == route_registration_method(method@),
{
    str_eq(method, "all") || str_eq(method, "delete") || str_eq(method, "get") || str_eq(method, "head") || str_eq(
        method,
        "options",
    ) || str_eq(method, "patch") || str_eq(method, "post") || str_eq(method, "put") || str_eq(method, "use")
}

/// ASCII upper case of one character.
pub open spec fn ascii_upper(c: char) -> char {
    if 'a' <= c && c <= 'z' {
        ((c as u32) - 32) as char
    } else {
        c
    }
}

/// ASCII upper case of a name.
pub open spec fn ascii_upper_seq(m: Seq<char>) -> Seq<char> {
    Seq::new(m.len(), |i: int| ascii_upper(m[i]))
}

/// The HTTP route handler names are exactly the upper-case forms of the
/// route-registration methods that name an HTTP method (every one but `all`
/// and `use`): an exported `GET` handles what `app.get` registers.
pub proof fn lemma_route_handlers_are_http_methods(n: Seq<char>)
    ensures
        http_route_handler_name(n) <==> exists|m: Seq<char>|
            #![trigger route_registration_method(m)]
            route_registration_method(m) && m != "all"@ && m != "use"@ && n == ascii_upper_seq(m),
{
    reveal_strlit("GET");
    reveal_strlit("POST");
    reveal_strlit("PUT");
    reveal_strlit("PATCH");
    reveal_strlit("DELETE");
    reveal_strlit("OPTIONS");
    reveal_strlit("HEAD");
    reveal_strlit("get");
    reveal_strlit("post");
    reveal_strlit("put");
    reveal_strlit("patch");
    reveal_strlit("delete");
    reveal_strlit("options");
    reveal_strlit("head");
    reveal_strlit("all");
    reveal_strlit("use");
    if http_route_handler_name(n) {
        let m = if n == "GET"@ {
            "get"@
        } else if n == "POST"@ {
            "post"@
        } else if n == "PUT"@ {
            "put"@
        } else if n == "PATCH"@ {
            "patch"@
        } else if n == "DELETE"@ {
            "delete"@
        } else if n == "OPTIONS"@ {
            "options"@
        } else {
            "head"@
        };
        assert(n =~= ascii_upper_seq(m));
        assert(route_registration_method(m));
        assert(m.len() > 0 && m[0] != 'a' && m[0] != 'u');
        assert(("all"@)[0] == 'a' && ("use"@)[0] == 'u');
        assert(m != "all"@ && m != "use"@);
        assert(exists|m: Seq<char>|
            #![trigger route_registration_method(m)]
            route_registration_method(m) && m != "all"@ && m != "use"@ && n == ascii_upper_seq(m));
    }
    if exists|m: Seq<char>|
        #![trigger route_registration_method(m)]
        route_registration_method(m) && m != "all"@ && m != "use"@ && n == ascii_upper_seq(m) {
        let m = choose|m: Seq<char>|
            #![trigger route_registration_method(m)]
            route_registration_method(m) && m != "all"@ && m != "use"@ && n == ascii_upper_seq(m);
        if m == "get"@ {
            assert(n =~= "GET"@);
        } else if m == "post"@ {
            assert(n =~= "POST"@);
        } else if m == "put"@ {
            assert(n =~= "PUT"@);
        } else if m == "patch"@ {
            assert(n =~= "PATCH"@);
        } else if m == "delete"@ {
            assert(n =~= "DELETE"@);
        } else if m == "options"@ {
            assert(n =~= "OPTIONS"@);
        } else {
            assert(n =~= "HEAD"@);
        }
        assert(http_route_handler_name(n));
    }
}

/// A tRPC procedure kind.
pub open spec fn trpc_procedure_method(m: Seq<char>) -> bool {
    m == "query"@ || m == "mutation"@ || m == "subscription"@
}

/// Whether the method declares a tRPC procedure.
pub fn is_trpc_procedure_method(method: &str) -> (r: bool)
    ensures
        r == trpc_procedure_method(method@),
{
    str_eq(method, "query") || str_eq(method, "mutation") || str_eq(method, "subscription")
}

/// A receiver name that looks like an application or router (lowercase
/// bytes): one of `app`, `router`, `route`, `routes`, `server`, `fastify`,
/// or a name ending in `app`, `router`, `routes` or `server`.
pub open spec fn router_like(low: Seq<u8>) -> bool {
    ||| low == "app".spec_bytes()
    ||| low == "router".spec_bytes()
    ||| low == "route".spec_bytes()
    ||| low == "routes".spec_bytes()
    ||| low == "server".spec_bytes()
    ||| low == "fastify".spec_bytes()
    ||| ends_with(low, "app".spec_bytes())
    ||| ends_with(low, "router".spec_bytes())
    ||| ends_with(low, "routes".spec_bytes())
    ||| ends_with(low, "server".spec_bytes())
}

/// A callee path `<receiver path>.<method>` whose last receiver segment,
/// lowercased, looks like an application or router.
pub open spec fn framework_route_receiver_path(p: Seq<char>, method: Seq<char>) -> bool {
    let b = encode(p);
    let suffix = seq![0x2eu8] + encode(method);
    ends_with(b, suffix) && router_like(lower_seq(last_segment(b.subrange(0, b.len() - suffix.len()))))
}

/// Whether the callee path is `<router-like receiver>.<method>`.
pub fn is_framework_route_receiver_path(callee_path: &str, method: &str) -> (r: bool)
    ensures
        r == framework_route_receiver_path(callee_path@, method@),
{
    let b = callee_path.as_bytes();
    let m = method.as_bytes();
    if m.len() >= b.len() {
        return false;
    }
    let cut = b.len() - m.len() - 1;
    if b[cut] != 0x2e || !range_eq(b, cut + 1, b.len(), m) {
        proof {
            let suffix = seq![0x2eu8] + m@;
            if ends_with(b@, suffix) {
                assert(b@.subrange(cut as int, b@.len() as int)[0] == suffix[0]);
                assert(b@.subrange(cut + 1, b@.len() as int) =~= b@.subrange(cut as int, b@.len() as int).subrange(
                    1,
                    suffix.len() as int,
                ));
                assert(suffix.subrange(1, suffix.len() as int) =~= m@);
            }
        }
        return false;
    }
    let start = find_segment_start(b, cut);
    let mut low: Vec<u8> = Vec::new();
    let mut i = start;
    while i < cut
        invariant
            start <= i <= cut,
            cut < b@.len(),
            low@ == lower_seq(b@.subrange(start as int, i as int)),
        decreases cut - i,
    {
        low.push(crate::text::ascii_lower(b[i]));
        proof {
            assert(lower_seq(b@.subrange(start as int, i + 1)) =~= lower_seq(b@.subrange(start as int, i as int)).push(
                crate::text::lower_byte(b@[i as int]),
            ));
        }
        i = i + 1;
    }
    let l = low.as_slice();
    let n = l.len();
    let r = range_eq(l, 0, n, "app".as_bytes()) || range_eq(l, 0, n, "router".as_bytes()) || range_eq(
        l,
        0,
        n,
        "route".as_bytes(),
    ) || range_eq(l, 0, n, "routes".as_bytes()) || range_eq(l, 0, n, "server".as_bytes()) || range_eq(
        l,
        0,
        n,
        "fastify".as_bytes(),
    ) || bytes_end_with(l, "app".as_bytes()) || bytes_end_with(l, "router".as_bytes()) || bytes_end_with(
        l,
        "routes".as_bytes(),
    ) || bytes_end_with(l, "server".as_bytes());
    proof {
        let suffix = seq![0x2eu8] + m@;
        assert(b@.subrange(cut as int, b@.len() as int) =~= suffix);
        assert(b@.subrange(0, b@.len() - suffix.len()) =~= b@.subrange(0, cut as int));
        assert(l@.subrange(0, n as int) =~= l@);
        let rp = b@.subrange(0, cut as int);
        assert(segment_start(rp, cut as int) == segment_start(b@, cut as int)) by {
            lemma_segment_start_prefix(b@, cut as int, cut as int);
        }
        assert(last_segment(rp) =~= b@.subrange(start as int, cut as int));
    }
    r
}

/// The segment start of `s[..i)` only reads `s[..hi)`.
proof fn lemma_segment_start_prefix(s: Seq<u8>, i: int, hi: int)
    requires
        0 <= i <= hi <= s.len(),
    ensures
        segment_start(s.subrange(0, hi), i) == segment_start(s, i),
    decreases i,
{
    if i > 0 {
        assert(s.subrange(0, hi)[i - 1] == s[i - 1]);
        lemma_segment_start_prefix(s, i - 1, hi);
    }
}

} // verus!
