//! Who may use the MCP endpoints: bearer-token authentication and Origin
//! validation, and the transport label of a request.

use vstd::prelude::*;
use vstd::string::*;
use vstd::utf8::*;

use crate::chars;
use crate::config;
use crate::config::Config;

verus! {

/// How a request is turned away.
#[derive(Debug)]
pub struct Rejection {
    pub status: u16,
    /// The `WWW-Authenticate` header, where there is one.
    pub www_authenticate: Option<&'static str>,
    pub body: &'static str,
}

/// A rejection with this status, `WWW-Authenticate` header and body.
pub open spec fn turns_away(
    rejection: Rejection,
    status: u16,
    www_authenticate: Option<Seq<char>>,
    body: Seq<char>,
) -> bool {
    &&& rejection.status == status
    &&& (match rejection.www_authenticate {
        Some(scheme) => Some(scheme@),
        None => None,
    }) == www_authenticate
    &&& rejection.body@ == body
}

/// A header value that reads as text: visible ASCII characters, spaces and
/// tabs.
pub open spec fn is_header_text(value: Seq<u8>) -> bool {
    forall|i: int| 0 <= i < value.len() ==> 0x20 <= #[trigger] value[i] <= 0x7E || value[i] == 0x09
}

pub(crate) fn header_is_text(value: &[u8]) -> (r: bool)
    ensures
        r == is_header_text(value@),
{
    let n: usize = value.len();
    let mut i: usize = 0;
    while i < n
        invariant
            n == value@.len(),
            i <= n,
            forall|k: int|
                0 <= k < i ==> 0x20 <= #[trigger] value@[k] <= 0x7E || value@[k] == 0x09,
        decreases n - i,
    {
        let b: u8 = value[i];
        if !((0x20 <= b && b <= 0x7E) || b == 0x09) {
            return false;
        }
        i = i + 1;
    }
    true
}

/// The bytes that come before a token in the `Authorization` header.
pub open spec fn bearer_prefix() -> Seq<u8> {
    seq![0x42u8, 0x65, 0x61, 0x72, 0x65, 0x72, 0x20]
}

/// Whether the `Authorization` header carries the token.
pub open spec fn carries_token(authorization: Option<Seq<u8>>, token: Seq<char>) -> bool {
    match authorization {
        Some(value) => is_header_text(value) && value == bearer_prefix() + encode_utf8(token),
        None => false,
    }
}

/// Comparison whose runtime does not depend on where the first difference
/// sits, so timing cannot leak token content.
pub fn constant_time_eq(a: &[u8], b: &[u8]) -> (r: bool)
    ensures
        r == (a@ == b@),
{
    let n: usize = a.len();
    if n != b.len() {
        return false;
    }
    let mut diff: u8 = 0;
    let mut i: usize = 0;
    while i < n
        invariant
            n == a@.len(),
            n == b@.len(),
            i <= n,
            diff == 0 <==> (forall|k: int| 0 <= k < i ==> #[trigger] a@[k] == b@[k]),
        decreases n - i,
    {
        let x: u8 = a[i];
        let y: u8 = b[i];
        let next: u8 = diff | (x ^ y);
        assert(next == 0 <==> diff == 0 && x == y) by (bit_vector)
            requires
                next == diff | (x ^ y),
        ;
        proof {
            if next == 0 {
                assert forall|k: int| 0 <= k < i + 1 implies #[trigger] a@[k] == b@[k] by {}
            } else if diff == 0 {
                assert(a@[i as int] != b@[i as int]);
            }
        }
        diff = next;
        i = i + 1;
    }
    assert(diff == 0 ==> a@ == b@);
    diff == 0
}

/// An optional header value.
pub open spec fn value_of(header: Option<&[u8]>) -> Option<Seq<u8>> {
    match header {
        Some(value) => Some(value@),
        None => None,
    }
}

/// Reject requests to MCP endpoints without a valid
/// `Authorization: Bearer <token>` header. When no token is configured,
/// authentication is disabled and every request passes.
pub fn require_bearer(config: &Config, authorization: Option<&[u8]>) -> (r: Result<(), Rejection>)
    ensures
        r is Ok <==> (chars::text_of(config.token) matches Some(token) ==> carries_token(
            value_of(authorization),
            token,
        )),
        r matches Err(rejection) ==> turns_away(
            rejection,
            401,
            Some("Bearer"@),
            "Unauthorized"@,
        ),
{
    let expected: &String = match &config.token {
        Some(token) => token,
        None => {
            return Ok(());
        },
    };
    if bearer_matches(expected.as_str(), authorization) {
        Ok(())
    } else {
        Err(Rejection { status: 401, www_authenticate: Some("Bearer"), body: "Unauthorized" })
    }
}

fn bearer_matches(token: &str, authorization: Option<&[u8]>) -> (r: bool)
    ensures
        r == carries_token(value_of(authorization), token@),
{
    let value: &[u8] = match authorization {
        Some(value) => value,
        None => {
            return false;
        },
    };
    if !header_is_text(value) {
        return false;
    }
    let n: usize = value.len();
    let ghost prefix = bearer_prefix();
    let ghost secret = encode_utf8(token@);
    if n < 7 || value[0] != 0x42 || value[1] != 0x65 || value[2] != 0x61 || value[3] != 0x72
        || value[4] != 0x65 || value[5] != 0x72 || value[6] != 0x20 {
        assert((prefix + secret).take(7) == prefix);
        return false;
    }
    let provided: &[u8] = vstd::slice::slice_subrange(value, 7, n);
    let r: bool = constant_time_eq(provided, token.as_bytes());
    proof {
        assert(value@.take(7) == prefix);
        assert(value@ == prefix + provided@);
        assert((prefix + secret).skip(7) == secret);
        assert((prefix + provided@).skip(7) == provided@);
    }
    r
}

/// Whether the `Origin` header lets a request pass: there is none, or it reads
/// as text and is allowed.
pub open spec fn origin_passes(list: Seq<Seq<char>>, origin: Option<Seq<u8>>) -> bool {
    match origin {
        Some(value) => is_header_text(value) && config::allows_origin(list, decode_utf8(value)),
        None => true,
    }
}

/// Reject requests whose `Origin` header is not on the allowlist. Missing
/// `Origin` (non-browser clients) always passes.
pub fn require_allowed_origin(config: &Config, origin: Option<&[u8]>) -> (r: Result<
    (),
    Rejection,
>)
    ensures
        r is Ok <==> origin_passes(chars::texts(config.allowed_origins@), value_of(origin)),
        r matches Err(rejection) ==> turns_away(
            rejection,
            403,
            None,
            "Forbidden: origin not allowed"@,
        ),
{
    let value: &[u8] = match origin {
        Some(value) => value,
        None => {
            return Ok(());
        },
    };
    if header_is_text(value) {
        let text: String = ascii_text(value);
        if config.origin_allowed(text.as_str()) {
            return Ok(());
        }
    }
    Err(
        Rejection { status: 403, www_authenticate: None, body: "Forbidden: origin not allowed" },
    )
}

/// The text of a header value.
fn ascii_text(value: &[u8]) -> (r: String)
    requires
        is_header_text(value@),
    ensures
        r@ == decode_utf8(value@),
{
    let n: usize = value.len();
    let mut r: String = String::new();
    let mut i: usize = 0;
    while i < n
        invariant
            n == value@.len(),
            is_header_text(value@),
            i <= n,
            r@ == Seq::new(i as nat, |k: int| value@[k] as char),
        decreases n - i,
    {
        let ghost before = r@;
        r.push(value[i] as char);
        assert(r@ == Seq::new((i + 1) as nat, |k: int| value@[k] as char));
        i = i + 1;
    }
    proof {
        let s = Seq::new(n as nat, |k: int| value@[k] as char);
        assert(is_ascii_chars(s));
        is_ascii_chars_encode_utf8(s);
        assert(encode_utf8(s) == value@);
        encode_utf8_decode_utf8(s);
    }
    r
}

/// Transport label derived from the endpoint: the URL path alone decides which
/// transport a request belongs to.
pub open spec fn transport_label(path: Seq<char>) -> Seq<char> {
    if path == "/mcp"@ {
        "streamable_http"@
    } else if path == "/sse"@ || path == "/messages"@ {
        "legacy_sse"@
    } else {
        "http"@
    }
}

/// Transport label derived from the endpoint: the URL path alone decides which
/// transport a request belongs to.
pub fn transport_of(path: &str) -> (r: &'static str)
    ensures
        r@ == transport_label(path@),
{
    if chars::same_text(path, "/mcp") {
        "streamable_http"
    } else if chars::same_text(path, "/sse") || chars::same_text(path, "/messages") {
        "legacy_sse"
    } else {
        "http"
    }
}

/// Only one `Authorization` header is accepted for a token.
pub proof fn one_header_is_accepted(a: Seq<u8>, b: Seq<u8>, token: Seq<char>)
    requires
        carries_token(Some(a), token),
        carries_token(Some(b), token),
    ensures
        a == b,
{
}

proof fn lemma_ascii_header(text: Seq<char>)
    requires
        forall|i: int| 0 <= i < text.len() ==> ' ' <= #[trigger] text[i] <= '~',
    ensures
        encode_utf8(text).len() == text.len(),
        forall|i: int| 0 <= i < text.len() ==> #[trigger] encode_utf8(text)[i] == text[i] as u8,
        is_header_text(encode_utf8(text)),
{
    assert(is_ascii_chars(text));
    is_ascii_chars_encode_utf8(text);
}

/// The header `Bearer`, a space and the token is accepted for the token, and no
/// other header is.
pub proof fn token_is_accepted_behind_bearer(token: Seq<char>, value: Seq<u8>)
    requires
        forall|i: int| 0 <= i < token.len() ==> ' ' <= #[trigger] token[i] <= '~',
    ensures
        carries_token(Some(value), token) <==> value == encode_utf8("Bearer "@ + token),
        !carries_token(None, token),
{
    reveal_strlit("Bearer ");
    let word = "Bearer "@;
    let text = word + token;
    assert forall|i: int| 0 <= i < text.len() implies ' ' <= #[trigger] text[i] <= '~' by {
        if i >= 7 {
            assert(text[i] == token[i - 7]);
        }
    }
    lemma_ascii_header(text);
    lemma_ascii_header(token);
    let whole = encode_utf8(text);
    assert(whole == bearer_prefix() + encode_utf8(token)) by {
        let other = bearer_prefix() + encode_utf8(token);
        assert(other.len() == whole.len());
        assert forall|i: int| 0 <= i < whole.len() implies whole[i] == other[i] by {
            assert(whole[i] == text[i] as u8);
            if i >= 7 {
                assert(text[i] == token[i - 7]);
                assert(other[i] == encode_utf8(token)[i - 7]);
            } else {
                assert(text[i] == word[i]);
                assert(other[i] == bearer_prefix()[i]);
            }
        }
    }
}

/// An origin in visible ASCII passes exactly where it is allowed, and a request
/// without an origin always passes.
pub proof fn origin_is_judged_by_its_text(list: Seq<Seq<char>>, origin: Seq<char>)
    requires
        forall|i: int| 0 <= i < origin.len() ==> ' ' <= #[trigger] origin[i] <= '~',
    ensures
        origin_passes(list, Some(encode_utf8(origin))) <==> config::allows_origin(list, origin),
        origin_passes(list, None),
{
    lemma_ascii_header(origin);
    encode_utf8_decode_utf8(origin);
}

/// The transport of a request is told from its path alone: the two endpoints of
/// the legacy transport share a label, the streamable one has its own, and
/// everything else is plain HTTP.
pub proof fn endpoints_have_their_labels(path: Seq<char>)
    ensures
        transport_label("/mcp"@) == "streamable_http"@,
        transport_label("/sse"@) == "legacy_sse"@,
        transport_label("/messages"@) == transport_label("/sse"@),
        path != "/mcp"@ && path != "/sse"@ && path != "/messages"@ ==> transport_label(path)
            == "http"@,
{
    reveal_strlit("/mcp");
    reveal_strlit("/sse");
    reveal_strlit("/messages");
    assert("/mcp"@[1] == 'm' && "/sse"@[1] == 's');
    assert("/messages"@.len() != "/mcp"@.len());
}

/// A rejection carries its status, its header and its body.
pub proof fn rejection_is_what_is_sent(
    rejection: Rejection,
    status: u16,
    scheme: Option<Seq<char>>,
    body: Seq<char>,
)
    requires
        turns_away(rejection, status, scheme, body),
    ensures
        rejection.status == status,
        rejection.body@ == body,
        rejection.www_authenticate is Some <==> scheme is Some,
        scheme is Some ==> rejection.www_authenticate->Some_0@ == scheme->Some_0,
{
}

} // verus!
