//! Bearer-token protection for the control API.
//!
//! The *media* routes that hand bytes to a player are open, because players
//! fetch plain URLs and cannot attach headers; every other route is control
//! API and must carry `Authorization: Bearer <token>`, generated per launch.
//! The token is only ever accepted from that header.
use crate::encoding;
use crate::encoding::hex_encode;
use crate::text;
use crate::text::{
    cat2, chars_of, position, same_ignoring_case, slice_subrange_from, string_of, substring, trimmed,
};
use subtle::ConstantTimeEq;
use vstd::prelude::*;

verus! {

/// How the control routes authenticate. Media routes are always open.
#[derive(Clone, Copy, Debug, PartialEq, Eq, Structural)]
pub enum ServerAuth {
    /// A fresh random token for this launch (32 random bytes, hex).
    Generated,
}

impl Default for ServerAuth {
    fn default() -> (a: Self)
        ensures
            a == ServerAuth::Generated,
    {
        ServerAuth::Generated
    }
}

/// Fixed 401 body; the response never says *why* the credentials failed.
pub const UNAUTHORIZED_BODY: &'static str = "unauthorized";

/// Why the system's random number source gave nothing.
#[verifier::external_type_specification]
#[verifier::external_body]
pub struct ExRandomError(getrandom::Error);

/// `getrandom::fill`: 32 bytes of the system's random number source. Nothing
/// is promised of the bytes, nor that there are any.
#[verifier::external_body]
fn random_bytes() -> (r: Result<[u8; 32], getrandom::Error>) {
    let mut bytes = [0u8; 32];
    getrandom::fill(&mut bytes).map(|()| bytes)
}

/// The text `getrandom::Error` displays as. Nothing is promised of it.
#[verifier::external_body]
fn random_error_text(e: &getrandom::Error) -> (s: String) {
    e.to_string()
}

/// `subtle::ConstantTimeEq::ct_eq` on byte slices: whether they are equal,
/// in a time that depends on their lengths only.
#[verifier::external_body]
fn constant_time_eq(a: &[u8], b: &[u8]) -> (r: bool)
    ensures
        r == (a@ == b@),
{
    a.ct_eq(b).into()
}

/// Whether a text is a token: 64 digits of hexadecimal.
pub open spec fn is_token(s: Seq<char>) -> bool {
    exists|bytes: Seq<u8>| bytes.len() == 32 && s == #[trigger] encoding::hex_text(bytes)
}

/// The token that 32 random bytes are.
pub fn token_of(bytes: &[u8; 32]) -> (token: String)
    ensures
        token@ == encoding::hex_text(bytes@),
        token@.len() == 64,
        is_token(token@),
{
    proof {
        encoding::hex_is_two_digits_per_byte(bytes@);
    }
    hex_encode(bytes.as_slice())
}

/// What is said when no random bytes could be drawn.
pub open spec fn no_token_prefix() -> Seq<char> {
    "failed to draw random bytes for the auth token: "@
}

fn generate_token() -> (r: Result<String, String>)
    ensures
        match r {
            Ok(token) => is_token(token@) && token@.len() == 64,
            Err(e) => text::has_prefix(e@, no_token_prefix()),
        },
{
    match random_bytes() {
        Ok(bytes) => Ok(token_of(&bytes)),
        Err(e) => {
            let why = random_error_text(&e);
            let message = cat2("failed to draw random bytes for the auth token: ", why.as_str());
            proof {
                let n = no_token_prefix().len();
                assert(message@.take(n as int) =~= no_token_prefix());
            }
            Err(message)
        },
    }
}

impl ServerAuth {
    /// The token this launch requires: 32 random bytes as hexadecimal. It
    /// rests on chance, so nothing more is said of it, nor when there is
    /// one.
    pub fn resolve(&self) -> (r: Result<String, String>)
        ensures
            match r {
                Ok(token) => is_token(token@) && token@.len() == 64,
                Err(e) => text::has_prefix(e@, no_token_prefix()),
            },
    {
        match self {
            ServerAuth::Generated => generate_token(),
        }
    }
}

/// The credentials of the value of an `Authorization` header: what follows
/// the scheme `Bearer`, in any case, without the white space around it.
pub open spec fn credentials(value: Seq<char>) -> Option<Seq<char>> {
    let v = text::trim(value);
    match text::find_char(v, ' ') {
        Some(i) => {
            let token = text::trim(v.skip(i + 1));
            if text::ascii_lowered(v.take(i)) == text::ascii_lowered("bearer"@) && token.len() > 0 {
                Some(token)
            } else {
                None
            }
        },
        None => None,
    }
}

/// The credentials of an `Authorization: Bearer <token>` header, if present.
/// `value` is the header's value, where the request has one that is text.
pub fn bearer_token(value: Option<&str>) -> (r: Option<String>)
    ensures
        match r {
            Some(token) => value is Some && credentials(value->0@) == Some(token@),
            None => value is None || credentials(value->0@) is None,
        },
{
    let header = match value {
        Some(v) => trimmed(v),
        None => {
            return None;
        },
    };
    let v = chars_of(header.as_str());
    let len: usize = v.len();
    match position(v.as_slice(), ' ') {
        Some(i) => {
            proof {
                assert(i < len);
                assert(v@.subrange(0, i as int) =~= v@.take(i as int));
            }
            let scheme = substring(v.as_slice(), 0, i);
            let rest = string_of(slice_subrange_from(v.as_slice(), i + 1));
            let token = trimmed(rest.as_str());
            if same_ignoring_case(scheme.as_str(), "bearer") && !token.as_str().is_empty() {
                Some(token)
            } else {
                None
            }
        },
        None => None,
    }
}

/// Whether a presented token is the expected one, in a time that says
/// nothing of how they differ.
pub fn token_matches(expected: &str, presented: &str) -> (r: bool)
    ensures
        r == (expected@ == presented@),
{
    proof {
        vstd::utf8::encode_utf8_decode_utf8(expected@);
        vstd::utf8::encode_utf8_decode_utf8(presented@);
    }
    constant_time_eq(expected.as_bytes(), presented.as_bytes())
}

/// Whether a request to the control API is let through: it carries the token
/// the server expects. A server with no token lets nobody through.
pub open spec fn is_authorized(
    expected: Option<Seq<char>>,
    authorization: Option<Seq<char>>,
) -> bool {
    match (expected, authorization) {
        (Some(token), Some(value)) => credentials(value) == Some(token),
        _ => false,
    }
}

/// The text of an optional string.
pub open spec fn optional_text(s: Option<&str>) -> Option<Seq<char>> {
    match s {
        Some(s) => Some(s@),
        None => None,
    }
}

/// Whether a request to the control API is let through; anything else is
/// answered [`UNAUTHORIZED_BODY`].
pub fn authorized(expected: Option<&str>, authorization: Option<&str>) -> (r: bool)
    ensures
        r == is_authorized(optional_text(expected), optional_text(authorization)),
{
    let token = match expected {
        Some(t) => t,
        None => {
            return false;
        },
    };
    match bearer_token(authorization) {
        Some(presented) => token_matches(token, presented.as_str()),
        None => false,
    }
}

/// A request without credentials, and a server without a token, are both
/// refused.
pub proof fn nothing_is_authorized_without_a_token(
    expected: Option<Seq<char>>,
    authorization: Option<Seq<char>>,
)
    requires
        expected is None || authorization is None,
    ensures
        !is_authorized(expected, authorization),
{
}

/// The same header opens the server for one token only.
pub proof fn a_header_carries_one_token(a: Seq<char>, b: Seq<char>, value: Seq<char>)
    requires
        is_authorized(Some(a), Some(value)),
        is_authorized(Some(b), Some(value)),
    ensures
        a == b,
{
}

/// A header of the scheme, in upper or lower case, white space and a token
/// carries the token, white space around either aside.
pub proof fn a_bearer_header_carries_its_token(
    scheme: Seq<char>,
    token: Seq<char>,
    a: Seq<char>,
    b: Seq<char>,
    c: Seq<char>,
)
    requires
        text::ascii_lowered(scheme) == "bearer"@,
        token.len() > 0,
        !text::is_white_space(token[0]),
        !text::is_white_space(token.last()),
        forall|i: int| 0 <= i < a.len() ==> text::is_white_space(#[trigger] a[i]),
        forall|i: int| 0 <= i < b.len() ==> text::is_white_space(#[trigger] b[i]),
        forall|i: int| 0 <= i < c.len() ==> text::is_white_space(#[trigger] c[i]),
    ensures
        credentials(a + (scheme + seq![' '] + b + token) + c) == Some(token),
        is_authorized(Some(token), Some(a + (scheme + seq![' '] + b + token) + c)),
{
    reveal_strlit("bearer");
    let v = scheme + seq![' '] + b + token;
    assert(text::ascii_lowered(scheme).len() == scheme.len());
    assert(scheme.len() == 6);
    assert forall|i: int| 0 <= i < 6 implies scheme[i] != ' ' && !text::is_white_space(
        #[trigger] scheme[i],
    ) by {
        assert(text::ascii_lowered(scheme)[i] == text::ascii_lower(scheme[i]));
    }
    assert(v[0] == scheme[0]);
    assert(v.last() == token.last());
    text::white_space_around_is_trimmed(a, v, c);
    text::lemma_find_char(v, ' ');
    assert(v[6] == ' ');
    let at = text::find_char(v, ' ')->0;
    if at < 6 {
        assert(v[at] == scheme[at]);
    }
    assert(at == 6);
    assert(v.take(6) =~= scheme);
    assert(v.skip(7) =~= b + token);
    text::white_space_around_is_trimmed(b, token, Seq::empty());
    assert(b + token + Seq::<char>::empty() =~= b + token);
    let word = "bearer"@;
    assert(text::ascii_lowered(word) =~= word) by {
        assert forall|i: int| 0 <= i < 6 implies text::ascii_lowered(word)[i] == word[i] by {
        }
    }
}

/// A header of another scheme, or of no token, carries none.
pub proof fn another_scheme_carries_no_token(scheme: Seq<char>, token: Seq<char>)
    requires
        text::ascii_lowered(scheme) != "bearer"@,
        scheme.len() > 0,
        forall|i: int| 0 <= i < scheme.len() ==> !text::is_white_space(#[trigger] scheme[i]),
        token.len() > 0,
        !text::is_white_space(token.last()),
    ensures
        credentials(scheme + seq![' '] + token) is None,
        credentials(scheme) is None,
{
    reveal_strlit("bearer");
    let none = Seq::<char>::empty();
    let v = scheme + seq![' '] + token;
    assert(v[0] == scheme[0] && v.last() == token.last());
    text::white_space_around_is_trimmed(none, v, none);
    text::white_space_around_is_trimmed(none, scheme, none);
    assert(none + v + none =~= v);
    assert(none + scheme + none =~= scheme);
    assert(!text::is_white_space(scheme[scheme.len() - 1]));
    text::lemma_find_char(v, ' ');
    text::lemma_find_char(scheme, ' ');
    assert(v[scheme.len() as int] == ' ');
    let at = text::find_char(v, ' ')->0;
    if at < scheme.len() {
        assert(!text::is_white_space(scheme[at]));
        assert(v[at] == scheme[at]);
    }
    assert(v.take(at) =~= scheme);
    let word = "bearer"@;
    assert(text::ascii_lowered(word) =~= word) by {
        assert forall|i: int| 0 <= i < 6 implies text::ascii_lowered(word)[i] == word[i] by {
        }
    }
    if let Some(i) = text::find_char(scheme, ' ') {
        assert(!text::is_white_space(scheme[i]));
    }
}

} // verus!
