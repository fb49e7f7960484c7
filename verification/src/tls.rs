//! TLS support: certificate pinning.
//!
//! The client pins the server's certificate, stored as base64 text of its
//! DER bytes. A stored pin admits exactly that certificate; with none, the
//! first certificate is trusted and then stored.
use crate::protocol::{MineChatError, MineChatErrorView};
use crate::stream::bytes_result;
use base64::prelude::{Engine, BASE64_STANDARD};
use vstd::prelude::*;

pub mod rustls;

verus! {

/// What `BASE64_STANDARD.decode` gives for `text`: the decoded bytes, or the
/// text of its error.
pub uninterp spec fn base64_decoded(text: Seq<char>) -> Result<Seq<u8>, Seq<char>>;

/// The character of the standard base64 alphabet (RFC 4648) for `v < 64`:
/// `A`-`Z`, `a`-`z`, `0`-`9`, `+`, `/`.
pub open spec fn base64_char(v: nat) -> char {
    if v < 26 {
        (65 + v) as char
    } else if v < 52 {
        (97 + v - 26) as char
    } else if v < 62 {
        (48 + v - 52) as char
    } else if v == 62 {
        '+'
    } else {
        '/'
    }
}

/// The standard padded base64 text of `data` (RFC 4648), which
/// `BASE64_STANDARD.encode` writes: each three bytes become four characters
/// of six bits each; a last one or two bytes become two or three characters
/// followed by `=` up to four.
pub open spec fn base64_encoded(data: Seq<u8>) -> Seq<char>
    decreases data.len(),
{
    if data.len() == 0 {
        Seq::empty()
    } else if data.len() == 1 {
        let a = data[0] as nat;
        seq![base64_char(a / 4), base64_char((a % 4) * 16), '=', '=']
    } else if data.len() == 2 {
        let a = data[0] as nat;
        let b = data[1] as nat;
        seq![base64_char(a / 4), base64_char((a % 4) * 16 + b / 16), base64_char((b % 16) * 4), '=']
    } else {
        let a = data[0] as nat;
        let b = data[1] as nat;
        let c = data[2] as nat;
        seq![
            base64_char(a / 4),
            base64_char((a % 4) * 16 + b / 16),
            base64_char((b % 16) * 4 + c / 64),
            base64_char(c % 64),
        ] + base64_encoded(data.subrange(3, data.len() as int))
    }
}

/// Whether `BASE64_STANDARD.decode` gives `data` back from `text`.
pub open spec fn base64_decodes_to(text: Seq<char>, data: Seq<u8>) -> bool {
    base64_decoded(text) == Ok::<Seq<u8>, Seq<char>>(data)
}

/// Whether `data` is short enough for its base64 length to fit in a `usize`.
pub open spec fn base64_fits(data: Seq<u8>) -> bool {
    data.len() / 3 * 4 + 4 <= usize::MAX
}

/// Decodes `text` with the standard base64 engine (`base64::Engine::decode`
/// on `BASE64_STANDARD`).
///
/// Trusted: the result is what `base64_decoded` names.
#[verifier::external_body]
fn base64_decode(text: &str) -> (r: Result<Vec<u8>, String>)
    ensures
        bytes_result(r) == base64_decoded(text@),
{
    match BASE64_STANDARD.decode(text) {
        Ok(v) => Ok(v),
        Err(e) => Err(e.to_string()),
    }
}

/// Encodes `data` with the standard base64 engine (`base64::Engine::encode`
/// on `BASE64_STANDARD`), which panics when the encoded length overflows a
/// `usize`.
///
/// Trusted: the result is the standard padded base64 text of `data`
/// (`base64_encoded`), and decoding it gives `data` back.
#[verifier::external_body]
fn base64_encode(data: &[u8]) -> (r: String)
    requires
        base64_fits(data@),
    ensures
        r@ == base64_encoded(data@),
        base64_decodes_to(r@, data@),
{
    BASE64_STANDARD.encode(data)
}

/// The DER bytes of a pinned certificate, from its stored base64 text.
pub fn decode_pinned_certificate(pinned: &str) -> (r: Result<Vec<u8>, MineChatError>)
    ensures
        base64_decoded(pinned@) matches Ok(d) ==> (r matches Ok(v) && v@ == d),
        base64_decoded(pinned@) matches Err(m) ==> (r matches Err(e) && e@
            == MineChatErrorView::ConfigError("Invalid base64 certificate: "@ + m)),
{
    match base64_decode(pinned) {
        Ok(v) => Ok(v),
        Err(m) => {
            let mut t = String::from_str("Invalid base64 certificate: ");
            t.append(m.as_str());
            Err(MineChatError::ConfigError(t))
        },
    }
}

/// The base64 text under which a certificate is stored as a pin: what
/// `decode_pinned_certificate` reads back as the same bytes.
pub fn certificate_base64(der: &[u8]) -> (r: String)
    requires
        base64_fits(der@),
    ensures
        r@ == base64_encoded(der@),
        base64_decodes_to(r@, der@),
{
    base64_encode(der)
}

/// How the server's certificate is checked on connecting: against a pinned
/// certificate, or trusted on first use when none is pinned.
pub fn pinning_policy(pinned_cert: Option<&str>) -> (r: Result<Option<Vec<u8>>, MineChatError>)
    ensures
        pinned_cert is None ==> r matches Ok(None),
        pinned_cert matches Some(p) ==> (base64_decoded(p@) matches Ok(d) ==> (r matches Ok(
            Some(v),
        ) && v@ == d)),
        pinned_cert matches Some(p) ==> (base64_decoded(p@) matches Err(m) ==> (r matches Err(e)
            && e@ == MineChatErrorView::ConfigError("Invalid base64 certificate: "@ + m))),
{
    match pinned_cert {
        None => Ok(None),
        Some(p) => match decode_pinned_certificate(p) {
            Ok(v) => Ok(Some(v)),
            Err(e) => Err(e),
        },
    }
}

/// Whether `ServerName::try_from` (of rustls' `pki_types`) takes `host` as
/// a server name: a DNS name or an IP address.
pub uninterp spec fn server_name_ok(host: Seq<char>) -> bool;

/// Checks `host` with `rustls::pki_types::ServerName::try_from`.
///
/// Trusted: it succeeds exactly when `server_name_ok(host)`; its error,
/// `InvalidDnsNameError`, displays as "invalid dns name".
#[verifier::external_body]
fn check_server_name(host: &str) -> (r: Result<(), String>)
    ensures
        r is Ok <==> server_name_ok(host@),
        r matches Err(m) ==> m@ == "invalid dns name"@,
{
    match ::rustls::pki_types::ServerName::try_from(host.to_string()) {
        Ok(_) => Ok(()),
        Err(e) => Err(e.to_string()),
    }
}

/// The error for a host name that is not a server name.
pub open spec fn bad_host_error() -> MineChatErrorView {
    MineChatErrorView::ConfigError("Invalid hostname: "@ + "invalid dns name"@)
}

/// What connecting needs settled before any connection is opened: how the
/// server's certificate is checked (`pinning_policy`, whose refusal comes
/// first), then that `host` is a server name.
pub fn connection_policy(host: &str, pinned_cert: Option<&str>) -> (r: Result<
    Option<Vec<u8>>,
    MineChatError,
>)
    ensures
        pinned_cert is None && server_name_ok(host@) ==> r matches Ok(None),
        pinned_cert is None && !server_name_ok(host@) ==> (r matches Err(e) && e@
            == bad_host_error()),
        pinned_cert matches Some(p) ==> (base64_decoded(p@) matches Err(m) ==> (r matches Err(e)
            && e@ == MineChatErrorView::ConfigError("Invalid base64 certificate: "@ + m))),
        pinned_cert matches Some(p) ==> (base64_decoded(p@) matches Ok(d) ==> (
        server_name_ok(host@) ==> (r matches Ok(Some(v)) && v@ == d))),
        pinned_cert matches Some(p) ==> (base64_decoded(p@) is Ok ==> (!server_name_ok(host@)
            ==> (r matches Err(e) && e@ == bad_host_error()))),
{
    let policy = match pinning_policy(pinned_cert) {
        Ok(p) => p,
        Err(e) => {
            return Err(e);
        },
    };
    match check_server_name(host) {
        Ok(()) => Ok(policy),
        Err(m) => {
            let mut t = String::from_str("Invalid hostname: ");
            t.append(m.as_str());
            Err(MineChatError::ConfigError(t))
        },
    }
}

/// Whether the certificate the server presents is the pinned one: the
/// connection goes on only if their bytes are equal.
pub fn pinned_certificate_matches(end_entity: &[u8], pinned: &[u8]) -> (r: bool)
    ensures
        r == (end_entity@ == pinned@),
{
    crate::cbor::bytes_eq(end_entity, pinned)
}

} // verus!
