//! What the service does with a request, short of the HTTP plumbing: the
//! shorten path decodes and checks the submitted URL before it reaches the
//! store; the redirect path takes the key from the request path.

use vstd::prelude::*;
use vstd::utf8::{
    decode_utf8, encode_utf8, encode_utf8_decode_utf8, encode_utf8_valid_utf8, valid_utf8,
};

use crate::store::{issued_key, stored_url, Mapping};

verus! {

/// The value of a hexadecimal digit byte, `0-9`, `A-F` or `a-f`.
pub open spec fn hex_value(c: u8) -> Option<nat> {
    if 48 <= c <= 57 {
        Some((c - 48) as nat)
    } else if 65 <= c <= 70 {
        Some((c - 55) as nat)
    } else if 97 <= c <= 102 {
        Some((c - 87) as nat)
    } else {
        None
    }
}

/// The bytes that percent-decoding gives: each `%` followed by two
/// hexadecimal digits stands for the byte they spell; every other byte,
/// a `%` without two such digits included, stands for itself.
pub open spec fn percent_decode_bytes(b: Seq<u8>) -> Seq<u8>
    decreases b.len(),
{
    if b.len() == 0 {
        seq![]
    } else if b[0] == 37u8 && b.len() >= 3 && hex_value(b[1]) is Some && hex_value(b[2]) is Some {
        let v = hex_value(b[1])->Some_0 * 16 + hex_value(b[2])->Some_0;
        seq![v as u8] + percent_decode_bytes(b.subrange(3, b.len() as int))
    } else {
        seq![b[0]] + percent_decode_bytes(b.subrange(1, b.len() as int))
    }
}

/// The percent-decoded bytes of the UTF-8 form of a text.
pub open spec fn decoded_bytes(s: Seq<char>) -> Seq<u8> {
    percent_decode_bytes(encode_utf8(s))
}

/// Relies on `urlencoding::decode`: it percent-decodes the text's bytes,
/// a `%` without two hexadecimal digits after it kept as it is, and fails
/// just where the result is not UTF-8.
#[verifier::external_body]
fn decode_percent(s: &str) -> (r: Option<String>)
    ensures
        r is None ==> !valid_utf8(decoded_bytes(s@)),
        r matches Some(d) ==> encode_utf8(d@) == decoded_bytes(s@),
{
    urlencoding::decode(s).ok().map(|d| d.into_owned())
}

/// Whether `s` parses as an absolute URL.
pub uninterp spec fn valid_url(s: Seq<char>) -> bool;

/// Relies on `validator::validate_url`: whether `url::Url::parse`
/// accepts the text.
#[verifier::external_body]
fn url_is_valid(s: &str) -> (r: bool)
    ensures
        r == valid_url(s@),
{
    validator::validate_url(s)
}

/// Why a shorten request stored nothing.
#[derive(Debug, Clone, Copy, PartialEq, Eq)]
pub enum ShortenError {
    /// The submitted text does not percent-decode to UTF-8, or what it
    /// decodes to is not a well-formed URL.
    InvalidUrl,
    /// The counter has reached its largest value.
    StoreFull,
}

/// Puts a decoded URL in the store where `valid` says that it is a
/// well-formed URL and the counter can still advance. Returns the URL and
/// its new key; on an error the store is left as it was.
pub fn store_checked(m: &mut Mapping, url: String, valid: bool) -> (r: Result<
    (String, String),
    ShortenError,
>)
    requires
        old(m).wf(),
    ensures
        final(m).wf(),
        !valid ==> r == Err::<(String, String), ShortenError>(ShortenError::InvalidUrl)
            && final(m)@ == old(m)@,
        valid && old(m)@.len() >= u32::MAX ==> r == Err::<(String, String), ShortenError>(
            ShortenError::StoreFull,
        ) && final(m)@ == old(m)@,
        valid && old(m)@.len() < u32::MAX ==> {
            &&& final(m)@ == old(m)@.push(url@)
            &&& r matches Ok((u, k))
            &&& u == url
            &&& k@ == issued_key(final(m)@, old(m)@.len() as int)
        },
{
    if !valid {
        return Err(ShortenError::InvalidUrl);
    }
    if m.count() == u32::MAX {
        return Err(ShortenError::StoreFull);
    }
    let key = m.put(url.as_str());
    Ok((url, key))
}

/// Handles a shorten request whose URL arrives percent-encoded: decodes
/// it, checks that it is a well-formed URL, and puts it in the store.
/// Returns the decoded URL and its new key; on an error the store is left
/// as it was.
pub fn shortener(m: &mut Mapping, raw: &str) -> (r: Result<(String, String), ShortenError>)
    requires
        old(m).wf(),
    ensures
        final(m).wf(),
        !valid_utf8(decoded_bytes(raw@)) ==> r == Err::<(String, String), ShortenError>(
            ShortenError::InvalidUrl,
        ) && final(m)@ == old(m)@,
        valid_utf8(decoded_bytes(raw@)) ==> {
            let url = decode_utf8(decoded_bytes(raw@));
            if !valid_url(url) {
                r == Err::<(String, String), ShortenError>(ShortenError::InvalidUrl)
                    && final(m)@ == old(m)@
            } else if old(m)@.len() >= u32::MAX {
                r == Err::<(String, String), ShortenError>(ShortenError::StoreFull)
                    && final(m)@ == old(m)@
            } else {
                &&& final(m)@ == old(m)@.push(url)
                &&& r matches Ok((u, k))
                &&& u@ == url
                &&& k@ == issued_key(final(m)@, old(m)@.len() as int)
            }
        },
{
    let url = match decode_percent(raw) {
        Some(url) => url,
        None => return Err(ShortenError::InvalidUrl),
    };
    proof {
        encode_utf8_valid_utf8(url@);
        encode_utf8_decode_utf8(url@);
    }
    let valid = url_is_valid(url.as_str());
    store_checked(m, url, valid)
}

/// The key that a request path names: the path without its leading `/`.
pub open spec fn path_key(path: Seq<char>) -> Seq<char> {
    path.drop_first()
}

/// Where a request for an unknown route is sent: to the URL stored under
/// the key that its path names, or else to `/missing`.
pub fn redirect_target(m: &Mapping, path: &str) -> (r: String)
    requires
        m.wf(),
        path@.len() >= 1,
    ensures
        r@ == match stored_url(m@, path_key(path@)) {
            Some(url) => url,
            None => "/missing"@,
        },
{
    let key = path.substring_char(1, path.unicode_len()).to_owned();
    assert(key@ =~= path_key(path@));
    match m.get(key) {
        Some(url) => url.clone(),
        None => "/missing".to_owned(),
    }
}

} // verus!
