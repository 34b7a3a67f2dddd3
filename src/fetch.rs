//! The decisions around one price lookup: the address to ask, and what the
//! answer means.
use vstd::prelude::*;

use crate::error::FetchError;
use crate::extract::{extract, extract_spec, lower_bytes};

verus! {

/// `https://stooq.pl/q/?s=`
pub open spec fn url_head() -> Seq<u8> {
    seq![
        104u8, 116u8, 116u8, 112u8, 115u8, 58u8, 47u8, 47u8, 115u8, 116u8, 111u8, 111u8, 113u8,
        46u8, 112u8, 108u8, 47u8, 113u8, 47u8, 63u8, 115u8, 61u8,
    ]
}

/// Whether a byte string is valid UTF-8.
pub uninterp spec fn utf8_valid(b: Seq<u8>) -> bool;

/// Relies on `std::str::from_utf8`: it returns `Ok` exactly when the bytes
/// are valid UTF-8.
#[verifier::external_body]
fn is_utf8(b: &[u8]) -> (r: bool)
    ensures
        r == utf8_valid(b@),
{
    std::str::from_utf8(b).is_ok()
}

/// The address of the quote page of `ticker`, as bytes: the fixed address
/// followed by the ticker in ASCII lower case.
pub fn price_url(ticker: &[u8]) -> (r: Vec<u8>)
    ensures
        r@ == url_head() + lower_bytes(ticker@),
{
    let head: [u8; 22] = [
        104u8, 116u8, 116u8, 112u8, 115u8, 58u8, 47u8, 47u8, 115u8, 116u8, 111u8, 111u8, 113u8,
        46u8, 112u8, 108u8, 47u8, 113u8, 47u8, 63u8, 115u8, 61u8,
    ];
    let mut r: Vec<u8> = Vec::new();
    let mut i: usize = 0;
    while i < 22
        invariant
            i <= 22,
            head@ == url_head(),
            r@ =~= url_head().take(i as int),
        decreases 22 - i,
    {
        r.push(head[i]);
        assert(url_head().take(i as int + 1) =~= url_head().take(i as int).push(url_head()[i as int]));
        i += 1;
    }
    assert(url_head().take(22) =~= url_head());
    let mut k: usize = 0;
    while k < ticker.len()
        invariant
            k <= ticker@.len(),
            r@ =~= url_head() + lower_bytes(ticker@).take(k as int),
        decreases ticker@.len() - k,
    {
        let c = ticker[k];
        let l = if 65 <= c && c <= 90 { c + 32 } else { c };
        r.push(l);
        assert(lower_bytes(ticker@).take(k as int + 1) =~= lower_bytes(ticker@).take(k as int).push(l));
        k += 1;
    }
    assert(lower_bytes(ticker@).take(ticker@.len() as int) =~= lower_bytes(ticker@));
    r
}

/// What an answer means, given its status, whether its body is valid UTF-8,
/// and its body.
pub open spec fn classify_spec(t: Seq<u8>, status: u16, utf8: bool, body: Seq<u8>) -> Result<u64, FetchError> {
    if status != 200 {
        Err(FetchError::BadStatus(status))
    } else if !utf8 {
        Err(FetchError::Decode)
    } else {
        match extract_spec(t, body) {
            Some(v) => Ok(v),
            None => Err(FetchError::NotFound),
        }
    }
}

/// Decides what an answer means: a status other than 200 is `BadStatus`, a
/// body that is not UTF-8 is `Decode`, and otherwise the price is extracted.
pub fn classify_response(ticker: &[u8], status: u16, body_is_utf8: bool, body: &[u8]) -> (r: Result<u64, FetchError>)
    ensures
        r == classify_spec(ticker@, status, body_is_utf8, body@),
{
    if status != 200 {
        Err(FetchError::BadStatus(status))
    } else if !body_is_utf8 {
        Err(FetchError::Decode)
    } else {
        extract(ticker, body)
    }
}

/// The price that an answer of status `status` with body `body` gives for
/// `ticker`, in units of 1/10000, or why it gives none.
pub fn resolve_response(ticker: &[u8], status: u16, body: &[u8]) -> (r: Result<u64, FetchError>)
    ensures
        r == classify_spec(ticker@, status, utf8_valid(body@), body@),
{
    let utf8 = is_utf8(body);
    classify_response(ticker, status, utf8, body)
}

} // verus!
