//! The computing half of handling one connection: decoding the raw read
//! buffer, stripping the null padding a short read leaves, and parsing.

use vstd::prelude::*;
use crate::request::{HttpRequest, ParseError, RequestModel, parse_result, parse_http_request};

verus! {

/// What `String::from_utf8_lossy` returns for `bytes`: the decoding depends on
/// the bytes alone.
pub uninterp spec fn lossy_of(bytes: Seq<u8>) -> Seq<char>;

/// Relies on `String::from_utf8_lossy`: invalid UTF-8 sequences are replaced,
/// and ASCII bytes decode to their own characters.
#[verifier::external_body]
fn decode_lossy(bytes: &[u8]) -> (r: String)
    ensures
        r@ == lossy_of(bytes@),
        (forall|i: int| 0 <= i < bytes@.len() ==> bytes@[i] < 128) ==> r@ == Seq::new(
            bytes@.len(),
            |i: int| bytes@[i] as char,
        ),
{
    String::from_utf8_lossy(bytes).into_owned()
}

/// `s` without trailing null characters.
pub open spec fn trim_nuls(s: Seq<char>) -> Seq<char>
    decreases s.len(),
{
    if s.len() > 0 && s.last() == '\u{0}' {
        trim_nuls(s.drop_last())
    } else {
        s
    }
}

/// Strips the trailing null padding that a short read into a fixed buffer
/// leaves, as `trim_nuls` describes.
pub fn strip_trailing_nuls(s: &str) -> (r: &str)
    ensures
        r@ == trim_nuls(s@),
{
    let n = s.unicode_len();
    let mut e: usize = n;
    proof {
        assert(s@.subrange(0, n as int) =~= s@);
    }
    while e > 0 && s.get_char(e - 1) == '\u{0}'
        invariant
            n == s@.len(),
            e <= n,
            trim_nuls(s@) == trim_nuls(s@.subrange(0, e as int)),
        decreases e,
    {
        proof {
            assert(s@.subrange(0, e as int).drop_last() =~= s@.subrange(0, e - 1));
            assert(s@.subrange(0, e as int).last() == s@[e - 1]);
        }
        e -= 1;
    }
    proof {
        let piece = s@.subrange(0, e as int);
        if piece.len() > 0 {
            assert(piece.last() == s@[e - 1]);
        }
        assert(trim_nuls(piece) == piece);
    }
    s.substring_char(0, e)
}

/// Decodes a raw request buffer and parses it: the buffer is decoded as text,
/// its trailing null padding is stripped, and the rest parses as
/// `parse_result` describes.
pub fn parse_request_bytes(buffer: &[u8]) -> (r: Result<HttpRequest, ParseError>)
    ensures
        match r {
            Ok(req) => parse_result(trim_nuls(lossy_of(buffer@))) == Ok::<
                RequestModel,
                ParseError,
            >(req.model()) && req.wf(),
            Err(e) => parse_result(trim_nuls(lossy_of(buffer@))) == Err::<
                RequestModel,
                ParseError,
            >(e),
        },
{
    let decoded = decode_lossy(buffer);
    let trimmed = strip_trailing_nuls(decoded.as_str());
    parse_http_request(trimmed)
}

} // verus!
