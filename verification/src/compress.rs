//! Response compression: a content-type eligibility gate, negotiation of
//! the codec against the request's `Accept-Encoding`, and the re-encoded
//! body with its recomputed length.
//!
//! The body is re-encoded only when the declared content type is textual,
//! no `Content-Encoding` is already set, and the client's preferences
//! select one of the supported codecs. An encoder failure surfaces as a
//! distinct error and never falls back to the uncompressed body.

use vstd::prelude::*;

use crate::negotiation::{spec_best, spec_parse, Negotiation};
use crate::strutil::{before_first, find_char, spec_trim, str_eq, string_push, trim};

verus! {

/// The encoder failed while re-encoding an eligible response body.
#[derive(Clone, Copy, PartialEq, Eq, Structural, Debug)]
pub struct CompressionError;

/// ASCII upper-case letters fold to lower case; all else is unchanged.
pub open spec fn to_lower_char(c: char) -> char {
    if 65 <= c as u32 && c as u32 <= 90 {
        (((c as u32) + 32) as u8) as char
    } else {
        c
    }
}

pub open spec fn lower_seq(s: Seq<char>) -> Seq<char> {
    s.map_values(|c: char| to_lower_char(c))
}

/// The type/subtype part of a content type: parameters after `;` dropped,
/// whitespace trimmed, folded to lower case.
pub open spec fn mime_essence(ct: Seq<char>) -> Seq<char> {
    lower_seq(spec_trim(before_first(ct, ';')))
}

pub open spec fn starts_with(s: Seq<char>, p: Seq<char>) -> bool {
    s.len() >= p.len() && s.take(p.len() as int) == p
}

pub open spec fn ends_with(s: Seq<char>, p: Seq<char>) -> bool {
    s.len() >= p.len() && s.skip(s.len() - p.len()) == p
}

/// The eligibility gate: `text/*`, `application/javascript`,
/// `application/json`, `application/xml` and any `application/*+xml`
/// subtype compress; everything else passes through untouched.
pub open spec fn spec_compressible(ct: Seq<char>) -> bool {
    let e = mime_essence(ct);
    starts_with(e, "text/"@) || e == "application/javascript"@ || e == "application/json"@ || e
        == "application/xml"@ || (starts_with(e, "application/"@) && ends_with(e, "+xml"@))
}

fn to_lower(s: &str) -> (r: String)
    ensures
        r@ == lower_seq(s@),
{
    let n = s.unicode_len();
    let mut out = String::new();
    let mut i: usize = 0;
    proof {
        assert(out@ =~= lower_seq(s@.take(0)));
    }
    while i < n
        invariant
            i <= n,
            n == s@.len(),
            out@ == lower_seq(s@.take(i as int)),
        decreases n - i,
    {
        let c = s.get_char(i);
        let u = c as u32;
        if 65 <= u && u <= 90 {
            string_push(&mut out, ((u + 32) as u8) as char);
        } else {
            string_push(&mut out, c);
        }
        proof {
            assert(out@ =~= lower_seq(s@.take(i + 1)));
        }
        i = i + 1;
    }
    proof {
        assert(s@.take(n as int) =~= s@);
    }
    out
}

fn has_prefix(s: &str, p: &str) -> (r: bool)
    ensures
        r == starts_with(s@, p@),
{
    let n = s.unicode_len();
    let m = p.unicode_len();
    if n < m {
        return false;
    }
    let sub = s.substring_char(0, m);
    proof {
        assert(sub@ =~= s@.take(m as int));
    }
    str_eq(sub, p)
}

fn has_suffix(s: &str, p: &str) -> (r: bool)
    ensures
        r == ends_with(s@, p@),
{
    let n = s.unicode_len();
    let m = p.unicode_len();
    if n < m {
        return false;
    }
    let sub = s.substring_char(n - m, n);
    proof {
        assert(sub@ =~= s@.skip(n - m));
    }
    str_eq(sub, p)
}

/// Decide the eligibility gate for a declared content type.
pub fn compressible(content_type: &str) -> (r: bool)
    ensures
        r == spec_compressible(content_type@),
{
    proof {
        assert(content_type@.skip(0) =~= content_type@);
    }
    let head = match find_char(content_type, 0, ';') {
        Some(i) => content_type.substring_char(0, i),
        None => content_type,
    };
    proof {
        assert(head@ =~= before_first(content_type@, ';'));
    }
    let essence = to_lower(trim(head));
    has_prefix(essence.as_str(), "text/") || str_eq(essence.as_str(), "application/javascript")
        || str_eq(essence.as_str(), "application/json") || str_eq(
        essence.as_str(),
        "application/xml",
    ) || (has_prefix(essence.as_str(), "application/") && has_suffix(essence.as_str(), "+xml"))
}

/// What the gzip stream for given bytes holds. Compression at the fixed
/// fast level with an empty, zero-timestamp header depends on the input
/// bytes alone.
pub uninterp spec fn gzip_of(data: Seq<u8>) -> Seq<u8>;

/// What the raw deflate stream for given bytes holds; a function of the
/// input bytes alone.
pub uninterp spec fn deflate_of(data: Seq<u8>) -> Seq<u8>;

/// What the zlib stream for given bytes holds; a function of the input
/// bytes alone.
pub uninterp spec fn zlib_of(data: Seq<u8>) -> Seq<u8>;

/// Relies on `flate2::write::GzEncoder` (`new`, `write_all`, `finish`) at
/// `Compression::fast()`: writing into an in-memory buffer yields the gzip
/// stream of the input and cannot fail, since the buffer sink and the
/// bundled compression backend have no error path.
#[verifier::external_body]
fn gzip_compress(data: &[u8]) -> (r: Result<Vec<u8>, CompressionError>)
    ensures
        r is Ok,
        r matches Ok(out) ==> out@ == gzip_of(data@),
{
    let mut enc = flate2::write::GzEncoder::new(Vec::new(), flate2::Compression::fast());
    match std::io::Write::write_all(&mut enc, data) {
        Ok(()) => enc.finish().map_err(|_| CompressionError),
        Err(_) => Err(CompressionError),
    }
}

/// Relies on `flate2::write::DeflateEncoder` (`new`, `write_all`,
/// `finish`) at `Compression::fast()`: writing into an in-memory buffer
/// yields the deflate stream of the input and cannot fail, since the
/// buffer sink and the bundled compression backend have no error path.
#[verifier::external_body]
fn deflate_compress(data: &[u8]) -> (r: Result<Vec<u8>, CompressionError>)
    ensures
        r is Ok,
        r matches Ok(out) ==> out@ == deflate_of(data@),
{
    let mut enc = flate2::write::DeflateEncoder::new(Vec::new(), flate2::Compression::fast());
    match std::io::Write::write_all(&mut enc, data) {
        Ok(()) => enc.finish().map_err(|_| CompressionError),
        Err(_) => Err(CompressionError),
    }
}

/// Relies on `flate2::write::ZlibEncoder` (`new`, `write_all`, `finish`)
/// at `Compression::fast()`: writing into an in-memory buffer yields the
/// zlib stream of the input and cannot fail, since the buffer sink and
/// the bundled compression backend have no error path.
#[verifier::external_body]
fn zlib_compress(data: &[u8]) -> (r: Result<Vec<u8>, CompressionError>)
    ensures
        r is Ok,
        r matches Ok(out) ==> out@ == zlib_of(data@),
{
    let mut enc = flate2::write::ZlibEncoder::new(Vec::new(), flate2::Compression::fast());
    match std::io::Write::write_all(&mut enc, data) {
        Ok(()) => enc.finish().map_err(|_| CompressionError),
        Err(_) => Err(CompressionError),
    }
}

/// The codec set offered during negotiation.
pub open spec fn supported_codecs() -> Seq<Seq<char>> {
    seq!["gzip"@, "deflate"@, "zlib"@]
}

/// The encoded stream a supported codec produces for given bytes.
pub open spec fn codec_output(name: Seq<char>, data: Seq<u8>) -> Seq<u8> {
    if name == "gzip"@ {
        gzip_of(data)
    } else if name == "deflate"@ {
        deflate_of(data)
    } else {
        zlib_of(data)
    }
}

/// Encode a body with one of the supported codecs. The error type is the
/// failure class of an encoder sink; into an in-memory buffer the
/// supported encoders cannot fail, so success is owed.
pub fn encode_body(encoding: &str, data: &[u8]) -> (r: Result<Vec<u8>, CompressionError>)
    requires
        supported_codecs().contains(encoding@),
    ensures
        r is Ok,
        r matches Ok(out) ==> out@ == codec_output(encoding@, data@),
{
    if str_eq(encoding, "gzip") {
        gzip_compress(data)
    } else if str_eq(encoding, "deflate") {
        deflate_compress(data)
    } else {
        proof {
            let i = choose|i: int|
                0 <= i < supported_codecs().len() && supported_codecs()[i] == encoding@;
            assert(supported_codecs()[i] == encoding@);
            assert(supported_codecs()[0] == "gzip"@);
            assert(supported_codecs()[1] == "deflate"@);
            assert(supported_codecs()[2] == "zlib"@);
            assert(encoding@ == "zlib"@);
        }
        zlib_compress(data)
    }
}

/// The view of an optional header value.
pub open spec fn opt_str_view(o: Option<&str>) -> Option<Seq<char>> {
    match o {
        Some(s) => Some(s@),
        None => None,
    }
}

/// Which codec, if any, a response is re-encoded with: the best supported
/// codec from `Accept-Encoding`, provided the content type is eligible
/// and no `Content-Encoding` is already set.
pub open spec fn spec_negotiated(
    content_type: Option<Seq<char>>,
    already_encoded: bool,
    accept_encoding: Option<Seq<char>>,
) -> Option<Seq<char>> {
    if content_type is Some && spec_compressible(content_type.unwrap()) && !already_encoded
        && accept_encoding is Some {
        spec_best(spec_parse(accept_encoding.unwrap()), supported_codecs())
    } else {
        None
    }
}

/// A whole-scan selection picks a token that is available and carried a
/// strictly positive weight; in particular a `q=0` preference is never
/// selected.
pub proof fn lemma_best_from_selected(
    params: Seq<(Seq<char>, u32)>,
    avail: Seq<Seq<char>>,
    cur: Option<Seq<char>>,
    cur_q: u32,
)
    requires
        cur is Some ==> avail.contains(cur.unwrap()) && cur_q > 0,
    ensures
        crate::negotiation::best_from(params, avail, cur, cur_q) matches Some(n) ==> avail.contains(
            n,
        ) && (cur == Some(n) || exists|i: int|
            0 <= i < params.len() && params[i].0 == n && params[i].1 > 0),
    decreases params.len(),
{
    if params.len() == 0 {
    } else {
        let head = params[0];
        if head.1 > cur_q && avail.contains(head.0) {
            lemma_best_from_selected(params.drop_first(), avail, Some(head.0), head.1);
        } else {
            lemma_best_from_selected(params.drop_first(), avail, cur, cur_q);
        }
        let r = crate::negotiation::best_from(params, avail, cur, cur_q);
        if r is Some && cur != r {
            let n = r.unwrap();
            if exists|i: int|
                0 <= i < params.drop_first().len() && params.drop_first()[i].0 == n
                    && params.drop_first()[i].1 > 0 {
                let i = choose|i: int|
                    0 <= i < params.drop_first().len() && params.drop_first()[i].0 == n
                        && params.drop_first()[i].1 > 0;
                assert(params[i + 1].0 == n && params[i + 1].1 > 0);
            }
        }
    }
}

/// A selected codec is always available; the selection never invents a
/// token and never takes one whose weight was zero.
pub proof fn lemma_best_selected_available(params: Seq<(Seq<char>, u32)>, avail: Seq<Seq<char>>)
    ensures
        spec_best(params, avail) matches Some(n) ==> avail.contains(n) && exists|i: int|
            0 <= i < params.len() && params[i].0 == n && params[i].1 > 0,
{
    lemma_best_from_selected(params, avail, None, 0);
}

/// A response body after negotiation: the codec actually applied, the
/// final bytes, and their length for the `Content-Length` header.
pub struct CompressedOutcome {
    pub content_encoding: Option<String>,
    pub body: Vec<u8>,
    pub content_length: usize,
}

/// The response-compression interceptor. It holds no state; each call
/// negotiates afresh from the headers it is handed.
pub struct CompressMiddleware {}

impl CompressMiddleware {
    pub fn new() -> (r: Self) {
        CompressMiddleware {  }
    }

    /// Re-encode one response body according to the declared content type,
    /// any pre-existing `Content-Encoding`, and the request's
    /// `Accept-Encoding` header. The error type is the distinct failure
    /// class of a failing encoder sink; the supported encoders write into
    /// an in-memory buffer and cannot fail, so success is owed on every
    /// input.
    pub fn handle(
        &self,
        content_type: Option<&str>,
        already_encoded: bool,
        accept_encoding: Option<&str>,
        body: Vec<u8>,
    ) -> (r: Result<CompressedOutcome, CompressionError>)
        ensures
            r is Ok,
            ({
                let choice = spec_negotiated(
                    opt_str_view(content_type),
                    already_encoded,
                    opt_str_view(accept_encoding),
                );
                r matches Ok(out) ==> {
                    &&& choice is None ==> out.content_encoding is None && out.body@ == body@
                        && out.content_length == body@.len()
                    &&& choice matches Some(c) ==> out.content_encoding matches Some(e) && e@
                        == c && out.body@ == codec_output(c, body@) && out.content_length
                        == out.body@.len()
                }
            }),
    {
        let eligible = match content_type {
            Some(ct) => compressible(ct),
            None => false,
        };
        if eligible && !already_encoded {
            if let Some(ae) = accept_encoding {
                let negotiation = Negotiation::parse(ae.to_owned());
                let supported: Vec<&str> = vec!["gzip", "deflate", "zlib"];
                proof {
                    assert(supported@.map_values(|t: &str| t@) =~= supported_codecs());
                }
                let chosen: Option<String> = match negotiation.best(supported.as_slice()) {
                    Some(name) => Some(name.clone()),
                    None => None,
                };
                match chosen {
                    Some(enc) => {
                        proof {
                            lemma_best_selected_available(spec_parse(ae@), supported_codecs());
                        }
                        let compressed = match encode_body(enc.as_str(), body.as_slice()) {
                            Ok(out) => out,
                            Err(e) => {
                                return Err(e);
                            },
                        };
                        let content_length = compressed.len();
                        Ok(
                            CompressedOutcome {
                                content_encoding: Some(enc),
                                body: compressed,
                                content_length,
                            },
                        )
                    },
                    None => {
                        let content_length = body.len();
                        Ok(
                            CompressedOutcome {
                                content_encoding: None,
                                body,
                                content_length,
                            },
                        )
                    },
                }
            } else {
                let content_length = body.len();
                Ok(CompressedOutcome { content_encoding: None, body, content_length })
            }
        } else {
            let content_length = body.len();
            Ok(CompressedOutcome { content_encoding: None, body, content_length })
        }
    }
}

} // verus!
