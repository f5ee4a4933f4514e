//! A static asset served with a weak entity tag: a request whose
//! `If-None-Match` carries the tag gets "not modified" and no body.
use vstd::prelude::*;
use vstd::string::*;
use vstd::utf8::encode_utf8;
use base64::Engine;
use sha3::digest::ExtendableOutput;
use crate::client_ip::{header_value, headers_view, header_lookup, Header};

verus! {

/// The first sixteen bytes of the SHAKE128 output for `data`.
pub uninterp spec fn shake128_16(data: Seq<u8>) -> Seq<u8>;

/// Relies on `sha3::Shake128` through `digest::ExtendableOutput::digest_xof`,
/// which hashes `data` and fills the sixteen-byte buffer from the output.
#[verifier::external_body]
fn shake128_digest(data: &[u8]) -> (r: Vec<u8>)
    ensures
        r@ == shake128_16(data@),
        r@.len() == 16,
{
    let mut out = [0u8; 16];
    sha3::Shake128::digest_xof(data, &mut out);
    out.to_vec()
}

/// The standard base64 text of `b`, without padding.
pub uninterp spec fn base64_no_pad(b: Seq<u8>) -> Seq<char>;

/// Relies on `base64::Engine::encode` with the `STANDARD_NO_PAD` engine.
#[verifier::external_body]
fn encode_base64(b: &[u8]) -> (r: String)
    requires
        b@.len() == 16,
    ensures
        r@ == base64_no_pad(b@),
{
    base64::engine::general_purpose::STANDARD_NO_PAD.encode(b)
}

/// `W/"` + the tag + `"`: a weak validator.
pub open spec fn weak_validator(tag: Seq<char>) -> Seq<char> {
    seq!['W', '/', '"'] + tag + seq!['"']
}

/// The entity tag of an asset with these bytes.
pub open spec fn etag_token(data: Seq<u8>) -> Seq<char> {
    weak_validator(base64_no_pad(shake128_16(data)))
}

/// Wraps an encoded digest as a weak validator.
pub fn weak_etag(encoded: &str) -> (r: String)
    ensures
        r@ == weak_validator(encoded@),
{
    let mut r = String::new();
    r.push('W');
    r.push('/');
    r.push('"');
    r.append(encoded);
    r.push('"');
    assert(r@ =~= weak_validator(encoded@));
    r
}

/// The weak entity tag of `data`: its SHAKE128 digest cut to sixteen bytes,
/// in base64 without padding.
pub fn compute_etag(data: &str) -> (r: String)
    ensures
        r@ == etag_token(data.spec_bytes()),
{
    let digest = shake128_digest(data.as_bytes());
    let encoded = encode_base64(digest.as_slice());
    weak_etag(encoded.as_str())
}

/// What is sent back for the asset.
pub struct AssetResponse {
    /// 200 with the body, or 304 without one.
    pub status: u16,
    pub headers: Vec<Header>,
    pub body: Option<String>,
}

/// The headers that go with the asset, whatever the status.
pub open spec fn asset_headers(etag: Seq<char>) -> Seq<(Seq<char>, Seq<char>)> {
    seq![
        ("Content-Type"@, "text/css; charset=utf-8"@),
        ("Cache-Control"@, "max-age=86400"@),
        ("ETag"@, etag),
    ]
}

/// The mathematical content of a [`ConditionalCache`].
pub struct CacheModel {
    pub asset: Seq<char>,
    pub token: Seq<char>,
}

/// What is sent for a request whose `If-None-Match` is `inm`.
pub struct ResponseModel {
    pub status: u16,
    pub headers: Seq<(Seq<char>, Seq<char>)>,
    pub body: Option<Seq<char>>,
}

/// Not modified where the request's `If-None-Match` is exactly the token; the
/// asset otherwise. The same headers go with both.
pub open spec fn respond_spec(c: CacheModel, inm: Option<Seq<char>>) -> ResponseModel {
    if inm == Some(c.token) {
        ResponseModel { status: 304, headers: asset_headers(c.token), body: None }
    } else {
        ResponseModel { status: 200, headers: asset_headers(c.token), body: Some(c.asset) }
    }
}

impl AssetResponse {
    pub open spec fn model(&self) -> ResponseModel {
        ResponseModel {
            status: self.status,
            headers: headers_view(self.headers@),
            body: match self.body {
                Some(b) => Some(b@),
                None => None,
            },
        }
    }
}

/// A static asset and its entity tag, computed once.
pub struct ConditionalCache {
    asset: String,
    etag: String,
}

impl View for ConditionalCache {
    type V = CacheModel;

    closed spec fn view(&self) -> CacheModel {
        CacheModel { asset: self.asset@, token: self.etag@ }
    }
}

impl ConditionalCache {
    /// The tag is the one computed from the asset's bytes.
    pub open spec fn wf(&self) -> bool {
        self@.token == etag_token(encode_utf8(self@.asset))
    }

    /// Computes the asset's entity tag.
    pub fn new(asset: &str) -> (r: ConditionalCache)
        ensures
            r@.asset == asset@,
            r@.token == etag_token(asset.spec_bytes()),
            r.wf(),
    {
        let etag = compute_etag(asset);
        ConditionalCache { asset: String::from_str(asset), etag }
    }

    /// The entity tag.
    pub fn etag(&self) -> (r: &str)
        ensures
            r@ == self@.token,
    {
        self.etag.as_str()
    }

    /// The asset.
    pub fn asset(&self) -> (r: &str)
        ensures
            r@ == self@.asset,
    {
        self.asset.as_str()
    }

    /// The response to a request whose `If-None-Match` value is `if_none_match`.
    pub fn respond(&self, if_none_match: Option<&str>) -> (r: AssetResponse)
        ensures
            r.model() == respond_spec(
                self@,
                match if_none_match {
                    Some(v) => Some(v@),
                    None => None,
                },
            ),
    {
        let mut headers: Vec<Header> = Vec::new();
        headers.push((String::from_str("Content-Type"), String::from_str("text/css; charset=utf-8")));
        headers.push((String::from_str("Cache-Control"), String::from_str("max-age=86400")));
        headers.push((String::from_str("ETag"), self.etag.clone()));
        assert(headers_view(headers@) =~= asset_headers(self@.token));
        let matched = match if_none_match {
            Some(v) => {
                let given = String::from_str(v);
                given == self.etag
            },
            None => false,
        };
        if matched {
            AssetResponse { status: 304, headers, body: None }
        } else {
            AssetResponse { status: 200, headers, body: Some(self.asset.clone()) }
        }
    }

    /// The response to a request with these headers: `If-None-Match` is looked
    /// up whatever the case of its name.
    pub fn handle(&self, headers: &Vec<Header>) -> (r: AssetResponse)
        ensures
            r.model() == respond_spec(
                self@,
                header_lookup(headers_view(headers@), "if-none-match"@),
            ),
    {
        let v = header_value(headers, "if-none-match");
        match v {
            Some(v) => self.respond(Some(v.as_str())),
            None => self.respond(None),
        }
    }
}

/// The entity tag is fixed by the asset: every request to the same cache,
/// whatever it carries, gets the same tag, and the one computed from the asset.
pub proof fn lemma_token_stable(c: CacheModel, inm1: Option<Seq<char>>, inm2: Option<Seq<char>>)
    requires
        c.token == etag_token(encode_utf8(c.asset)),
    ensures
        respond_spec(c, inm1).headers == respond_spec(c, inm2).headers,
        respond_spec(c, inm1).headers[2].1 == etag_token(encode_utf8(c.asset)),
{
}

/// A request carrying exactly the tag gets 304 and no body; any other request,
/// with another `If-None-Match` or none, gets 200 and the asset. Both carry
/// the content type, the caching rule and the tag.
pub proof fn lemma_conditional_response(c: CacheModel, inm: Option<Seq<char>>)
    ensures
        (respond_spec(c, inm).status == 304) == (inm == Some(c.token)),
        inm == Some(c.token) ==> respond_spec(c, inm).body is None,
        inm != Some(c.token) ==> respond_spec(c, inm).status == 200 && respond_spec(c, inm).body
            == Some(c.asset),
        respond_spec(c, inm).headers == asset_headers(c.token),
{
}

/// Two caches built from the same asset carry the same tag.
pub proof fn lemma_token_of_asset(a: CacheModel, b: CacheModel)
    requires
        a.token == etag_token(encode_utf8(a.asset)),
        b.token == etag_token(encode_utf8(b.asset)),
        a.asset == b.asset,
    ensures
        a.token == b.token,
{
}

} // verus!
