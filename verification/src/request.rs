//! Turning one request frame into work for the detector: parse the JSON
//! body, base64-decode the `image` field, and decode the bytes into a
//! grayscale pixel buffer.  Each step that an outside codec performs is a
//! pure function of its input and is named as such, so that the decision —
//! detect, or silently discard the frame — is exact.

use vstd::prelude::*;
use crate::codec::push_all;

verus! {

/// The string value at `key` of the JSON object that `bytes` parse to, if
/// `bytes` are a JSON object with a string there.
pub uninterp spec fn json_string_field_of(bytes: Seq<u8>, key: Seq<char>) -> Option<Seq<char>>;

/// Relies on serde_json::from_slice, Value::get and Value::as_str: whether
/// the bytes parse as JSON with a string value at `key`, and what that
/// string is, depend on the bytes and the key alone.
#[verifier::external_body]
fn json_string_field(bytes: &Vec<u8>, key: &str) -> (r: Option<String>)
    ensures
        r is Some <==> json_string_field_of(bytes@, key@) is Some,
        r matches Some(s) ==> json_string_field_of(bytes@, key@) == Some(s@),
{
    let value: serde_json::Value = match serde_json::from_slice(bytes.as_slice()) {
        Ok(v) => v,
        Err(_) => return None,
    };
    match value.get(key) {
        Some(field) => field.as_str().map(|s| s.to_string()),
        None => None,
    }
}

/// The bytes that a string decodes to under standard base64 with padding,
/// if it is valid base64.
pub uninterp spec fn base64_decode_of(s: Seq<char>) -> Option<Seq<u8>>;

/// Relies on base64's standard-alphabet Engine::decode: the result depends
/// on the input characters alone.
#[verifier::external_body]
fn base64_decode(s: &str) -> (r: Option<Vec<u8>>)
    ensures
        r is Some <==> base64_decode_of(s@) is Some,
        r matches Some(v) ==> base64_decode_of(s@) == Some(v@),
{
    base64::Engine::decode(&base64::engine::general_purpose::STANDARD, s).ok()
}

/// The standard base64 rendering, with padding, of a byte string, as the
/// ASCII bytes it is written in.
pub uninterp spec fn base64_ascii_of(bytes: Seq<u8>) -> Seq<u8>;

/// Relies on base64's standard-alphabet Engine::encode: the rendering
/// depends on the input bytes alone.
#[verifier::external_body]
fn base64_encode(bytes: &Vec<u8>) -> (r: Vec<u8>)
    ensures
        r@ == base64_ascii_of(bytes@),
{
    base64::Engine::encode(&base64::engine::general_purpose::STANDARD, bytes.as_slice())
        .into_bytes()
}

/// The bytes of `{"image":"`.
pub open spec fn req_head() -> Seq<u8> {
    seq![123u8, 34u8, 105u8, 109u8, 97u8, 103u8, 101u8, 34u8, 58u8, 34u8]
}

/// The whole request body for one image: its base64 rendering, quoted
/// under the key `image`.
pub open spec fn request_bytes(image: Seq<u8>) -> Seq<u8> {
    req_head() + base64_ascii_of(image) + seq![34u8, 125u8]
}

/// Builds the request body a client sends for one image.  The base64
/// alphabet never needs JSON escaping, so the body is plain concatenation.
pub fn build_request(image: &Vec<u8>) -> (r: Vec<u8>)
    ensures
        r@ == request_bytes(image@),
{
    let b64 = base64_encode(image);
    let mut r: Vec<u8> = Vec::new();
    r.push(123u8);
    r.push(34u8);
    r.push(105u8);
    r.push(109u8);
    r.push(97u8);
    r.push(103u8);
    r.push(101u8);
    r.push(34u8);
    r.push(58u8);
    r.push(34u8);
    assert(r@ =~= req_head());
    push_all(&mut r, &b64);
    r.push(34u8);
    r.push(125u8);
    proof {
        assert(r@ =~= request_bytes(image@));
    }
    r
}

/// The grayscale image that a byte string decodes to, if it is a valid
/// image encoding: width, height, and one luminance byte per pixel in row
/// order.
pub uninterp spec fn gray_of(bytes: Seq<u8>) -> Option<(u32, u32, Seq<u8>)>;

/// Relies on image::load_from_memory and DynamicImage::to_luma8: decoding
/// and grayscale conversion depend on the input bytes alone, and a Luma8
/// buffer holds exactly width * height one-byte pixels.
#[verifier::external_body]
fn decode_grayscale(bytes: &Vec<u8>) -> (r: Option<(u32, u32, Vec<u8>)>)
    ensures
        r is Some <==> gray_of(bytes@) is Some,
        r matches Some(g) ==> gray_of(bytes@) == Some((g.0, g.1, g.2@)),
        r matches Some(g) ==> g.2@.len() == g.0 as nat * g.1 as nat,
{
    let img = match image::load_from_memory(bytes.as_slice()) {
        Ok(i) => i,
        Err(_) => return None,
    };
    let gray = img.to_luma8();
    let (width, height) = gray.dimensions();
    Some((width, height, gray.into_raw()))
}

/// The grayscale image that one request frame asks to run detection on:
/// the `image` field of its JSON body, base64-decoded, then decoded as an
/// image.  `None` when any of the three steps fails.
pub open spec fn request_gray(payload: Seq<u8>) -> Option<(u32, u32, Seq<u8>)> {
    match json_string_field_of(payload, "image"@) {
        Some(field) => match base64_decode_of(field) {
            Some(bytes) => gray_of(bytes),
            None => None,
        },
        None => None,
    }
}

/// True when a frame payload is a well-formed request: it earns a response.
pub open spec fn well_formed_request(payload: Seq<u8>) -> bool {
    request_gray(payload) is Some
}

/// What the worker does with one request frame.
pub enum RequestStep {
    /// Run the detector on this grayscale buffer and respond.
    Detect { width: u32, height: u32, pixels: Vec<u8> },
    /// Malformed: discard the frame, send nothing, keep the connection.
    Discard,
}

/// Decides what one request frame asks for: the grayscale pixel buffer to
/// run detection on, or nothing when the frame is malformed in any of the
/// three ways (bad JSON or no `image` string, bad base64, undecodable
/// image bytes).
pub fn prepare_request(payload: &Vec<u8>) -> (r: RequestStep)
    ensures
        r matches RequestStep::Detect { width, height, pixels } ==> ({
            &&& request_gray(payload@) == Some((width, height, pixels@))
            &&& pixels@.len() == width as nat * height as nat
        }),
        r is Discard <==> !well_formed_request(payload@),
{
    let field = match json_string_field(payload, "image") {
        Some(f) => f,
        None => return RequestStep::Discard,
    };
    let image_bytes = match base64_decode(field.as_str()) {
        Some(b) => b,
        None => return RequestStep::Discard,
    };
    match decode_grayscale(&image_bytes) {
        Some(g) => RequestStep::Detect { width: g.0, height: g.1, pixels: g.2 },
        None => RequestStep::Discard,
    }
}

} // verus!
