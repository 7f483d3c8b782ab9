use std::io::Cursor;

use face_service::codec::build_response;
use face_service::request::{build_request, prepare_request, RequestStep};
use face_service::wire::{encode_frame, frame_step, FrameOutcome};

fn black_png(width: u32, height: u32) -> Vec<u8> {
    let img = image::GrayImage::new(width, height);
    let mut png: Vec<u8> = Vec::new();
    img.write_to(&mut Cursor::new(&mut png), image::ImageFormat::Png)
        .expect("png encoding");
    png
}

fn request_payload(image_bytes: &Vec<u8>) -> Vec<u8> {
    build_request(image_bytes)
}

#[test]
fn black_image_request_yields_its_gray_pixels() {
    let png = black_png(100, 100);
    let payload = request_payload(&png);
    match prepare_request(&payload) {
        RequestStep::Detect { width, height, pixels } => {
            assert_eq!(width, 100);
            assert_eq!(height, 100);
            assert_eq!(pixels.len(), 100 * 100);
            assert!(pixels.iter().all(|&p| p == 0));
        }
        RequestStep::Discard => panic!("a well-formed request was discarded"),
    }
}

#[test]
fn black_image_scenario_response_counts_no_faces() {
    // A 100x100 all-black image holds no face; with the detector reporting
    // zero, the response body is exactly the documented one.
    let response = build_response(0, 3);
    assert_eq!(response, b"{\"face_count\":0,\"detect_time_ms\":3}".to_vec());
}

#[test]
fn invalid_json_is_discarded() {
    assert!(matches!(
        prepare_request(&b"not json at all".to_vec()),
        RequestStep::Discard
    ));
    assert!(matches!(prepare_request(&Vec::new()), RequestStep::Discard));
}

#[test]
fn json_without_an_image_string_is_discarded() {
    assert!(matches!(
        prepare_request(&b"{\"wrong\":\"aGk=\"}".to_vec()),
        RequestStep::Discard
    ));
    assert!(matches!(
        prepare_request(&b"{\"image\":7}".to_vec()),
        RequestStep::Discard
    ));
}

#[test]
fn invalid_base64_is_discarded() {
    assert!(matches!(
        prepare_request(&b"{\"image\":\"%%%\"}".to_vec()),
        RequestStep::Discard
    ));
}

#[test]
fn undecodable_image_bytes_are_discarded() {
    // Valid base64 of bytes that are no image encoding.
    let payload = request_payload(&b"these bytes are no image".to_vec());
    assert!(matches!(prepare_request(&payload), RequestStep::Discard));
}

#[test]
fn request_body_is_the_quoted_base64_of_the_image() {
    assert_eq!(
        build_request(&vec![104u8, 105]),
        b"{\"image\":\"aGk=\"}".to_vec()
    );
    assert_eq!(build_request(&Vec::new()), b"{\"image\":\"\"}".to_vec());
    // The same body the reference encoder would produce.
    let expected = format!(
        "{{\"image\":\"{}\"}}",
        base64::Engine::encode(&base64::engine::general_purpose::STANDARD, b"hello")
    );
    assert_eq!(build_request(&b"hello".to_vec()), expected.into_bytes());
}

#[test]
fn two_requests_on_one_connection_get_two_responses_in_order() {
    // Both frames are well formed; the responses come back one for one,
    // in the order the requests were sent.
    let first = request_payload(&black_png(2, 3));
    let second = request_payload(&black_png(5, 4));
    let mut wire = encode_frame(&first);
    wire.extend_from_slice(&encode_frame(&second));

    let mut sizes: Vec<(u32, u32)> = Vec::new();
    let mut buf = wire;
    loop {
        match frame_step(&buf, true) {
            FrameOutcome::Frame { payload, consumed } => {
                buf.drain(..consumed);
                match prepare_request(&payload) {
                    RequestStep::Detect { width, height, .. } => sizes.push((width, height)),
                    RequestStep::Discard => panic!("well-formed request discarded"),
                }
            }
            FrameOutcome::EndOfStream => break,
            _ => panic!("connection should end cleanly"),
        }
    }
    assert_eq!(sizes, vec![(2, 3), (5, 4)]);
}

#[test]
fn malformed_frame_gets_no_response_and_connection_goes_on() {
    // Two frames arrive on one connection: a malformed request, then a
    // well-formed one.  The malformed one earns no response and does not
    // end the connection; the well-formed one is still served.
    let bad = b"{\"image\":\"%%%\"}".to_vec();
    let good = request_payload(&black_png(4, 4));
    let mut wire = encode_frame(&bad);
    wire.extend_from_slice(&encode_frame(&good));

    let mut responses: Vec<Vec<u8>> = Vec::new();
    let mut closed_early = false;
    let mut buf = wire;
    loop {
        match frame_step(&buf, true) {
            FrameOutcome::Frame { payload, consumed } => {
                buf.drain(..consumed);
                match prepare_request(&payload) {
                    RequestStep::Detect { .. } => {
                        responses.push(build_response(0, 1));
                    }
                    RequestStep::Discard => {}
                }
            }
            FrameOutcome::EndOfStream => break,
            FrameOutcome::Truncated | FrameOutcome::NeedMore => {
                closed_early = true;
                break;
            }
        }
    }
    assert!(!closed_early);
    assert_eq!(responses.len(), 1);
    assert_eq!(responses[0], b"{\"face_count\":0,\"detect_time_ms\":1}".to_vec());
}
