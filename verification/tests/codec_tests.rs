use face_service::codec::{build_response, parse_response, u64_to_dec};
use face_service::config::resolve_worker_count;

#[test]
fn decimal_rendering_is_plain_ascii() {
    assert_eq!(u64_to_dec(0), b"0".to_vec());
    assert_eq!(u64_to_dec(7), b"7".to_vec());
    assert_eq!(u64_to_dec(10230), b"10230".to_vec());
    assert_eq!(u64_to_dec(u64::MAX), b"18446744073709551615".to_vec());
}

#[test]
fn response_body_is_the_two_field_json_object() {
    assert_eq!(
        build_response(12, 345),
        b"{\"face_count\":12,\"detect_time_ms\":345}".to_vec()
    );
}

#[test]
fn zero_faces_response_matches_the_wire_format() {
    assert_eq!(
        build_response(0, 5),
        b"{\"face_count\":0,\"detect_time_ms\":5}".to_vec()
    );
}

#[test]
fn response_parses_back_to_what_built_it() {
    for (fc, ms) in [(0usize, 0u64), (1, 7), (42, 12345), (usize::MAX, u64::MAX)] {
        assert_eq!(parse_response(&build_response(fc, ms)), Some((fc as u64, ms)));
    }
}

#[test]
fn non_responses_do_not_parse() {
    assert_eq!(parse_response(&Vec::new()), None);
    assert_eq!(parse_response(&b"junk".to_vec()), None);
    assert_eq!(parse_response(&b"{\"face_count\":1,\"detect_time_ms\":2".to_vec()), None);
    // Not the canonical rendering: a redundant leading zero.
    assert_eq!(parse_response(&b"{\"face_count\":01,\"detect_time_ms\":2}".to_vec()), None);
    // A stray space is not part of the wire format.
    assert_eq!(parse_response(&b"{\"face_count\": 1,\"detect_time_ms\":2}".to_vec()), None);
}

#[test]
fn worker_count_defaults_when_absent() {
    assert_eq!(resolve_worker_count(None), 5);
}

#[test]
fn worker_count_takes_a_decimal_setting() {
    assert_eq!(resolve_worker_count(Some(&b"8".to_vec())), 8);
    assert_eq!(resolve_worker_count(Some(&b"+12".to_vec())), 12);
    assert_eq!(resolve_worker_count(Some(&b"0".to_vec())), 0);
    assert_eq!(resolve_worker_count(Some(&b"007".to_vec())), 7);
}

#[test]
fn worker_count_falls_back_on_anything_unparsable() {
    assert_eq!(resolve_worker_count(Some(&b"".to_vec())), 5);
    assert_eq!(resolve_worker_count(Some(&b"+".to_vec())), 5);
    assert_eq!(resolve_worker_count(Some(&b"abc".to_vec())), 5);
    assert_eq!(resolve_worker_count(Some(&b"3x".to_vec())), 5);
    assert_eq!(resolve_worker_count(Some(&b"-3".to_vec())), 5);
    assert_eq!(resolve_worker_count(Some(&b"3 ".to_vec())), 5);
    // More digits than any machine word holds.
    assert_eq!(
        resolve_worker_count(Some(&b"99999999999999999999999999".to_vec())),
        5
    );
}
