use blake2::Digest;
use grcache::hash::{cache_key, hash_body, hash_vary, join_values, KeyHasher};
use grcache::headers::{
    check_text, core_header, find_strip_headers, make_vary_headers_set, normalize_name,
    HeaderError, HeaderSet,
};
use grcache::status::{
    parse_magnitude, parse_number, parse_status_code, GrpcStatus, ParseError,
};
use http::{HeaderMap, HeaderName, HeaderValue};

fn names(set: &HeaderSet) -> Vec<String> {
    (0..set.len()).map(|i| String::from_utf8(set.name(i).clone()).unwrap()).collect()
}

fn digest(data: &[u8]) -> [u8; 16] {
    let mut hasher = blake2::Blake2b::<blake2::digest::consts::U16>::new();
    hasher.update(data);
    hasher.finalize().into()
}

#[test]
fn vary_names_are_split_trimmed_folded_and_ordered() {
    let mut headers = HeaderMap::new();
    headers.append("vary", HeaderValue::from_static("X-Tenant, accept-language"));
    headers.append("Vary", HeaderValue::from_static("  X-b\t,x-tenant"));
    headers.insert("x-other", HeaderValue::from_static("vary"));
    let set = make_vary_headers_set(&headers).unwrap();
    assert_eq!(names(&set), vec!["accept-language", "x-b", "x-tenant"]);
    assert!(set.contains(b"x-b"));
    assert!(!set.contains(b"X-b"));
}

#[test]
fn vary_set_without_vary_header_is_empty() {
    let set = make_vary_headers_set(&HeaderMap::new()).unwrap();
    assert_eq!(set.len(), 0);
}

#[test]
fn vary_value_with_empty_pieces_gives_the_empty_name() {
    let mut headers = HeaderMap::new();
    headers.insert("vary", HeaderValue::from_static("a,, b ,"));
    let set = make_vary_headers_set(&headers).unwrap();
    assert_eq!(names(&set), vec!["", "a", "b"]);
}

#[test]
fn vary_value_that_is_no_text_is_refused() {
    let mut headers = HeaderMap::new();
    headers.append("vary", HeaderValue::from_static("a"));
    headers.append("vary", HeaderValue::from_bytes(b"x-\xe9").unwrap());
    assert_eq!(make_vary_headers_set(&headers).unwrap_err(), HeaderError::InvalidVaryHeader);
    assert!(check_text(b"plain text\twith tab"));
    assert!(!check_text(b"del\x7f"));
    assert!(!check_text(b"\n"));
    assert!(!check_text(&[0x80]));
}

#[test]
fn header_names_are_normalized() {
    assert_eq!(normalize_name(b"  X-Foo\t ", 0, 9), b"x-foo");
    assert_eq!(normalize_name(b"a, B ,c", 2, 5), b"b");
    assert_eq!(normalize_name(b"   ", 0, 3), b"");
    assert_eq!(normalize_name(b"A b", 0, 3), b"a b");
}

#[test]
fn header_set_keeps_names_in_order_without_repeats() {
    let mut set = HeaderSet::new();
    for name in ["b", "a", "ab", "b", "", "B", "a"] {
        set.insert(name.as_bytes().to_vec());
    }
    assert_eq!(names(&set), vec!["", "B", "a", "ab", "b"]);
    assert_eq!(set.len(), 5);
}

#[test]
fn core_headers_are_the_five() {
    for name in ["host", "content-type", "te", "vary", "user-agent"] {
        assert!(core_header(name.as_bytes()));
    }
    for name in ["Host", "cookie", "", "t", "content-typ", "user-agent "] {
        assert!(!core_header(name.as_bytes()));
    }
}

#[test]
fn strip_headers_are_all_but_core_vary_and_propagation() {
    let mut headers = HeaderMap::new();
    headers.insert("host", HeaderValue::from_static("h"));
    headers.insert("authorization", HeaderValue::from_static("secret"));
    headers.append("x-tenant", HeaderValue::from_static("a"));
    headers.append("x-tenant", HeaderValue::from_static("b"));
    headers.insert("te", HeaderValue::from_static("trailers"));
    headers.insert("x-trace", HeaderValue::from_static("t"));
    headers.insert("cookie", HeaderValue::from_static("c"));
    let mut vary = HeaderSet::new();
    vary.insert(b"x-tenant".to_vec());
    let mut propagation = HeaderSet::new();
    propagation.insert(b"x-trace".to_vec());

    let strip = find_strip_headers(&headers, &vary, &propagation);
    assert_eq!(strip, vec!["authorization".to_string(), "cookie".to_string()]);

    let all = find_strip_headers(&headers, &HeaderSet::new(), &HeaderSet::new());
    assert_eq!(
        all,
        vec![
            "authorization".to_string(),
            "x-tenant".to_string(),
            "x-trace".to_string(),
            "cookie".to_string()
        ]
    );
}

#[test]
fn status_is_read_from_the_first_value() {
    let mut trailers = HeaderMap::new();
    assert_eq!(GrpcStatus::parse(&trailers).unwrap_err(), ParseError::NoStatusHeader);
    trailers.append("grpc-status", HeaderValue::from_static("0"));
    trailers.append("grpc-status", HeaderValue::from_static("7"));
    let status = GrpcStatus::parse(&trailers).unwrap();
    assert!(status.is_ok());
    assert_eq!(status.code(), 0);

    let mut trailers = HeaderMap::new();
    trailers.insert(HeaderName::from_static("grpc-status"), HeaderValue::from_static("14"));
    let status = GrpcStatus::parse(&trailers).unwrap();
    assert!(!status.is_ok());
    assert_eq!(status.code(), 14);

    let mut trailers = HeaderMap::new();
    trailers.insert("grpc-status", HeaderValue::from_bytes(b"\xff").unwrap());
    assert_eq!(GrpcStatus::parse(&trailers).unwrap_err(), ParseError::InvalidStatusHeaderText);

    // Every integer is a status; only zero reports success.
    for (text, code) in [("256", 256i64), ("-1", -1), ("+0", 0), ("-0", 0), ("4294967296", 1 << 32)] {
        let mut trailers = HeaderMap::new();
        trailers.insert("grpc-status", HeaderValue::from_static(text));
        let status = GrpcStatus::parse(&trailers).unwrap();
        assert_eq!(status.code(), code);
        assert_eq!(status.is_ok(), code == 0);
    }

    for text in ["", "ok", "1x", "+", "-", "--1", "1.0", " 1"] {
        let mut trailers = HeaderMap::new();
        trailers.insert("grpc-status", HeaderValue::from_static(text));
        assert_eq!(
            GrpcStatus::parse(&trailers).unwrap_err(),
            ParseError::InvalidStatusHeaderInt,
            "{:?}",
            text
        );
    }
}

#[test]
fn status_code_reads_as_the_standard_library_reads_an_integer() {
    let texts = [
        "", "0", "7", "007", "255", "256", "0255", "999", "+", "-", "+1", "-1", "+0", "-0", "++1",
        "+-1", "-+1", "1+", " 1", "1 ", "a", "1a", "0x1", "65536", "-2147483649",
        "9223372036854775806", "9223372036854775807", "-9223372036854775807",
        "00000000000000000000000255", "\u{663}", "2 5",
    ];
    for text in texts {
        assert_eq!(parse_status_code(text.as_bytes()), text.parse::<i64>().ok(), "{:?}", text);
    }
}

#[test]
fn status_code_beyond_the_kept_range_is_kept_at_its_end() {
    assert_eq!(parse_status_code(b"9223372036854775808"), Some(i64::MAX));
    assert_eq!(parse_status_code(b"12345678901234567890"), Some(i64::MAX));
    assert_eq!(parse_status_code(b"-9223372036854775808"), Some(-i64::MAX));
    assert_eq!(
        parse_status_code(b"-99999999999999999999999999999999999999999999"),
        Some(-i64::MAX)
    );
    assert_eq!(parse_magnitude(b"x00042y", 1, 6), Some(42));
    assert_eq!(parse_magnitude(b"x00042y", 1, 7), None);
    assert_eq!(parse_magnitude(b"x00042y", 3, 3), None);
}

#[test]
fn numbers_are_read_up_to_their_limit() {
    assert_eq!(parse_number(b"65535", 0, 5, 65535), Some(65535));
    assert_eq!(parse_number(b"65536", 0, 5, 65535), None);
    assert_eq!(parse_number(b"x12y", 1, 3, 255), Some(12));
    assert_eq!(parse_number(b"x12y", 1, 1, 255), None);
    assert_eq!(parse_number(b"x12y", 0, 3, 255), None);
}

#[test]
fn values_are_joined_with_comma_and_space() {
    assert_eq!(join_values(&vec![]), b"");
    assert_eq!(join_values(&vec![b"a".to_vec()]), b"a");
    assert_eq!(join_values(&vec![b"a".to_vec(), b"".to_vec(), b"bc".to_vec()]), b"a, , bc");
}

#[test]
fn fingerprint_covers_vary_headers_path_and_body() {
    let mut headers = HeaderMap::new();
    headers.append("x-tenant", HeaderValue::from_static("a"));
    headers.append("X-Tenant", HeaderValue::from_static("b"));
    headers.insert("accept-language", HeaderValue::from_static("en"));
    let mut vary = HeaderSet::new();
    vary.insert(b"x-tenant".to_vec());
    vary.insert(b"accept-language".to_vec());
    vary.insert(b"x-absent".to_vec());

    let key = cache_key(&vary, &headers, b"/pkg.S/M", b"body");

    let mut preimage: Vec<u8> = Vec::new();
    preimage.extend_from_slice(b"accept-language\0en\0\0");
    preimage.extend_from_slice(b"x-absent\0\0\0");
    preimage.extend_from_slice(b"x-tenant\0a, b\0\0");
    preimage.extend_from_slice(&[8, 0, 0, 0, 0, 0, 0, 0]);
    preimage.extend_from_slice(b"/pkg.S/M");
    preimage.extend_from_slice(&[4, 0, 0, 0, 0, 0, 0, 0]);
    preimage.extend_from_slice(b"body");
    assert_eq!(key, digest(&preimage));

    // The same through the hasher, piece by piece.
    let mut hasher = KeyHasher::new();
    hash_vary(&mut hasher, &vary, &headers);
    hash_body(&mut hasher, b"/pkg.S/M", b"body");
    assert_eq!(hasher.finalize(), key);

    // Any change changes the fingerprint.
    assert_ne!(cache_key(&vary, &headers, b"/pkg.S/N", b"body"), key);
    assert_ne!(cache_key(&vary, &headers, b"/pkg.S/M", b"bodz"), key);
    assert_ne!(cache_key(&HeaderSet::new(), &headers, b"/pkg.S/M", b"body"), key);
    headers.insert("accept-language", HeaderValue::from_static("de"));
    assert_ne!(cache_key(&vary, &headers, b"/pkg.S/M", b"body"), key);
}

#[test]
fn fingerprint_of_an_empty_request() {
    let key = cache_key(&HeaderSet::new(), &HeaderMap::new(), b"", b"");
    assert_eq!(key, digest(&[0u8; 16]));
    // BLAKE2b-128 of sixteen zero bytes is not sixteen zero bytes.
    assert_ne!(key, [0u8; 16]);
}

#[test]
fn hasher_updates_are_concatenated() {
    let mut hasher = KeyHasher::new();
    hasher.update(b"ab");
    hasher.update(b"");
    hasher.update(b"c");
    assert_eq!(hasher.finalize(), digest(b"abc"));
    assert_eq!(
        KeyHasher::new().finalize(),
        [0xca, 0xe6, 0x69, 0x41, 0xd9, 0xef, 0xbd, 0x40, 0x4e, 0x4d, 0x88, 0x75, 0x8e, 0xa6, 0x76,
            0x70]
    );
}
