use crash_dedup::crash_identity::{
    CrashKind, ObservedExitKind, ResponseClass, ValidationErrorDiscriminants,
};
use crash_dedup::crash_replay::{
    classify_body, classify_transport, classify_transport_crash, coarse_response_class,
    looks_like_html, observed_response_identity, response_crash_kind, transport_crash_kind,
    transport_response_class, HttpStatus, Response,
};

fn validation_error() -> ValidationErrorDiscriminants {
    ValidationErrorDiscriminants::named("OperationNotInSpec".into()).unwrap()
}

fn internal_server_error() -> HttpStatus {
    HttpStatus::from_u16(reqwest::StatusCode::INTERNAL_SERVER_ERROR.as_u16()).unwrap()
}

fn bad_request() -> HttpStatus {
    HttpStatus::from_u16(reqwest::StatusCode::BAD_REQUEST.as_u16()).unwrap()
}

#[test]
fn response_crash_kind_prefers_http_5xx() {
    let validation_error = validation_error();

    assert_eq!(
        response_crash_kind(internal_server_error(), Some(&validation_error)),
        CrashKind::Http5xx
    );
}

#[test]
fn response_crash_kind_uses_validation_discriminant_for_non_5xx_crash() {
    let error = validation_error();

    assert_eq!(
        response_crash_kind(bad_request(), Some(&error)),
        CrashKind::Validation(validation_error())
    );
}

#[test]
fn response_crash_kind_falls_back_for_unclassified_response_crash() {
    assert_eq!(
        response_crash_kind(bad_request(), None),
        CrashKind::HttpResponseCrash
    );
}

#[test]
fn looks_like_html_recognizes_common_html_bodies() {
    assert!(looks_like_html("<!doctype html><html></html>"));
    assert!(looks_like_html("  <html><body>error</body></html>"));
    assert!(looks_like_html("prefix <body>error</body>"));
    assert!(!looks_like_html("{\"error\":\"not html\"}"));
}

#[test]
fn observed_response_identity_contains_core_signals() {
    let identity = observed_response_identity(
        internal_server_error(),
        None,
        Some("GET /items/{id}".into()),
        ResponseClass::Json,
    );

    assert_eq!(identity.exit_kind, ObservedExitKind::Crash);
    assert_eq!(identity.crash_kind, CrashKind::Http5xx);
    assert_eq!(identity.http_status, Some(500));
    assert_eq!(identity.validation_error_discriminant, None);
    assert_eq!(identity.endpoint.as_deref(), Some("GET /items/{id}"));
    assert_eq!(identity.response_class, ResponseClass::Json);
}

#[test]
fn observed_response_identity_records_validation_discriminant() {
    let error = validation_error();

    let identity = observed_response_identity(
        bad_request(),
        Some(&error),
        Some("GET /items/{id}".into()),
        ResponseClass::Json,
    );

    assert_eq!(
        identity.validation_error_discriminant.as_deref(),
        Some("OperationNotInSpec")
    );
    assert_eq!(
        identity.crash_kind,
        CrashKind::Validation(validation_error())
    );
}

#[test]
fn server_errors_record_their_validation_error_too() {
    let error = validation_error();
    let identity =
        observed_response_identity(internal_server_error(), Some(&error), None, ResponseClass::Html);
    assert_eq!(identity.crash_kind, CrashKind::Http5xx);
    assert_eq!(
        identity.validation_error_discriminant.as_deref(),
        Some("OperationNotInSpec")
    );
    assert_eq!(identity.endpoint, None);
}

#[test]
fn looks_like_html_ignores_case_and_leading_white_space() {
    assert!(looks_like_html("\n\t<!DOCTYPE HTML><HTML>"));
    assert!(looks_like_html("\u{3000}<HtMl lang=en>"));
    assert!(looks_like_html(" \r\n\u{a0}\u{2028}\t\t  <html>"));
    assert!(!looks_like_html(" \r\n\u{a0}\u{2028}\t\t  html>"));
    assert!(looks_like_html("<BODY>"));
    assert!(!looks_like_html("text <html>"));
    assert!(!looks_like_html("<!doctype  html>"));
    assert!(!looks_like_html(""));
    assert!(!looks_like_html("<bod"));
}

fn class_of(body: &[u8]) -> ResponseClass {
    coarse_response_class(&Response {
        body: body.to_vec(),
    })
}

#[test]
fn responses_are_classified_by_their_body() {
    assert_eq!(class_of(b""), ResponseClass::Empty);
    assert_eq!(class_of(b"{\"a\": [1, null]}"), ResponseClass::Json);
    assert_eq!(class_of(b" 12 "), ResponseClass::Json);
    assert_eq!(class_of(b"{\"a\": "), ResponseClass::InvalidJson);
    assert_eq!(class_of(b"  [1, 2"), ResponseClass::InvalidJson);
    assert_eq!(class_of(b"[<body>"), ResponseClass::InvalidJson);
    assert_eq!(class_of(b"<html></html>"), ResponseClass::Html);
    assert_eq!(class_of(b"Internal Server Error"), ResponseClass::Plaintext);
    assert_eq!(class_of(b"   "), ResponseClass::Plaintext);
    assert_eq!(class_of("\u{fc}ber".as_bytes()), ResponseClass::Plaintext);
    assert_eq!(class_of(&[0xff, 0xfe, 0x00]), ResponseClass::BinaryOrUnknown);
    assert_eq!(class_of(&[b'"', 0xff, b'"']), ResponseClass::BinaryOrUnknown);
}

#[test]
fn bodies_are_classified_from_what_was_found_out() {
    assert_eq!(classify_body(true, true, Some("1")), ResponseClass::Empty);
    assert_eq!(classify_body(false, true, Some("{")), ResponseClass::Json);
    assert_eq!(classify_body(false, false, Some("{}")), ResponseClass::InvalidJson);
    assert_eq!(classify_body(false, false, Some("")), ResponseClass::Plaintext);
    assert_eq!(classify_body(false, false, None), ResponseClass::BinaryOrUnknown);
}

#[test]
fn status_codes_are_those_of_the_client() {
    for code in 0..=u16::MAX {
        let theirs = reqwest::StatusCode::from_u16(code).ok();
        let ours = HttpStatus::from_u16(code);
        assert_eq!(ours.is_some(), theirs.is_some());
        if let (Some(ours), Some(theirs)) = (ours, theirs) {
            assert_eq!(ours.as_u16(), code);
            assert_eq!(ours.is_server_error(), theirs.is_server_error());
        }
    }
    assert_eq!(HttpStatus::from_u16(99), None);
    assert_eq!(HttpStatus::from_u16(1000), None);
    assert!(!HttpStatus::from_u16(499).unwrap().is_server_error());
    assert!(HttpStatus::from_u16(500).unwrap().is_server_error());
    assert!(HttpStatus::from_u16(599).unwrap().is_server_error());
    assert!(!HttpStatus::from_u16(600).unwrap().is_server_error());
}

#[test]
fn transport_errors_are_classified_by_their_first_property() {
    let cases = [
        (true, true, true, ResponseClass::TransportTimeout, CrashKind::TransportTimeout),
        (
            false,
            true,
            true,
            ResponseClass::TransportConnectionError,
            CrashKind::TransportConnectionError,
        ),
        (
            false,
            false,
            true,
            ResponseClass::TransportDecodeError,
            CrashKind::TransportDecodeError,
        ),
        (
            false,
            false,
            false,
            ResponseClass::TransportUnknownError,
            CrashKind::TransportUnknownError,
        ),
    ];
    for (timeout, connect, decode, class, kind) in cases.iter() {
        assert_eq!(classify_transport(*timeout, *connect, *decode), *class);
        assert_eq!(classify_transport_crash(*timeout, *connect, *decode), *kind);
    }
}

#[test]
fn a_request_that_cannot_be_built_is_an_unknown_transport_error() {
    let error = reqwest::blocking::Client::new()
        .get("not a url")
        .build()
        .unwrap_err();
    assert_eq!(
        transport_response_class(&error),
        ResponseClass::TransportUnknownError
    );
    assert_eq!(transport_crash_kind(&error), CrashKind::TransportUnknownError);
}

#[test]
fn a_body_that_is_not_json_is_a_decode_error() {
    let response = reqwest::blocking::Response::from(http::Response::new("not json"));
    let error = response.json::<serde_json::Value>().unwrap_err();
    assert_eq!(
        transport_response_class(&error),
        ResponseClass::TransportDecodeError
    );
    assert_eq!(transport_crash_kind(&error), CrashKind::TransportDecodeError);
}

#[test]
fn a_refused_connection_is_a_connection_error() {
    let error = reqwest::blocking::Client::builder()
        .no_proxy()
        .build()
        .unwrap()
        .get("http://127.0.0.1:1/")
        .send()
        .unwrap_err();
    assert_eq!(
        transport_response_class(&error),
        classify_transport(error.is_timeout(), error.is_connect(), error.is_decode())
    );
    assert_eq!(
        transport_response_class(&error),
        ResponseClass::TransportConnectionError
    );
    assert_eq!(
        transport_crash_kind(&error),
        CrashKind::TransportConnectionError
    );
}
