use crash_dedup::crash_identity::{
    CrashIdentity, CrashKind, ObservedExitKind, ResponseClass, ValidationErrorDiscriminants,
};

fn identity() -> CrashIdentity {
    CrashIdentity {
        exit_kind: ObservedExitKind::Crash,
        crash_kind: CrashKind::Http5xx,
        http_status: Some(500),
        validation_error_discriminant: None,
        endpoint: Some("POST /users".into()),
        response_class: ResponseClass::Json,
    }
}

#[test]
fn cluster_key_is_stable_for_equal_identities() {
    assert_eq!(identity().cluster_key(), identity().cluster_key());
}

#[test]
fn compatible_with_accepts_same_identity() {
    let baseline = identity();
    let candidate = identity();
    assert!(baseline.compatible_with(&candidate));
}

#[test]
fn compatible_with_rejects_different_crash_kind() {
    let baseline = identity();
    let mut candidate = identity();
    candidate.crash_kind = CrashKind::HttpResponseCrash;

    assert!(!baseline.compatible_with(&candidate));
}

#[test]
fn compatible_with_tolerates_absent_baseline_optional_fields() {
    let mut baseline = identity();
    baseline.endpoint = None;
    baseline.http_status = None;

    let candidate = identity();

    assert!(baseline.compatible_with(&candidate));
}

#[test]
fn compatible_with_rejects_missing_candidate_optional_field_when_baseline_has_it() {
    let baseline = identity();
    let mut candidate = identity();
    candidate.endpoint = None;

    assert!(!baseline.compatible_with(&candidate));
}

fn kind(name: &str) -> CrashKind {
    CrashKind::Validation(ValidationErrorDiscriminants::named(name.to_string()).unwrap())
}

#[test]
fn names_of_validation_errors_are_not_empty_and_hold_no_bar() {
    let named = |name: &str| ValidationErrorDiscriminants::named(name.to_string());
    assert_eq!(named("OperationNotInSpec").unwrap().name(), "OperationNotInSpec");
    assert_eq!(named("x").unwrap().clone(), named("x").unwrap());
    assert_ne!(named("x").unwrap(), named("y").unwrap());
    assert!(named("").is_none());
    assert!(named("|").is_none());
    assert!(named("Operation|NotInSpec").is_none());
    assert!(named("OperationNotInSpec|").is_none());
}

#[test]
fn cluster_key_joins_the_six_parts_with_bars() {
    assert_eq!(
        identity().cluster_key(),
        "Crash|http_5xx|500||POST /users|Json"
    );

    let full = CrashIdentity {
        exit_kind: ObservedExitKind::Timeout,
        crash_kind: kind("OperationNotInSpec"),
        http_status: Some(404),
        validation_error_discriminant: Some("OperationNotInSpec".into()),
        endpoint: Some("GET /items/{id}".into()),
        response_class: ResponseClass::InvalidJson,
    };
    assert_eq!(
        full.cluster_key(),
        "Timeout|validation_OperationNotInSpec|404|OperationNotInSpec|GET /items/{id}|InvalidJson"
    );

    let bare = CrashIdentity {
        exit_kind: ObservedExitKind::Crash,
        crash_kind: CrashKind::TransportTimeout,
        http_status: None,
        validation_error_discriminant: None,
        endpoint: None,
        response_class: ResponseClass::TransportTimeout,
    };
    assert_eq!(
        bare.cluster_key(),
        "Crash|transport_timeout||||TransportTimeout"
    );
}

#[test]
fn labels_are_as_reported() {
    let kinds = [
        (CrashKind::Http5xx, "http_5xx"),
        (kind("StatusNotSpecified"), "validation_StatusNotSpecified"),
        (CrashKind::HttpResponseCrash, "http_response_crash"),
        (CrashKind::TransportTimeout, "transport_timeout"),
        (CrashKind::TransportConnectionError, "transport_connection_error"),
        (CrashKind::TransportDecodeError, "transport_decode_error"),
        (CrashKind::TransportUnknownError, "transport_unknown_error"),
    ];
    for (kind, label) in kinds.iter() {
        assert_eq!(kind.to_string(), *label);
    }
    let classes = [
        (ResponseClass::Json, "Json"),
        (ResponseClass::Empty, "Empty"),
        (ResponseClass::Plaintext, "Plaintext"),
        (ResponseClass::Html, "Html"),
        (ResponseClass::InvalidJson, "InvalidJson"),
        (ResponseClass::BinaryOrUnknown, "BinaryOrUnknown"),
        (ResponseClass::TransportTimeout, "TransportTimeout"),
        (ResponseClass::TransportConnectionError, "TransportConnectionError"),
        (ResponseClass::TransportDecodeError, "TransportDecodeError"),
        (ResponseClass::TransportUnknownError, "TransportUnknownError"),
    ];
    for (class, label) in classes.iter() {
        assert_eq!(class.to_string(), *label);
    }
    assert_eq!(ObservedExitKind::Crash.to_string(), "Crash");
    assert_eq!(ObservedExitKind::Timeout.to_string(), "Timeout");
}

#[test]
fn distinct_identities_have_distinct_keys() {
    let mut keys = vec![identity().cluster_key()];
    let mut other = identity();
    other.http_status = Some(501);
    keys.push(other.cluster_key());
    let mut other = identity();
    other.http_status = None;
    keys.push(other.cluster_key());
    let mut other = identity();
    other.endpoint = Some("POST /users|Json".into());
    keys.push(other.cluster_key());
    let mut other = identity();
    other.crash_kind = kind("Http5xx");
    keys.push(other.cluster_key());
    let mut other = identity();
    other.response_class = ResponseClass::Html;
    keys.push(other.cluster_key());
    let mut other = identity();
    other.exit_kind = ObservedExitKind::Timeout;
    keys.push(other.cluster_key());
    for i in 0..keys.len() {
        for j in 0..i {
            assert_ne!(keys[i], keys[j]);
        }
    }
}

#[test]
fn an_empty_endpoint_is_keyed_like_an_absent_one() {
    let mut absent = identity();
    absent.endpoint = None;
    let mut empty = identity();
    empty.endpoint = Some(String::new());
    assert_eq!(absent.cluster_key(), empty.cluster_key());
    assert!(absent.compatible_with(&empty));
    assert!(!empty.compatible_with(&absent));
}

#[test]
fn compatible_with_compares_each_part() {
    let baseline = identity();
    let mut candidate = identity();
    candidate.exit_kind = ObservedExitKind::Timeout;
    assert!(!baseline.compatible_with(&candidate));
    let mut candidate = identity();
    candidate.response_class = ResponseClass::Empty;
    assert!(!baseline.compatible_with(&candidate));
    let mut candidate = identity();
    candidate.http_status = Some(502);
    assert!(!baseline.compatible_with(&candidate));
    let mut candidate = identity();
    candidate.endpoint = Some("GET /users".into());
    assert!(!baseline.compatible_with(&candidate));
    let mut candidate = identity();
    candidate.validation_error_discriminant = Some("StatusNotSpecified".into());
    assert!(baseline.compatible_with(&candidate));
    assert!(!candidate.compatible_with(&baseline));
    let mut named = identity();
    named.crash_kind = kind("StatusNotSpecified");
    let mut other = identity();
    other.crash_kind = kind("OperationNotInSpec");
    assert!(named.compatible_with(&named.clone()));
    assert!(!named.compatible_with(&other));
}

#[test]
fn compatibility_is_transitive() {
    let mut open = identity();
    open.endpoint = None;
    open.http_status = None;
    let mut half = identity();
    half.endpoint = None;
    let full = identity();
    assert!(open.compatible_with(&half));
    assert!(half.compatible_with(&full));
    assert!(open.compatible_with(&full));
}

#[test]
fn identities_that_are_compatible_both_ways_have_one_key() {
    let a = identity();
    let mut b = identity();
    assert!(a.compatible_with(&b) && b.compatible_with(&a));
    assert_eq!(a, b);
    assert_eq!(a.cluster_key(), b.cluster_key());
    b.http_status = None;
    assert!(b.compatible_with(&a));
    assert!(!a.compatible_with(&b));
    assert_ne!(a.cluster_key(), b.cluster_key());
}
