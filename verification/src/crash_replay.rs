//! What is observed when a crash input is replayed: the class of a response or
//! of a transport error, and the identity of the crash.

use crate::crash_identity::{
    CrashIdentity, CrashIdentityView, CrashKind, CrashKindView, ObservedExitKind, ResponseClass,
    ValidationErrorDiscriminants,
};
use crate::crash_identity;
use crate::text;
use crate::text::{
    chars_of, contains, leading_white_space, starts_with, to_ascii_lower, utf8_text,
};
use vstd::prelude::*;

verus! {

/// A crash that a replay reproduced.
#[derive(Clone, Debug, PartialEq, Eq)]
pub struct ObservedCrash {
    pub identity: CrashIdentity,
    /// The request of the input that crashed the service.
    pub crashing_request_index: usize,
    /// The name that a benchmark service gives the crash, if it does.
    pub oracle_crash_id: Option<String>,
}

/// An observed crash, with its text as sequences.
pub struct ObservedCrashView {
    pub identity: CrashIdentityView,
    pub crashing_request_index: usize,
    pub oracle_crash_id: Option<Seq<char>>,
}

impl View for ObservedCrash {
    type V = ObservedCrashView;

    open spec fn view(&self) -> ObservedCrashView {
        ObservedCrashView {
            identity: self.identity@,
            crashing_request_index: self.crashing_request_index,
            oracle_crash_id: crash_identity::text_option(self.oracle_crash_id),
        }
    }
}

/// The response of a service, as far as its class depends on it.
#[derive(Clone, Debug, PartialEq, Eq)]
pub struct Response {
    pub body: Vec<u8>,
}

/// `serde_json::from_slice` reads the bytes as a JSON value.
pub uninterp spec fn is_json_value(bytes: Seq<u8>) -> bool;

/// `serde_json::from_slice`, asked for a `serde_json::Value`: whether it
/// succeeds, which depends on the bytes alone.
#[verifier::external_body]
fn parses_as_json(bytes: &[u8]) -> (yes: bool)
    ensures
        yes == is_json_value(bytes@),
{
    serde_json::from_slice::<serde_json::Value>(bytes).is_ok()
}

/// The text reads like an HTML document.
pub open spec fn reads_like_html(text: Seq<char>) -> bool {
    let start = text::ascii_lowered(text::trimmed_start(text));
    ||| text::begins_with(start, "<!doctype html>"@)
    ||| text::begins_with(start, "<html"@)
    ||| text::holds_part(start, "<body"@)
}

/// Whether the text reads like an HTML document: whether, white space in front
/// and the case of letters aside, it starts like one or has a body.
pub fn looks_like_html(text: &str) -> (yes: bool)
    ensures
        yes == reads_like_html(text@),
{
    let chars = chars_of(text);
    let from = leading_white_space(&chars);
    let mut lowered: Vec<char> = Vec::new();
    let ghost rest = chars@.skip(from as int);
    let mut i: usize = from;
    while i < chars.len()
        invariant
            from <= i <= chars@.len(),
            rest == chars@.skip(from as int),
            lowered@ == text::ascii_lowered(rest.take(i - from)),
        decreases chars@.len() - i,
    {
        lowered.push(to_ascii_lower(chars[i]));
        i = i + 1;
        assert(rest.take(i - from) =~= rest.take(i - 1 - from).push(chars@[i - 1]));
        assert(lowered@ =~= text::ascii_lowered(rest.take(i - from)));
    }
    assert(rest.take(rest.len() as int) =~= rest);
    starts_with(&lowered, "<!doctype html>") || starts_with(&lowered, "<html") || contains(
        &lowered,
        "<body",
    )
}

/// The class of a response whose body is empty or not, is a JSON value or not,
/// and is the given text if it is text at all.
pub open spec fn body_class(
    is_empty: bool,
    is_json: bool,
    decoded: Option<Seq<char>>,
) -> ResponseClass {
    if is_empty {
        ResponseClass::Empty
    } else if is_json {
        ResponseClass::Json
    } else {
        match decoded {
            Some(body) => {
                let start = text::trimmed_start(body);
                if text::begins_with(start, "{"@) || text::begins_with(start, "["@) {
                    ResponseClass::InvalidJson
                } else if reads_like_html(body) {
                    ResponseClass::Html
                } else {
                    ResponseClass::Plaintext
                }
            },
            None => ResponseClass::BinaryOrUnknown,
        }
    }
}

/// The class of a response, from what was found out about its body.
pub fn classify_body(is_empty: bool, is_json: bool, body: Option<&str>) -> (class: ResponseClass)
    ensures
        class == body_class(
            is_empty,
            is_json,
            match body {
                Some(decoded) => Some(decoded@),
                None => None,
            },
        ),
        class is Empty <==> is_empty,
        class is Json <==> is_json && !is_empty,
        class is BinaryOrUnknown <==> body is None && !is_json && !is_empty,
{
    if is_empty {
        return ResponseClass::Empty;
    }
    if is_json {
        return ResponseClass::Json;
    }
    match body {
        Some(decoded) => {
            let chars = chars_of(decoded);
            let from = leading_white_space(&chars);
            proof {
                reveal_strlit("{");
                reveal_strlit("[");
            }
            let ghost start = chars@.skip(from as int);
            proof {
                assert("{"@ =~= seq!['{']);
                assert("["@ =~= seq!['[']);
                text::lemma_begins_with_char(start, '{');
                text::lemma_begins_with_char(start, '[');
            }
            if from < chars.len() && (chars[from] == '{' || chars[from] == '[') {
                ResponseClass::InvalidJson
            } else if looks_like_html(decoded) {
                ResponseClass::Html
            } else {
                ResponseClass::Plaintext
            }
        },
        None => ResponseClass::BinaryOrUnknown,
    }
}

impl Response {
    /// The text of the body, if it is text.
    pub open spec fn decoded(self) -> Option<Seq<char>> {
        if vstd::utf8::valid_utf8(self.body@) {
            Some(vstd::utf8::decode_utf8(self.body@))
        } else {
            None
        }
    }
}

/// The class of a response.
pub fn coarse_response_class(response: &Response) -> (class: ResponseClass)
    ensures
        class == body_class(
            response.body@.len() == 0,
            is_json_value(response.body@),
            response.decoded(),
        ),
{
    let body = response.body.as_slice();
    classify_body(response.body.len() == 0, parses_as_json(body), utf8_text(body))
}

/// The status code of a response: a number from 100 to 999.
#[derive(Clone, Copy, Debug, PartialEq, Eq)]
pub struct HttpStatus {
    code: u16,
}

/// `StatusCode::from_u16` accepts the numbers from 100 to 999 and no other.
#[verifier::external_body]
fn is_status_code(code: u16) -> (yes: bool)
    ensures
        yes == (100 <= code < 1000),
{
    reqwest::StatusCode::from_u16(code).is_ok()
}

/// `StatusCode::is_server_error` holds of the codes from 500 to 599; there is
/// no answer for a number that is no status code.
#[verifier::external_body]
fn is_server_error_code(code: u16) -> (yes: Option<bool>)
    ensures
        yes == (if 100 <= code < 1000 {
            Some(500 <= code < 600)
        } else {
            None
        }),
{
    match reqwest::StatusCode::from_u16(code) {
        Ok(status) => Some(status.is_server_error()),
        Err(_) => None,
    }
}

impl View for HttpStatus {
    type V = u16;

    closed spec fn view(&self) -> u16 {
        self.code
    }
}

impl HttpStatus {
    #[verifier::type_invariant]
    closed spec fn in_range(self) -> bool {
        100 <= self.code < 1000
    }

    /// The status with this code, if the number is a status code.
    pub fn from_u16(code: u16) -> (status: Option<HttpStatus>)
        ensures
            status is Some <==> 100 <= code < 1000,
            status matches Some(made) ==> made@ == code,
    {
        if is_status_code(code) {
            Some(HttpStatus { code })
        } else {
            None
        }
    }

    /// The code.
    pub fn as_u16(&self) -> (code: u16)
        ensures
            code == self@,
            100 <= code < 1000,
    {
        proof {
            use_type_invariant(self);
        }
        self.code
    }

    /// Whether the service reports an error of its own.
    pub fn is_server_error(&self) -> (yes: bool)
        ensures
            yes == (500 <= self@ < 600),
    {
        proof {
            use_type_invariant(self);
        }
        is_server_error_code(self.code).unwrap_or(false)
    }
}

/// The name of a validation error, if there is one.
pub open spec fn error_name(error: Option<&ValidationErrorDiscriminants>) -> Option<Seq<char>> {
    match error {
        Some(discriminant) => Some(discriminant@),
        None => None,
    }
}

/// The kind of crash that a response with this status, and with this
/// validation error or none, is.
pub open spec fn response_kind(status: u16, error: Option<Seq<char>>) -> CrashKindView {
    if 500 <= status < 600 {
        CrashKindView::Http5xx
    } else {
        match error {
            Some(name) => CrashKindView::Validation(name),
            None => CrashKindView::HttpResponseCrash,
        }
    }
}

/// The kind of crash that a response is.
pub fn response_crash_kind(
    status: HttpStatus,
    validation_error: Option<&ValidationErrorDiscriminants>,
) -> (kind: CrashKind)
    ensures
        kind@ == response_kind(status@, error_name(validation_error)),
        kind is Http5xx <==> 500 <= status@ < 600,
        kind is Validation <==> !(500 <= status@ < 600) && validation_error is Some,
        kind matches CrashKind::Validation(error) ==> error@ == validation_error->0@,
        kind is HttpResponseCrash <==> !(500 <= status@ < 600) && validation_error is None,
{
    if status.is_server_error() {
        return CrashKind::Http5xx;
    }
    match validation_error {
        Some(discriminant) => CrashKind::Validation(discriminant.clone()),
        None => CrashKind::HttpResponseCrash,
    }
}

/// The identity of a crash that a response showed.
pub fn observed_response_identity(
    status: HttpStatus,
    validation_error: Option<&ValidationErrorDiscriminants>,
    endpoint: Option<String>,
    response_class: ResponseClass,
) -> (identity: CrashIdentity)
    ensures
        identity@ == (CrashIdentityView {
            exit_kind: ObservedExitKind::Crash,
            crash_kind: response_kind(status@, error_name(validation_error)),
            http_status: Some(status@),
            validation_error_discriminant: error_name(validation_error),
            endpoint: crash_identity::text_option(endpoint),
            response_class,
        }),
        identity@.crash_kind.valid(),
        identity@.validation_error_discriminant matches Some(name)
            ==> crash_identity::valid_error_name(name),
{
    CrashIdentity {
        exit_kind: ObservedExitKind::Crash,
        crash_kind: response_crash_kind(status, validation_error),
        http_status: Some(status.as_u16()),
        validation_error_discriminant: match validation_error {
            Some(discriminant) => Some(discriminant.name().to_owned()),
            None => None,
        },
        endpoint,
        response_class,
    }
}

/// An error of the HTTP client.
#[verifier::external_type_specification]
#[verifier::external_body]
pub struct ExReqwestError(reqwest::Error);

/// The error is related to a timeout.
pub uninterp spec fn error_is_timeout(error: reqwest::Error) -> bool;

/// The error is related to connecting.
pub uninterp spec fn error_is_connect(error: reqwest::Error) -> bool;

/// The error is related to decoding the body of a response.
pub uninterp spec fn error_is_decode(error: reqwest::Error) -> bool;

/// `reqwest::Error::is_timeout` depends on the error alone.
pub assume_specification[ reqwest::Error::is_timeout ](error: &reqwest::Error) -> (yes: bool)
    ensures
        yes == error_is_timeout(*error),
;

/// `reqwest::Error::is_connect` depends on the error alone.
pub assume_specification[ reqwest::Error::is_connect ](error: &reqwest::Error) -> (yes: bool)
    ensures
        yes == error_is_connect(*error),
;

/// `reqwest::Error::is_decode` depends on the error alone.
pub assume_specification[ reqwest::Error::is_decode ](error: &reqwest::Error) -> (yes: bool)
    ensures
        yes == error_is_decode(*error),
;

/// The class of a transport error with these properties.
pub open spec fn transport_class(timeout: bool, connect: bool, decode: bool) -> ResponseClass {
    if timeout {
        ResponseClass::TransportTimeout
    } else if connect {
        ResponseClass::TransportConnectionError
    } else if decode {
        ResponseClass::TransportDecodeError
    } else {
        ResponseClass::TransportUnknownError
    }
}

/// The kind of crash that a transport error with these properties is.
pub open spec fn transport_kind(timeout: bool, connect: bool, decode: bool) -> CrashKindView {
    if timeout {
        CrashKindView::TransportTimeout
    } else if connect {
        CrashKindView::TransportConnectionError
    } else if decode {
        CrashKindView::TransportDecodeError
    } else {
        CrashKindView::TransportUnknownError
    }
}

/// The class of a transport error, from what was found out about it.
pub fn classify_transport(timeout: bool, connect: bool, decode: bool) -> (class: ResponseClass)
    ensures
        class is TransportTimeout <==> timeout,
        class is TransportConnectionError <==> connect && !timeout,
        class is TransportDecodeError <==> decode && !connect && !timeout,
        class is TransportUnknownError <==> !decode && !connect && !timeout,
        class == transport_class(timeout, connect, decode),
{
    if timeout {
        ResponseClass::TransportTimeout
    } else if connect {
        ResponseClass::TransportConnectionError
    } else if decode {
        ResponseClass::TransportDecodeError
    } else {
        ResponseClass::TransportUnknownError
    }
}

/// The kind of crash that a transport error is, from what was found out about
/// it.
pub fn classify_transport_crash(timeout: bool, connect: bool, decode: bool) -> (kind: CrashKind)
    ensures
        kind is TransportTimeout <==> timeout,
        kind is TransportConnectionError <==> connect && !timeout,
        kind is TransportDecodeError <==> decode && !connect && !timeout,
        kind is TransportUnknownError <==> !decode && !connect && !timeout,
        kind@ == transport_kind(timeout, connect, decode),
{
    if timeout {
        CrashKind::TransportTimeout
    } else if connect {
        CrashKind::TransportConnectionError
    } else if decode {
        CrashKind::TransportDecodeError
    } else {
        CrashKind::TransportUnknownError
    }
}

/// The class of a transport error.
pub fn transport_response_class(error: &reqwest::Error) -> (class: ResponseClass)
    ensures
        class == transport_class(
            error_is_timeout(*error),
            error_is_connect(*error),
            error_is_decode(*error),
        ),
{
    classify_transport(error.is_timeout(), error.is_connect(), error.is_decode())
}

/// The kind of crash that a transport error is.
pub fn transport_crash_kind(error: &reqwest::Error) -> (kind: CrashKind)
    ensures
        kind@ == transport_kind(
            error_is_timeout(*error),
            error_is_connect(*error),
            error_is_decode(*error),
        ),
{
    classify_transport_crash(error.is_timeout(), error.is_connect(), error.is_decode())
}

/// A server error is one whatever validation says about the response.
pub proof fn law_server_errors_prevail(status: u16, error: Option<Seq<char>>)
    ensures
        response_kind(status, error) is Http5xx <==> 500 <= status < 600,
{
}

/// The class and the kind of a transport error always say the same.
pub proof fn law_transport_class_and_kind_agree(timeout: bool, connect: bool, decode: bool)
    ensures
        transport_class(timeout, connect, decode) is TransportTimeout <==> transport_kind(
            timeout,
            connect,
            decode,
        ) is TransportTimeout,
        transport_class(timeout, connect, decode) is TransportConnectionError <==> transport_kind(
            timeout,
            connect,
            decode,
        ) is TransportConnectionError,
        transport_class(timeout, connect, decode) is TransportDecodeError <==> transport_kind(
            timeout,
            connect,
            decode,
        ) is TransportDecodeError,
        transport_class(timeout, connect, decode) is TransportUnknownError <==> transport_kind(
            timeout,
            connect,
            decode,
        ) is TransportUnknownError,
{
}

/// Whether text reads like HTML does not depend on the case of its letters.
pub proof fn law_html_is_recognized_in_any_case(a: Seq<char>, b: Seq<char>)
    requires
        text::ascii_lowered(a) == text::ascii_lowered(b),
    ensures
        reads_like_html(a) == reads_like_html(b),
{
    text::lemma_trim_start_keeps_case(a);
    text::lemma_trim_start_keeps_case(b);
}

/// White space in front of text, however much, does not change whether it
/// reads like HTML.
pub proof fn law_html_is_recognized_behind_white_space(space: Seq<char>, rest: Seq<char>)
    requires
        forall|i: int| 0 <= i < space.len() ==> text::white_space(#[trigger] space[i]),
    ensures
        reads_like_html(space + rest) == reads_like_html(rest),
{
    text::lemma_trim_start_drops_white_space(space, rest);
}

/// A response that is no server error is a validation error with the name that
/// validation gave, and an unclassified crash where it gave none.
pub proof fn law_other_statuses_carry_the_validation_error(status: u16, name: Seq<char>)
    requires
        status < 500 || 600 <= status,
    ensures
        response_kind(status, Some(name)) == CrashKindView::Validation(name),
        response_kind(status, None) == CrashKindView::HttpResponseCrash,
{
}

/// Two statuses that are both server errors, or both none, give the same kind.
pub proof fn law_kind_depends_on_server_errors_alone(a: u16, b: u16, error: Option<Seq<char>>)
    requires
        500 <= a < 600 <==> 500 <= b < 600,
    ensures
        response_kind(a, error) == response_kind(b, error),
{
}

/// The name of a validation error is the name itself.
pub proof fn law_error_names_are_kept(error: ValidationErrorDiscriminants)
    ensures
        error_name(Some(&error)) == Some(error@),
        error_name(None) is None,
{
}

/// A timeout is a timeout, whatever else the error is; a failed connection is
/// one unless it timed out; a decoding error is one unless it is one of these;
/// and only an error that is none of the three is unknown.
pub proof fn law_first_property_names_the_transport_error(
    timeout: bool,
    connect: bool,
    decode: bool,
)
    ensures
        transport_class(true, connect, decode) == ResponseClass::TransportTimeout,
        transport_kind(true, connect, decode) == CrashKindView::TransportTimeout,
        transport_class(false, true, decode) == ResponseClass::TransportConnectionError,
        transport_kind(false, true, decode) == CrashKindView::TransportConnectionError,
        transport_class(false, false, true) == ResponseClass::TransportDecodeError,
        transport_kind(false, false, true) == CrashKindView::TransportDecodeError,
        transport_class(timeout, connect, decode) is TransportUnknownError <==> !(timeout || connect
            || decode),
        transport_kind(timeout, connect, decode) is TransportUnknownError <==> !(timeout || connect
            || decode),
{
}

/// A body is text exactly where its bytes are UTF-8, and the text is the one
/// that these bytes encode.
pub proof fn law_bodies_are_read_as_utf8(response: Response)
    ensures
        response.decoded() is Some <==> vstd::utf8::valid_utf8(response.body@),
        response.decoded() matches Some(body) ==> vstd::utf8::encode_utf8(body) == response.body@,
{
    if vstd::utf8::valid_utf8(response.body@) {
        vstd::utf8::decode_utf8_encode_utf8(response.body@);
    }
}

/// An empty body is empty, whatever else is said of it; a body that is a JSON
/// value is JSON; of the others, those that are no text, and they alone, are
/// binary or unknown.
pub proof fn law_only_bodies_without_text_are_binary(
    is_empty: bool,
    is_json: bool,
    decoded: Option<Seq<char>>,
)
    ensures
        body_class(is_empty, is_json, decoded) is Empty <==> is_empty,
        body_class(is_empty, is_json, decoded) is Json <==> !is_empty && is_json,
        body_class(is_empty, is_json, decoded) is BinaryOrUnknown <==> !is_empty && !is_json
            && decoded is None,
        body_class(is_empty, is_json, decoded) is InvalidJson || body_class(
            is_empty,
            is_json,
            decoded,
        ) is Html || body_class(is_empty, is_json, decoded) is Plaintext <==> !is_empty && !is_json
            && decoded is Some,
{
}

/// The first character of a text that is not white space decides whether the
/// text is meant as JSON; a text that is not is HTML where it reads like that,
/// and plain text everywhere else. Gives the place of that character, or the
/// length.
pub proof fn law_first_character_tells_json_from_other_text(body: Seq<char>) -> (k: int)
    ensures
        0 <= k <= body.len(),
        forall|i: int| 0 <= i < k ==> text::white_space(#[trigger] body[i]),
        k < body.len() ==> !text::white_space(body[k]),
        body_class(false, false, Some(body)) is InvalidJson <==> k < body.len() && (body[k] == '{'
            || body[k] == '['),
        body_class(false, false, Some(body)) is Html <==> !(k < body.len() && (body[k] == '{'
            || body[k] == '[')) && reads_like_html(body),
        body_class(false, false, Some(body)) is Plaintext <==> !(k < body.len() && (body[k] == '{'
            || body[k] == '[')) && !reads_like_html(body),
{
    let space = text::law_trimming_the_start_stops_at_the_first_character(body);
    let start = text::trimmed_start(body);
    let k = space.len() as int;
    reveal_strlit("{");
    reveal_strlit("[");
    assert("{"@ =~= seq!['{']);
    assert("["@ =~= seq!['[']);
    text::lemma_begins_with_char(start, '{');
    text::lemma_begins_with_char(start, '[');
    assert forall|i: int| 0 <= i < k implies text::white_space(#[trigger] body[i]) by {
        assert(body[i] == space[i]);
    }
    if k < body.len() {
        assert(body[k] == start[0]);
    }
    k
}

proof fn lemma_lowered_parts(a: Seq<char>, b: Seq<char>)
    ensures
        text::ascii_lowered(a + b) == text::ascii_lowered(a) + text::ascii_lowered(b),
{
    assert(text::ascii_lowered(a + b) =~= text::ascii_lowered(a) + text::ascii_lowered(b));
}

/// Text with one of the two marks of an HTML document, in any case, behind
/// nothing but white space reads like HTML, whatever follows.
pub proof fn law_html_starts_with_a_mark(space: Seq<char>, mark: Seq<char>, rest: Seq<char>)
    requires
        text::is_blank(space),
        text::ascii_lowered(mark) == "<!doctype html>"@ || text::ascii_lowered(mark) == "<html"@,
    ensures
        reads_like_html(space + mark + rest),
{
    reveal_strlit("<!doctype html>");
    reveal_strlit("<html");
    let lowered = text::ascii_lowered(mark);
    text::law_only_ascii_letters_change(mark);
    assert(lowered[0] == '<');
    assert(mark[0] == '<');
    let tail = mark + rest;
    assert(space + mark + rest =~= space + tail);
    text::lemma_trim_start_drops_white_space(space, tail);
    assert(tail[0] == '<');
    assert(text::trimmed_start(tail) == tail);
    lemma_lowered_parts(mark, rest);
    text::law_parts_are_found(Seq::empty(), lowered, text::ascii_lowered(rest));
}

/// Text with the start of a body, in any case and at any place, reads like
/// HTML.
pub proof fn law_html_has_a_body(front: Seq<char>, mark: Seq<char>, rest: Seq<char>)
    requires
        text::ascii_lowered(mark) == "<body"@,
    ensures
        reads_like_html(front + mark + rest),
{
    reveal_strlit("<body");
    let lowered = text::ascii_lowered(mark);
    text::law_only_ascii_letters_change(mark);
    assert(lowered[0] == '<');
    assert(mark[0] == '<');
    let whole = front + mark + rest;
    let space = text::law_trimming_the_start_stops_at_the_first_character(whole);
    let start = text::trimmed_start(whole);
    if space.len() > front.len() {
        assert(whole[front.len() as int] == mark[0]);
        assert(space[front.len() as int] == whole[front.len() as int]);
    }
    let inner = front.skip(space.len() as int);
    assert(start =~= whole.skip(space.len() as int));
    assert(start =~= inner + mark + rest);
    lemma_lowered_parts(inner, mark);
    lemma_lowered_parts(inner + mark, rest);
    text::law_parts_are_found(
        text::ascii_lowered(inner),
        lowered,
        text::ascii_lowered(rest),
    );
}

/// Text that reads like HTML has one of the marks: at the start, white space
/// aside, or that of a body anywhere. Gives the place of the mark.
pub proof fn law_html_needs_a_mark(body: Seq<char>) -> (at: int)
    requires
        reads_like_html(body),
    ensures
        0 <= at <= body.len(),
        ({
            let lowered = text::ascii_lowered(body);
            let rest = lowered.skip(at);
            ||| rest.len() >= "<body"@.len() && rest.take("<body"@.len() as int) == "<body"@
            ||| text::is_blank(body.take(at)) && rest.len() >= "<html"@.len() && rest.take(
                "<html"@.len() as int,
            ) == "<html"@
            ||| text::is_blank(body.take(at)) && rest.len() >= "<!doctype html>"@.len()
                && rest.take("<!doctype html>"@.len() as int) == "<!doctype html>"@
        }),
{
    let space = text::law_trimming_the_start_stops_at_the_first_character(body);
    let start = text::ascii_lowered(text::trimmed_start(body));
    let lowered = text::ascii_lowered(body);
    let k = space.len() as int;
    assert(body.take(k) =~= space);
    assert(lowered.skip(k) =~= start);
    if text::begins_with(start, "<!doctype html>"@) {
        assert(start.take("<!doctype html>"@.len() as int) =~= start.subrange(
            0,
            "<!doctype html>"@.len() as int,
        ));
        k
    } else if text::begins_with(start, "<html"@) {
        assert(start.take("<html"@.len() as int) =~= start.subrange(0, "<html"@.len() as int));
        k
    } else {
        let at = choose|at: int| #[trigger] text::occurs_at(start, "<body"@, at);
        assert(lowered.skip(k + at).take("<body"@.len() as int) =~= start.subrange(
            at,
            at + "<body"@.len(),
        ));
        k + at
    }
}

/// The view of an observed crash keeps each of its parts as it is.
pub proof fn law_views_of_crashes_keep_every_part(crash: ObservedCrash)
    ensures
        crash@.identity == crash.identity@,
        crash@.crashing_request_index == crash.crashing_request_index,
        crash.oracle_crash_id matches Some(id) ==> crash@.oracle_crash_id == Some(id@),
        crash.oracle_crash_id is None ==> crash@.oracle_crash_id is None,
{
}

} // verus!
