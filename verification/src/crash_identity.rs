//! The coarse identity of a crash: what it is grouped by, and when two crashes
//! are close enough to stand for each other.

use crate::text;
use crate::text::{chars_of, decimal_text};
use vstd::prelude::*;

verus! {

/// `s` holds no bar, which separates the parts of a key.
pub open spec fn bar_free(s: Seq<char>) -> bool {
    forall|i: int| 0 <= i < s.len() ==> #[trigger] s[i] != '|'
}

/// `name` can be the name of a validation error: it is not empty, and holds no
/// bar.
pub open spec fn valid_error_name(name: Seq<char>) -> bool {
    &&& name.len() > 0
    &&& bar_free(name)
}

/// The kind of a response validation error. Crash identities know it by its
/// name alone, an identifier such as `OperationNotInSpec`.
#[derive(Debug, PartialEq, Eq)]
pub struct ValidationErrorDiscriminants {
    name: String,
}

impl View for ValidationErrorDiscriminants {
    type V = Seq<char>;

    closed spec fn view(&self) -> Seq<char> {
        self.name@
    }
}

impl Clone for ValidationErrorDiscriminants {
    fn clone(&self) -> (copy: ValidationErrorDiscriminants)
        ensures
            copy@ == self@,
    {
        proof {
            use_type_invariant(self);
        }
        ValidationErrorDiscriminants { name: self.name.clone() }
    }
}

impl ValidationErrorDiscriminants {
    #[verifier::type_invariant]
    closed spec fn well_formed(self) -> bool {
        valid_error_name(self@)
    }

    /// The kind with this name, unless the name is empty or holds a bar.
    pub fn named(name: String) -> (kind: Option<ValidationErrorDiscriminants>)
        ensures
            kind is Some <==> valid_error_name(name@),
            kind matches Some(made) ==> made@ == name@,
    {
        let chars = chars_of(&name);
        if chars.len() == 0 {
            return None;
        }
        let mut i: usize = 0;
        while i < chars.len()
            invariant
                i <= chars@.len(),
                chars@ == name@,
                forall|j: int| 0 <= j < i ==> #[trigger] name@[j] != '|',
            decreases chars@.len() - i,
        {
            if chars[i] == '|' {
                assert(name@[i as int] == '|');
                return None;
            }
            i = i + 1;
        }
        Some(ValidationErrorDiscriminants { name })
    }

    /// The name.
    pub fn name(&self) -> (name: &str)
        ensures
            name@ == self@,
            valid_error_name(name@),
    {
        proof {
            use_type_invariant(self);
        }
        self.name.as_str()
    }
}

/// What went wrong in a request.
#[derive(Clone, Debug, PartialEq, Eq)]
pub enum CrashKind {
    Http5xx,
    Validation(ValidationErrorDiscriminants),
    HttpResponseCrash,
    TransportTimeout,
    TransportConnectionError,
    TransportDecodeError,
    TransportUnknownError,
}

/// A crash kind, with the name of a validation error as a sequence.
pub enum CrashKindView {
    Http5xx,
    Validation(Seq<char>),
    HttpResponseCrash,
    TransportTimeout,
    TransportConnectionError,
    TransportDecodeError,
    TransportUnknownError,
}

impl View for CrashKind {
    type V = CrashKindView;

    open spec fn view(&self) -> CrashKindView {
        match *self {
            CrashKind::Http5xx => CrashKindView::Http5xx,
            CrashKind::Validation(discriminant) => CrashKindView::Validation(discriminant@),
            CrashKind::HttpResponseCrash => CrashKindView::HttpResponseCrash,
            CrashKind::TransportTimeout => CrashKindView::TransportTimeout,
            CrashKind::TransportConnectionError => CrashKindView::TransportConnectionError,
            CrashKind::TransportDecodeError => CrashKindView::TransportDecodeError,
            CrashKind::TransportUnknownError => CrashKindView::TransportUnknownError,
        }
    }
}

impl CrashKindView {
    /// The name of a validation error is one that such an error can have.
    pub open spec fn valid(self) -> bool {
        self matches CrashKindView::Validation(name) ==> valid_error_name(name)
    }

    /// How the kind is written in keys and reports.
    pub open spec fn label(self) -> Seq<char> {
        match self {
            CrashKindView::Http5xx => "http_5xx"@,
            CrashKindView::Validation(name) => "validation_"@ + name,
            CrashKindView::HttpResponseCrash => "http_response_crash"@,
            CrashKindView::TransportTimeout => "transport_timeout"@,
            CrashKindView::TransportConnectionError => "transport_connection_error"@,
            CrashKindView::TransportDecodeError => "transport_decode_error"@,
            CrashKindView::TransportUnknownError => "transport_unknown_error"@,
        }
    }
}

impl CrashKind {
    /// The kind as it is written in keys and reports.
    pub fn to_string(&self) -> (text: String)
        ensures
            text@ == self@.label(),
            self@.valid(),
    {
        match self {
            CrashKind::Http5xx => "http_5xx".to_owned(),
            CrashKind::Validation(discriminant) => {
                let mut text = "validation_".to_owned();
                text.append(discriminant.name());
                text
            },
            CrashKind::HttpResponseCrash => "http_response_crash".to_owned(),
            CrashKind::TransportTimeout => "transport_timeout".to_owned(),
            CrashKind::TransportConnectionError => "transport_connection_error".to_owned(),
            CrashKind::TransportDecodeError => "transport_decode_error".to_owned(),
            CrashKind::TransportUnknownError => "transport_unknown_error".to_owned(),
        }
    }

    /// Whether both are the same kind.
    pub fn same_as(&self, other: &CrashKind) -> (same: bool)
        ensures
            same == (self@ == other@),
    {
        match (self, other) {
            (CrashKind::Http5xx, CrashKind::Http5xx) => true,
            (CrashKind::Validation(mine), CrashKind::Validation(theirs)) => mine.name
                == theirs.name,
            (CrashKind::HttpResponseCrash, CrashKind::HttpResponseCrash) => true,
            (CrashKind::TransportTimeout, CrashKind::TransportTimeout) => true,
            (CrashKind::TransportConnectionError, CrashKind::TransportConnectionError) => true,
            (CrashKind::TransportDecodeError, CrashKind::TransportDecodeError) => true,
            (CrashKind::TransportUnknownError, CrashKind::TransportUnknownError) => true,
            _ => false,
        }
    }
}

/// What came back from the service, coarsely.
#[derive(Clone, Copy, Debug, PartialEq, Eq, Structural)]
pub enum ResponseClass {
    Json,
    Empty,
    Plaintext,
    Html,
    InvalidJson,
    BinaryOrUnknown,
    TransportTimeout,
    TransportConnectionError,
    TransportDecodeError,
    TransportUnknownError,
}

impl ResponseClass {
    /// How the class is written in keys and reports.
    pub open spec fn label(self) -> Seq<char> {
        match self {
            ResponseClass::Json => "Json"@,
            ResponseClass::Empty => "Empty"@,
            ResponseClass::Plaintext => "Plaintext"@,
            ResponseClass::Html => "Html"@,
            ResponseClass::InvalidJson => "InvalidJson"@,
            ResponseClass::BinaryOrUnknown => "BinaryOrUnknown"@,
            ResponseClass::TransportTimeout => "TransportTimeout"@,
            ResponseClass::TransportConnectionError => "TransportConnectionError"@,
            ResponseClass::TransportDecodeError => "TransportDecodeError"@,
            ResponseClass::TransportUnknownError => "TransportUnknownError"@,
        }
    }

    /// The class as it is written in keys and reports.
    pub fn to_string(&self) -> (text: String)
        ensures
            text@ == self.label(),
    {
        let value = match self {
            ResponseClass::Json => "Json",
            ResponseClass::Empty => "Empty",
            ResponseClass::Plaintext => "Plaintext",
            ResponseClass::Html => "Html",
            ResponseClass::InvalidJson => "InvalidJson",
            ResponseClass::BinaryOrUnknown => "BinaryOrUnknown",
            ResponseClass::TransportTimeout => "TransportTimeout",
            ResponseClass::TransportConnectionError => "TransportConnectionError",
            ResponseClass::TransportDecodeError => "TransportDecodeError",
            ResponseClass::TransportUnknownError => "TransportUnknownError",
        };
        value.to_owned()
    }
}

/// How a run against the service ended.
#[derive(Clone, Copy, Debug, PartialEq, Eq, Structural)]
pub enum ObservedExitKind {
    Crash,
    Timeout,
}

impl ObservedExitKind {
    /// How the exit is written in keys and reports.
    pub open spec fn label(self) -> Seq<char> {
        match self {
            ObservedExitKind::Crash => "Crash"@,
            ObservedExitKind::Timeout => "Timeout"@,
        }
    }

    /// The exit as it is written in keys and reports.
    pub fn to_string(&self) -> (text: String)
        ensures
            text@ == self.label(),
    {
        match self {
            ObservedExitKind::Crash => "Crash".to_owned(),
            ObservedExitKind::Timeout => "Timeout".to_owned(),
        }
    }
}

/// The text in `option`, if there is any.
pub open spec fn text_option(option: Option<String>) -> Option<Seq<char>> {
    match option {
        Some(text) => Some(text@),
        None => None,
    }
}

/// The text in `option`, or no text at all.
pub open spec fn text_or_empty(option: Option<Seq<char>>) -> Seq<char> {
    match option {
        Some(text) => text,
        None => Seq::empty(),
    }
}

/// Whether both hold the same text, or none.
pub fn same_text_option(a: &Option<String>, b: &Option<String>) -> (same: bool)
    ensures
        same == (text_option(*a) == text_option(*b)),
{
    match (a, b) {
        (Some(x), Some(y)) => *x == *y,
        (None, None) => true,
        _ => false,
    }
}

/// Coarse identity used to group crashes with similar characteristics.
#[derive(Clone, Debug, PartialEq, Eq)]
pub struct CrashIdentity {
    pub exit_kind: ObservedExitKind,
    pub crash_kind: CrashKind,
    pub http_status: Option<u16>,
    pub validation_error_discriminant: Option<String>,
    pub endpoint: Option<String>,
    pub response_class: ResponseClass,
}

/// A crash identity, with its text as sequences.
pub struct CrashIdentityView {
    pub exit_kind: ObservedExitKind,
    pub crash_kind: CrashKindView,
    pub http_status: Option<u16>,
    pub validation_error_discriminant: Option<Seq<char>>,
    pub endpoint: Option<Seq<char>>,
    pub response_class: ResponseClass,
}

impl View for CrashIdentity {
    type V = CrashIdentityView;

    open spec fn view(&self) -> CrashIdentityView {
        CrashIdentityView {
            exit_kind: self.exit_kind,
            crash_kind: self.crash_kind@,
            http_status: self.http_status,
            validation_error_discriminant: text_option(self.validation_error_discriminant),
            endpoint: text_option(self.endpoint),
            response_class: self.response_class,
        }
    }
}

/// A status as it is written in a key: its numeral, or nothing.
pub open spec fn status_text(status: Option<u16>) -> Seq<char> {
    match status {
        Some(code) => text::decimal(code as nat),
        None => Seq::empty(),
    }
}

impl CrashIdentityView {
    /// The key of the group that a crash belongs to: the six parts of its
    /// identity, in order, with a bar between each two.
    pub open spec fn cluster_key(self) -> Seq<char> {
        self.exit_kind.label() + seq!['|'] + (self.crash_kind.label() + seq!['|'] + (status_text(
            self.http_status,
        ) + seq!['|'] + (text_or_empty(self.validation_error_discriminant) + seq!['|'] + (
        text_or_empty(self.endpoint) + seq!['|'] + self.response_class.label()))))
    }

    /// `candidate` has the exit, the kind and the response class of this
    /// identity, and each of the other three parts that this identity has.
    pub open spec fn compatible_with(self, candidate: CrashIdentityView) -> bool {
        &&& candidate.exit_kind == self.exit_kind
        &&& candidate.crash_kind == self.crash_kind
        &&& candidate.response_class == self.response_class
        &&& self.endpoint is Some ==> candidate.endpoint == self.endpoint
        &&& self.http_status is Some ==> candidate.http_status == self.http_status
        &&& self.validation_error_discriminant is Some
            ==> candidate.validation_error_discriminant == self.validation_error_discriminant
    }
}

impl CrashIdentity {
    /// Returns the exact key used for crash clustering.
    pub fn cluster_key(&self) -> (key: String)
        ensures
            key@ == self@.cluster_key(),
            self@.crash_kind.valid(),
    {
        proof {
            reveal_strlit("|");
        }
        let ghost bar = seq!['|'];
        assert("|"@ =~= bar);
        let mut key = self.exit_kind.to_string();
        key.append("|");
        key.append(&self.crash_kind.to_string());
        key.append("|");
        if let Some(status) = self.http_status {
            key.append(&decimal_text(status as u64));
        }
        key.append("|");
        if let Some(discriminant) = &self.validation_error_discriminant {
            key.append(discriminant);
        }
        key.append("|");
        if let Some(endpoint) = &self.endpoint {
            key.append(endpoint);
        }
        key.append("|");
        key.append(&self.response_class.to_string());
        assert(key@ =~= self@.cluster_key());
        key
    }

    /// Returns whether `candidate` is close enough to this baseline identity
    /// to be accepted during minimization.
    pub fn compatible_with(&self, candidate: &CrashIdentity) -> (compatible: bool)
        ensures
            compatible == self@.compatible_with(candidate@),
            compatible ==> candidate.exit_kind == self.exit_kind && candidate.response_class
                == self.response_class && candidate.crash_kind@ == self.crash_kind@,
            compatible && self.http_status is Some ==> candidate.http_status == self.http_status,
            compatible && self.endpoint is Some ==> candidate.endpoint is Some
                && candidate.endpoint->0@ == self.endpoint->0@,
            compatible && self.validation_error_discriminant is Some
                ==> candidate.validation_error_discriminant is Some
                && candidate.validation_error_discriminant->0@
                == self.validation_error_discriminant->0@,
    {
        if candidate.exit_kind != self.exit_kind {
            return false;
        }
        if !candidate.crash_kind.same_as(&self.crash_kind) {
            return false;
        }
        if candidate.response_class != self.response_class {
            return false;
        }
        if self.endpoint.is_some() && !same_text_option(&candidate.endpoint, &self.endpoint) {
            return false;
        }
        if self.http_status.is_some() && candidate.http_status != self.http_status {
            return false;
        }
        if self.validation_error_discriminant.is_some() && !same_text_option(
            &candidate.validation_error_discriminant,
            &self.validation_error_discriminant,
        ) {
            return false;
        }
        true
    }
}

} // verus!
