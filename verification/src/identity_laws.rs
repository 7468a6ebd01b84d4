//! What holds of crash identities, their keys and their compatibility.

use crate::crash_clusters;
use crate::crash_identity;
use crate::crash_identity::{
    CrashIdentity, CrashIdentityView, CrashKind, CrashKindView, ObservedExitKind, ResponseClass,
};
use crate::text;
use vstd::prelude::*;

verus! {

/// There is no text, or some that is not empty.
pub open spec fn absent_or_nonempty(option: Option<Seq<char>>) -> bool {
    option matches Some(text) ==> text.len() > 0
}

proof fn lemma_split_at_first_bar(a: Seq<char>, b: Seq<char>, x: Seq<char>, y: Seq<char>)
    requires
        crash_identity::bar_free(a),
        crash_identity::bar_free(b),
        a + seq!['|'] + x == b + seq!['|'] + y,
    ensures
        a == b,
        x == y,
{
    let s = a + seq!['|'] + x;
    let t = b + seq!['|'] + y;
    assert(s[a.len() as int] == '|');
    assert(t[b.len() as int] == '|');
    if a.len() < b.len() {
        assert(t[a.len() as int] == b[a.len() as int]);
    }
    if b.len() < a.len() {
        assert(s[b.len() as int] == a[b.len() as int]);
    }
    assert(a =~= s.take(a.len() as int));
    assert(b =~= t.take(b.len() as int));
    assert(x =~= s.skip(a.len() as int + 1));
    assert(y =~= t.skip(b.len() as int + 1));
}

proof fn lemma_split_at_last_bar(a: Seq<char>, b: Seq<char>, x: Seq<char>, y: Seq<char>)
    requires
        crash_identity::bar_free(x),
        crash_identity::bar_free(y),
        a + seq!['|'] + x == b + seq!['|'] + y,
    ensures
        a == b,
        x == y,
{
    let s = a + seq!['|'] + x;
    let t = b + seq!['|'] + y;
    assert(s.len() == a.len() + 1 + x.len());
    assert(t.len() == b.len() + 1 + y.len());
    assert(s[a.len() as int] == '|');
    assert(t[b.len() as int] == '|');
    if a.len() < b.len() {
        assert(s[b.len() as int] == x[b.len() - a.len() - 1]);
    }
    if b.len() < a.len() {
        assert(t[a.len() as int] == y[a.len() - b.len() - 1]);
    }
    assert(a =~= s.take(a.len() as int));
    assert(b =~= t.take(b.len() as int));
    assert(x =~= s.skip(a.len() as int + 1));
    assert(y =~= t.skip(b.len() as int + 1));
}

proof fn lemma_exit_labels(a: ObservedExitKind, b: ObservedExitKind)
    ensures
        crash_identity::bar_free(a.label()),
        a.label() == b.label() ==> a == b,
{
    reveal_strlit("Crash");
    reveal_strlit("Timeout");
    assert("Crash"@.len() != "Timeout"@.len());
}

proof fn lemma_kind_labels(a: CrashKindView, b: CrashKindView)
    requires
        a.valid(),
    ensures
        crash_identity::bar_free(a.label()),
        a.label() == b.label() ==> a == b,
{
    reveal_strlit("http_5xx");
    reveal_strlit("validation_");
    reveal_strlit("http_response_crash");
    reveal_strlit("transport_timeout");
    reveal_strlit("transport_connection_error");
    reveal_strlit("transport_decode_error");
    reveal_strlit("transport_unknown_error");
    if a is Validation {
        assert(a.label()[0] == "validation_"@[0]);
        assert(a.label().skip(11) =~= a->Validation_0);
    }
    if b is Validation {
        assert(b.label()[0] == "validation_"@[0]);
        assert(b.label().skip(11) =~= b->Validation_0);
    }
    assert("http_5xx"@[0] == 'h');
    assert("http_response_crash"@[0] == 'h');
    assert("transport_timeout"@[0] == 't');
    assert("transport_connection_error"@[0] == 't');
    assert("transport_decode_error"@[0] == 't');
    assert("transport_unknown_error"@[0] == 't');
}

proof fn lemma_class_labels(a: ResponseClass, b: ResponseClass)
    ensures
        crash_identity::bar_free(a.label()),
        a.label() == b.label() ==> a == b,
{
    reveal_strlit("Json");
    reveal_strlit("Empty");
    reveal_strlit("Plaintext");
    reveal_strlit("Html");
    reveal_strlit("InvalidJson");
    reveal_strlit("BinaryOrUnknown");
    reveal_strlit("TransportTimeout");
    reveal_strlit("TransportConnectionError");
    reveal_strlit("TransportDecodeError");
    reveal_strlit("TransportUnknownError");
    assert("Json"@[0] == 'J');
    assert("Html"@[0] == 'H');
    assert("TransportUnknownError"@.len() == 21);
    assert("TransportDecodeError"@.len() == 20);
    assert("TransportConnectionError"@.len() == 24);
    assert("TransportTimeout"@.len() == 16);
    assert("BinaryOrUnknown"@.len() == 15);
    assert("InvalidJson"@.len() == 11);
    assert("Plaintext"@.len() == 9);
    assert("Empty"@.len() == 5);
}

proof fn lemma_status_texts(a: Option<u16>, b: Option<u16>)
    ensures
        crash_identity::bar_free(crash_identity::status_text(a)),
        crash_identity::status_text(a) == crash_identity::status_text(b) ==> a == b,
{
    if a is Some {
        text::lemma_decimal_digits(a->0 as nat);
    }
    if b is Some {
        text::lemma_decimal_digits(b->0 as nat);
    }
    if a is Some && b is Some && text::decimal(a->0 as nat) == text::decimal(b->0 as nat) {
        text::lemma_decimal_injective(a->0 as nat, b->0 as nat);
    }
}

/// Equal identities have equal keys.
pub proof fn law_equal_identities_have_equal_keys(a: CrashIdentityView, b: CrashIdentityView)
    requires
        a == b,
    ensures
        a.cluster_key() == b.cluster_key(),
{
}

/// A key tells identities apart: two identities with the same key are equal,
/// provided that the validation error that they record holds no bar, and that
/// neither records an empty validation error or an empty endpoint (which are
/// written like absent ones).
pub proof fn law_equal_keys_have_equal_identities(a: CrashIdentityView, b: CrashIdentityView)
    requires
        a.crash_kind.valid(),
        b.crash_kind.valid(),
        a.validation_error_discriminant matches Some(name) ==> crash_identity::bar_free(name),
        b.validation_error_discriminant matches Some(name) ==> crash_identity::bar_free(name),
        absent_or_nonempty(a.validation_error_discriminant),
        absent_or_nonempty(b.validation_error_discriminant),
        absent_or_nonempty(a.endpoint),
        absent_or_nonempty(b.endpoint),
        a.cluster_key() == b.cluster_key(),
    ensures
        a == b,
{
    lemma_exit_labels(a.exit_kind, b.exit_kind);
    lemma_exit_labels(b.exit_kind, a.exit_kind);
    lemma_kind_labels(a.crash_kind, b.crash_kind);
    lemma_kind_labels(b.crash_kind, a.crash_kind);
    lemma_status_texts(a.http_status, b.http_status);
    lemma_status_texts(b.http_status, a.http_status);
    lemma_class_labels(a.response_class, b.response_class);
    lemma_class_labels(b.response_class, a.response_class);
    let bar = seq!['|'];
    let a_error = crash_identity::text_or_empty(a.validation_error_discriminant);
    let b_error = crash_identity::text_or_empty(b.validation_error_discriminant);
    let a_endpoint = crash_identity::text_or_empty(a.endpoint);
    let b_endpoint = crash_identity::text_or_empty(b.endpoint);
    let a5 = a_endpoint + bar + a.response_class.label();
    let b5 = b_endpoint + bar + b.response_class.label();
    let a4 = a_error + bar + a5;
    let b4 = b_error + bar + b5;
    let a3 = crash_identity::status_text(a.http_status) + bar + a4;
    let b3 = crash_identity::status_text(b.http_status) + bar + b4;
    let a2 = a.crash_kind.label() + bar + a3;
    let b2 = b.crash_kind.label() + bar + b3;
    lemma_split_at_first_bar(a.exit_kind.label(), b.exit_kind.label(), a2, b2);
    lemma_split_at_first_bar(a.crash_kind.label(), b.crash_kind.label(), a3, b3);
    lemma_split_at_first_bar(
        crash_identity::status_text(a.http_status),
        crash_identity::status_text(b.http_status),
        a4,
        b4,
    );
    lemma_split_at_first_bar(a_error, b_error, a5, b5);
    lemma_split_at_last_bar(
        a_endpoint,
        b_endpoint,
        a.response_class.label(),
        b.response_class.label(),
    );
}

/// Every identity is compatible with itself.
pub proof fn law_compatible_with_itself(a: CrashIdentityView)
    ensures
        a.compatible_with(a),
{
}

/// Compatibility is transitive, so a chain of accepted candidates never
/// leaves the baseline.
pub proof fn law_compatibility_is_transitive(
    a: CrashIdentityView,
    b: CrashIdentityView,
    c: CrashIdentityView,
)
    requires
        a.compatible_with(b),
        b.compatible_with(c),
    ensures
        a.compatible_with(c),
{
}

/// Two identities that are compatible both ways are equal.
pub proof fn law_mutual_compatibility_is_equality(a: CrashIdentityView, b: CrashIdentityView)
    requires
        a.compatible_with(b),
        b.compatible_with(a),
    ensures
        a == b,
{
}

/// A baseline that leaves a part open accepts every candidate that it accepts
/// with that part.
pub proof fn law_open_parts_are_tolerated(a: CrashIdentityView, b: CrashIdentityView)
    requires
        a.compatible_with(b),
    ensures
        (CrashIdentityView { endpoint: None, ..a }).compatible_with(b),
        (CrashIdentityView { http_status: None, ..a }).compatible_with(b),
        (CrashIdentityView { validation_error_discriminant: None, ..a }).compatible_with(b),
{
}

/// A candidate that lacks a part which the baseline has is rejected.
pub proof fn law_missing_parts_are_rejected(a: CrashIdentityView, b: CrashIdentityView)
    requires
        a.endpoint is Some && b.endpoint is None || a.http_status is Some && b.http_status is None
            || a.validation_error_discriminant is Some && b.validation_error_discriminant is None,
    ensures
        !a.compatible_with(b),
{
}

/// Crashes with the same key are compatible both ways, on the identities that
/// keys tell apart.
pub proof fn law_equal_keys_are_compatible(a: CrashIdentityView, b: CrashIdentityView)
    requires
        a.crash_kind.valid(),
        b.crash_kind.valid(),
        a.validation_error_discriminant matches Some(name) ==> crash_identity::bar_free(name),
        b.validation_error_discriminant matches Some(name) ==> crash_identity::bar_free(name),
        absent_or_nonempty(a.validation_error_discriminant),
        absent_or_nonempty(b.validation_error_discriminant),
        absent_or_nonempty(a.endpoint),
        absent_or_nonempty(b.endpoint),
        a.cluster_key() == b.cluster_key(),
    ensures
        a.compatible_with(b),
        b.compatible_with(a),
{
    law_equal_keys_have_equal_identities(a, b);
}

/// A candidate that is accepted has the exit, the kind and the response class
/// of the baseline, and every part that the baseline has.
pub proof fn law_accepted_candidates_have_the_parts_of_the_baseline(
    a: CrashIdentityView,
    b: CrashIdentityView,
)
    requires
        a.compatible_with(b),
    ensures
        b.exit_kind == a.exit_kind,
        b.crash_kind == a.crash_kind,
        b.response_class == a.response_class,
        a.http_status matches Some(status) ==> b.http_status == Some(status),
        a.endpoint matches Some(endpoint) ==> b.endpoint == Some(endpoint),
        a.validation_error_discriminant matches Some(name) ==> b.validation_error_discriminant
            == Some(name),
{
}

/// A candidate that differs from the baseline in a part that the baseline has
/// is rejected, whatever the difference is and however the rest agrees.
pub proof fn law_different_parts_are_rejected(a: CrashIdentityView, b: CrashIdentityView)
    requires
        a.exit_kind != b.exit_kind || a.crash_kind != b.crash_kind || a.response_class
            != b.response_class || (a.http_status is Some && a.http_status != b.http_status) || (
        a.endpoint is Some && a.endpoint != b.endpoint) || (a.validation_error_discriminant is Some
            && a.validation_error_discriminant != b.validation_error_discriminant),
    ensures
        !a.compatible_with(b),
{
}

/// Whatever a candidate has where the baseline leaves a part open, it is
/// accepted if it is otherwise the baseline.
pub proof fn law_open_parts_may_be_filled(
    a: CrashIdentityView,
    status: Option<u16>,
    name: Option<Seq<char>>,
    endpoint: Option<Seq<char>>,
)
    ensures
        a.compatible_with(
            CrashIdentityView {
                http_status: if a.http_status is Some {
                    a.http_status
                } else {
                    status
                },
                validation_error_discriminant: if a.validation_error_discriminant is Some {
                    a.validation_error_discriminant
                } else {
                    name
                },
                endpoint: if a.endpoint is Some {
                    a.endpoint
                } else {
                    endpoint
                },
                ..a
            },
        ),
{
}

/// Labels hold no bar, and tell exits, kinds and classes apart.
pub proof fn law_labels_tell_apart(a: CrashIdentityView, b: CrashIdentityView)
    requires
        a.crash_kind.valid(),
    ensures
        crash_identity::bar_free(a.exit_kind.label()),
        crash_identity::bar_free(a.crash_kind.label()),
        crash_identity::bar_free(a.response_class.label()),
        a.exit_kind.label() == b.exit_kind.label() ==> a.exit_kind == b.exit_kind,
        a.crash_kind.label() == b.crash_kind.label() ==> a.crash_kind == b.crash_kind,
        a.response_class.label() == b.response_class.label() ==> a.response_class
            == b.response_class,
{
    lemma_exit_labels(a.exit_kind, b.exit_kind);
    lemma_kind_labels(a.crash_kind, b.crash_kind);
    lemma_class_labels(a.response_class, b.response_class);
}

/// The label of a validation error is its name behind a fixed word.
pub proof fn law_validation_labels_end_in_the_name(name: Seq<char>)
    ensures
        CrashKindView::Validation(name).label().len() == "validation_"@.len() + name.len(),
        CrashKindView::Validation(name).label().take("validation_"@.len() as int)
            == "validation_"@,
        CrashKindView::Validation(name).label().skip("validation_"@.len() as int) == name,
{
    let label = CrashKindView::Validation(name).label();
    let n = "validation_"@.len() as int;
    assert(label.take(n) =~= "validation_"@);
    assert(label.skip(n) =~= name);
}

/// A key is the six parts of the identity, in order and in full, with one bar
/// between each two. An absent part is written as nothing, a status as its
/// numeral.
pub proof fn law_keys_hold_the_six_parts_in_order(a: CrashIdentityView) -> (ends: Seq<int>)
    ensures
        ends.len() == 6,
        forall|i: int|
            0 <= i < 5 ==> ends[i] < a.cluster_key().len() && a.cluster_key()[#[trigger] ends[i]]
                == '|',
        0 <= ends[0] < ends[1] < ends[2] < ends[3] < ends[4] < ends[5],
        ends[5] == a.cluster_key().len(),
        a.cluster_key().subrange(0, ends[0]) == a.exit_kind.label(),
        a.cluster_key().subrange(ends[0] + 1, ends[1]) == a.crash_kind.label(),
        a.http_status matches Some(code) ==> text::numeral_value(
            a.cluster_key().subrange(ends[1] + 1, ends[2]),
        ) == code && a.cluster_key().subrange(ends[1] + 1, ends[2]) == text::decimal(code as nat),
        a.http_status is None ==> ends[2] == ends[1] + 1,
        a.validation_error_discriminant matches Some(name) ==> a.cluster_key().subrange(
            ends[2] + 1,
            ends[3],
        ) == name,
        a.validation_error_discriminant is None ==> ends[3] == ends[2] + 1,
        a.endpoint matches Some(endpoint) ==> a.cluster_key().subrange(ends[3] + 1, ends[4])
            == endpoint,
        a.endpoint is None ==> ends[4] == ends[3] + 1,
        a.cluster_key().subrange(ends[4] + 1, ends[5]) == a.response_class.label(),
{
    lemma_class_labels(a.response_class, a.response_class);
    lemma_class_not_empty(a.response_class);
    let key = a.cluster_key();
    let status = crash_identity::status_text(a.http_status);
    let error = crash_identity::text_or_empty(a.validation_error_discriminant);
    let endpoint = crash_identity::text_or_empty(a.endpoint);
    let e0 = a.exit_kind.label().len() as int;
    let e1 = e0 + 1 + a.crash_kind.label().len();
    let e2 = e1 + 1 + status.len();
    let e3 = e2 + 1 + error.len();
    let e4 = e3 + 1 + endpoint.len();
    let e5 = e4 + 1 + a.response_class.label().len();
    let ends = seq![e0, e1, e2, e3, e4, e5];
    if let Some(code) = a.http_status {
        text::law_numerals_write_their_numbers(code as nat);
    }
    assert(key.subrange(0, e0) =~= a.exit_kind.label());
    assert(key.subrange(e0 + 1, e1) =~= a.crash_kind.label());
    assert(key.subrange(e1 + 1, e2) =~= status);
    assert(key.subrange(e2 + 1, e3) =~= error);
    assert(key.subrange(e3 + 1, e4) =~= endpoint);
    assert(key.subrange(e4 + 1, e5) =~= a.response_class.label());
    assert(key[e0] == '|' && key[e1] == '|' && key[e2] == '|' && key[e3] == '|' && key[e4] == '|');
    ends
}

proof fn lemma_class_not_empty(class: ResponseClass)
    ensures
        class.label().len() > 0,
{
    reveal_strlit("Json");
    reveal_strlit("Empty");
    reveal_strlit("Plaintext");
    reveal_strlit("Html");
    reveal_strlit("InvalidJson");
    reveal_strlit("BinaryOrUnknown");
    reveal_strlit("TransportTimeout");
    reveal_strlit("TransportConnectionError");
    reveal_strlit("TransportDecodeError");
    reveal_strlit("TransportUnknownError");
}

/// The view of an identity keeps each of its parts as it is.
pub proof fn law_views_of_identities_keep_every_part(identity: CrashIdentity)
    ensures
        identity@.exit_kind == identity.exit_kind,
        identity@.http_status == identity.http_status,
        identity@.response_class == identity.response_class,
        identity.validation_error_discriminant matches Some(name)
            ==> identity@.validation_error_discriminant == Some(name@),
        identity.validation_error_discriminant is None
            ==> identity@.validation_error_discriminant is None,
        identity.endpoint matches Some(endpoint) ==> identity@.endpoint == Some(endpoint@),
        identity.endpoint is None ==> identity@.endpoint is None,
        identity.crash_kind matches CrashKind::Validation(error) ==> identity@.crash_kind
            == CrashKindView::Validation(error@),
        identity.crash_kind is Http5xx <==> identity@.crash_kind is Http5xx,
        identity.crash_kind is Validation <==> identity@.crash_kind is Validation,
        identity.crash_kind is HttpResponseCrash <==> identity@.crash_kind is HttpResponseCrash,
        identity.crash_kind is TransportTimeout <==> identity@.crash_kind is TransportTimeout,
        identity.crash_kind is TransportConnectionError
            <==> identity@.crash_kind is TransportConnectionError,
        identity.crash_kind is TransportDecodeError
            <==> identity@.crash_kind is TransportDecodeError,
        identity.crash_kind is TransportUnknownError
            <==> identity@.crash_kind is TransportUnknownError,
{
}

/// A report writes the three optional parts of an identity as they are, and
/// the others by their labels.
pub proof fn law_written_identities_keep_every_part(a: CrashIdentityView)
    ensures
        crash_clusters::written(a).http_status == a.http_status,
        crash_clusters::written(a).validation_error_discriminant
            == a.validation_error_discriminant,
        crash_clusters::written(a).endpoint == a.endpoint,
        crash_clusters::written(a).exit_kind == a.exit_kind.label(),
        crash_clusters::written(a).crash_kind == a.crash_kind.label(),
        crash_clusters::written(a).response_class == a.response_class.label(),
{
}

/// Different identities are written differently.
pub proof fn law_written_identities_tell_apart(a: CrashIdentityView, b: CrashIdentityView)
    requires
        a.crash_kind.valid(),
        crash_clusters::written(a) == crash_clusters::written(b),
    ensures
        a == b,
{
    law_written_identities_keep_every_part(a);
    law_written_identities_keep_every_part(b);
    law_labels_tell_apart(a, b);
}

/// Every name that is not empty and holds no bar can be that of a validation
/// error, and no other.
pub proof fn law_names_without_bars_are_valid(name: Seq<char>)
    ensures
        crash_identity::valid_error_name(name) <==> name.len() > 0 && !name.contains('|'),
        CrashKindView::Validation(name).valid() <==> name.len() > 0 && !name.contains('|'),
{
    if !crash_identity::bar_free(name) {
        let i = choose|i: int| 0 <= i < name.len() && #[trigger] name[i] == '|';
        assert(name.contains('|'));
    }
}

} // verus!
