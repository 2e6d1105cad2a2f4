//! The round-trip validator and the envelope handler.
//!
//! A request carries an opaque correlation token and, usually, a raw
//! object payload. The schema library decodes that payload into the typed
//! resource and encodes it again; the validator receives both the payload
//! and that re-encoding, and decides: allow when nothing was lost, deny
//! with the comparator's first mismatch otherwise, and deny outright when
//! no payload was submitted.

use vstd::prelude::*;

use crate::compare::check;
use crate::compare::check_msg;
use crate::compare::check_ok;
use crate::json::JsonValue;

verus! {

/// The inner admission request: the correlation token, echoed back
/// verbatim, and the raw object payload where one was submitted.
pub struct AdmissionRequest {
    pub uid: String,
    pub object: Option<JsonValue>,
}

/// The status a denial carries: a human-readable reason.
pub struct Status {
    pub message: Option<String>,
}

/// The verdict for one admission request.
pub struct AdmissionResponse {
    pub allowed: bool,
    pub status: Option<Status>,
    pub uid: String,
}

/// The protocol envelope: one side carries the ask, the other the answer,
/// never both.
pub struct AdmissionReview {
    pub api_version: Option<String>,
    pub kind: Option<String>,
    pub request: Option<AdmissionRequest>,
    pub response: Option<AdmissionResponse>,
}

/// The denial reason for a request that carried no payload.
pub open spec fn no_data_msg() -> Seq<char> {
    "request object contains no data"@
}

/// The protocol version marker the handler stamps on its answer.
pub open spec fn api_version_text() -> Seq<char> {
    "admission.k8s.io/v1"@
}

/// The protocol kind marker the handler stamps on its answer.
pub open spec fn kind_text() -> Seq<char> {
    "AdmissionReview"@
}

/// What the verdict for a request and a round-trip outcome must be.
///
/// The response token always equals the request token. An absent payload is
/// denied with the fixed no-data reason. A present payload is allowed
/// exactly when the re-encoded value passes the structural comparison, and
/// on denial the status carries the comparator's failure text verbatim; an
/// allowed response carries no status.
pub open spec fn validate_post(
    rqst: AdmissionRequest,
    reencoded: Option<JsonValue>,
    r: AdmissionResponse,
) -> bool {
    &&& r.uid@ == rqst.uid@
    &&& match rqst.object {
        Option::None => {
            &&& !r.allowed
            &&& r.status matches Some(st) && st.message matches Some(m) && m@ == no_data_msg()
        },
        Option::Some(v) => reencoded matches Some(d) ==> {
            &&& r.allowed == check_ok(v, d)
            &&& check_ok(v, d) ==> r.status is None
            &&& !check_ok(v, d) ==> (r.status matches Some(st) && (st.message matches Some(m)
                && m@ == check_msg(v, d)))
        },
    }
}

/// Produces the verdict for one request.
///
/// `reencoded` is the outcome of the schema round trip on the request's
/// payload — decode into the typed resource, encode again, read back as a
/// value — which the caller performs when a payload is present.
pub fn validate_configuration(rqst: &AdmissionRequest, reencoded: &Option<JsonValue>) -> (r:
    AdmissionResponse)
    requires
        rqst.object is Some ==> reencoded is Some,
    ensures
        validate_post(*rqst, *reencoded, r),
{
    match &rqst.object {
        Option::Some(v) => {
            match reencoded {
                Option::Some(d) => {
                    match check(v, d) {
                        Result::Ok(()) => AdmissionResponse {
                            allowed: true,
                            status: None,
                            uid: rqst.uid.clone(),
                        },
                        Result::Err(m) => AdmissionResponse {
                            allowed: false,
                            status: Some(Status { message: Some(m) }),
                            uid: rqst.uid.clone(),
                        },
                    }
                },
                Option::None => {
                    // A present payload comes with its re-encoding; this
                    // arm cannot be reached.
                    proof {
                        assert(false);
                    }
                    AdmissionResponse { allowed: false, status: None, uid: rqst.uid.clone() }
                },
            }
        },
        Option::None => AdmissionResponse {
            allowed: false,
            status: Some(
                Status { message: Some(String::from_str("request object contains no data")) },
            ),
            uid: rqst.uid.clone(),
        },
    }
}

/// What the handler's answer to an envelope must be.
///
/// An envelope without an inner request yields no answer envelope — the
/// transport turns that into a bad-request signal. Otherwise the answer
/// keeps the protocol version and kind markers, carries no request, and
/// wraps the verdict for the inner request.
pub open spec fn handle_post(
    review: AdmissionReview,
    reencoded: Option<JsonValue>,
    out: Option<AdmissionReview>,
) -> bool {
    match review.request {
        Option::None => out is None,
        Option::Some(rq) => out matches Some(o) && {
            &&& o.api_version matches Some(a) && a@ == api_version_text()
            &&& o.kind matches Some(k) && k@ == kind_text()
            &&& o.request is None
            &&& o.response matches Some(resp) && validate_post(rq, reencoded, resp)
        },
    }
}

/// Handles one admission-review envelope.
///
/// Returns the answer envelope, or nothing where the envelope carried no
/// inner request — a malformed call, not a policy decision.
pub fn validate(review: &AdmissionReview, reencoded: &Option<JsonValue>) -> (out: Option<
    AdmissionReview,
>)
    requires
        review.request matches Some(rq) && rq.object is Some ==> reencoded is Some,
    ensures
        handle_post(*review, *reencoded, out),
{
    match &review.request {
        Option::Some(rq) => {
            let resp = validate_configuration(rq, reencoded);
            Some(
                AdmissionReview {
                    api_version: Some(String::from_str("admission.k8s.io/v1")),
                    kind: Some(String::from_str("AdmissionReview")),
                    request: None,
                    response: Some(resp),
                },
            )
        },
        Option::None => None,
    }
}

/// Law: the verdict is deterministic. Any two responses that answer the
/// same request under the same round-trip outcome agree on the verdict,
/// the correlation token, and the reason text.
pub proof fn lemma_validate_deterministic(
    rqst: AdmissionRequest,
    reencoded: Option<JsonValue>,
    r1: AdmissionResponse,
    r2: AdmissionResponse,
)
    requires
        rqst.object is Some ==> reencoded is Some,
        validate_post(rqst, reencoded, r1),
        validate_post(rqst, reencoded, r2),
    ensures
        r1.allowed == r2.allowed,
        r1.uid@ == r2.uid@,
        r1.status is Some <==> r2.status is Some,
        r1.status matches Some(s1) ==> (r2.status matches Some(s2) && (s1.message is Some
            <==> s2.message is Some) && (s1.message matches Some(m1) ==> (s2.message matches Some(
            m2,
        ) && m1@ == m2@))),
{
}

} // verus!
