use akri_webhook::admission::AdmissionRequest;
use akri_webhook::admission::AdmissionReview;
use akri_webhook::admission::Status;
use akri_webhook::admission::validate;
use akri_webhook::admission::validate_configuration;
use akri_webhook::compare::check;
use akri_webhook::json::parse_decimal;
use akri_webhook::json::render;
use akri_webhook::json::JsonNumber;
use akri_webhook::json::JsonValue;

fn s(text: &str) -> JsonValue {
    JsonValue::Str(text.to_string())
}

fn int_num(n: u64) -> JsonValue {
    JsonValue::Number(JsonNumber::new(false, n, 0))
}

fn obj(entries: Vec<(&str, JsonValue)>) -> JsonValue {
    JsonValue::Object(entries.into_iter().map(|(k, v)| (k.to_string(), v)).collect())
}

fn arr(elems: Vec<JsonValue>) -> JsonValue {
    JsonValue::Array(elems)
}

fn request(object: Option<JsonValue>) -> AdmissionRequest {
    AdmissionRequest { uid: "uid-1234".to_string(), object }
}

fn message_of(status: &Option<Status>) -> &str {
    status.as_ref().unwrap().message.as_ref().unwrap()
}

#[test]
fn exact_round_trip_is_allowed() {
    let payload = obj(vec![
        ("metadata", obj(vec![("name", s("foo"))])),
        ("spec", obj(vec![("x", int_num(1))])),
    ]);
    let same = obj(vec![
        ("metadata", obj(vec![("name", s("foo"))])),
        ("spec", obj(vec![("x", int_num(1))])),
    ]);
    let resp = validate_configuration(&request(Some(payload)), &Some(same));
    assert!(resp.allowed);
    assert!(resp.status.is_none());
    assert_eq!(resp.uid, "uid-1234");
}

#[test]
fn dropped_volatile_field_is_allowed() {
    let payload = obj(vec![
        (
            "metadata",
            obj(vec![
                ("name", s("foo")),
                ("creationTimestamp", s("2021-01-01T00:00:00Z")),
            ]),
        ),
        ("spec", obj(vec![("x", int_num(1))])),
    ]);
    let reencoded = obj(vec![
        ("metadata", obj(vec![("name", s("foo"))])),
        ("spec", obj(vec![("x", int_num(1))])),
    ]);
    let resp = validate_configuration(&request(Some(payload)), &Some(reencoded));
    assert!(resp.allowed);
    assert!(resp.status.is_none());
}

#[test]
fn changed_volatile_field_is_allowed() {
    let payload = obj(vec![(
        "metadata",
        obj(vec![("creationTimestamp", s("2021-01-01T00:00:00Z"))]),
    )]);
    let reencoded = obj(vec![(
        "metadata",
        obj(vec![("creationTimestamp", s("1999-12-31T23:59:59Z"))]),
    )]);
    let resp = validate_configuration(&request(Some(payload)), &Some(reencoded));
    assert!(resp.allowed);
}

#[test]
fn volatile_key_skips_only_its_own_entry() {
    // The volatile entry is skipped, but a sibling the re-encoding
    // dropped is still caught and named.
    let payload = obj(vec![(
        "metadata",
        obj(vec![
            ("creationTimestamp", s("2021-01-01T00:00:00Z")),
            ("name", s("foo")),
        ]),
    )]);
    let reencoded = obj(vec![("metadata", obj(vec![]))]);
    let resp = validate_configuration(&request(Some(payload)), &Some(reencoded));
    assert!(!resp.allowed);
    assert_eq!(
        message_of(&resp.status),
        "input key ('metadata') not equal to parsed: (input key ('name') not equal to parsed: \
         (no matching value in deserialized))"
    );
}

#[test]
fn siblings_around_volatile_key_still_allowed_when_kept() {
    let payload = obj(vec![(
        "metadata",
        obj(vec![
            ("creationTimestamp", s("2021-01-01T00:00:00Z")),
            ("name", s("foo")),
        ]),
    )]);
    let reencoded = obj(vec![("metadata", obj(vec![("name", s("foo"))]))]);
    let resp = validate_configuration(&request(Some(payload)), &Some(reencoded));
    assert!(resp.allowed);
}

#[test]
fn dropped_key_is_denied_and_named() {
    let payload = obj(vec![("spec", obj(vec![("x", int_num(1)), ("y", int_num(2))]))]);
    let reencoded = obj(vec![("spec", obj(vec![("x", int_num(1))]))]);
    let resp = validate_configuration(&request(Some(payload)), &Some(reencoded));
    assert!(!resp.allowed);
    assert_eq!(
        message_of(&resp.status),
        "input key ('spec') not equal to parsed: (input key ('y') not equal to parsed: \
         (no matching value in deserialized))"
    );
    assert_eq!(resp.uid, "uid-1234");
}

#[test]
fn absent_payload_is_denied() {
    let resp = validate_configuration(&request(None), &None);
    assert!(!resp.allowed);
    assert_eq!(message_of(&resp.status), "request object contains no data");
    assert_eq!(resp.uid, "uid-1234");
}

#[test]
fn equal_numeric_value_is_allowed() {
    // Three and three-point-zero denote the same number: one canonical form.
    let payload = obj(vec![("spec", obj(vec![("count", int_num(3))]))]);
    let reencoded = obj(vec![(
        "spec",
        obj(vec![("count", JsonValue::Number(JsonNumber::new(false, 30, -1)))]),
    )]);
    let resp = validate_configuration(&request(Some(payload)), &Some(reencoded));
    assert!(resp.allowed);
}

#[test]
fn differing_numbers_are_denied() {
    let payload = obj(vec![("count", int_num(3))]);
    let reencoded = obj(vec![("count", int_num(4))]);
    let resp = validate_configuration(&request(Some(payload)), &Some(reencoded));
    assert!(!resp.allowed);
    assert_eq!(
        message_of(&resp.status),
        "input key ('count') not equal to parsed: (input (3) not equal to parsed (4))"
    );
}

#[test]
fn extra_object_keys_are_allowed() {
    let payload = obj(vec![("spec", obj(vec![("x", int_num(1))]))]);
    let reencoded = obj(vec![
        ("spec", obj(vec![("x", int_num(1)), ("added", s("by-server"))])),
        ("status", obj(vec![("phase", s("Pending"))])),
    ]);
    let resp = validate_configuration(&request(Some(payload)), &Some(reencoded));
    assert!(resp.allowed);
}

#[test]
fn extra_array_elements_are_allowed() {
    let payload = obj(vec![("items", arr(vec![int_num(1), int_num(2)]))]);
    let reencoded = obj(vec![("items", arr(vec![int_num(1), int_num(2), int_num(3)]))]);
    let resp = validate_configuration(&request(Some(payload)), &Some(reencoded));
    assert!(resp.allowed);
}

#[test]
fn missing_array_element_is_denied() {
    let payload = arr(vec![int_num(1), int_num(2)]);
    let reencoded = arr(vec![int_num(1)]);
    let r = check(&payload, &reencoded);
    assert_eq!(
        r.unwrap_err(),
        "input index (1) not equal to parsed: (no matching value in deserialized)"
    );
}

#[test]
fn kind_mismatch_is_denied() {
    let payload = obj(vec![("flag", JsonValue::Bool(true))]);
    let reencoded = obj(vec![("flag", s("true"))]);
    let resp = validate_configuration(&request(Some(payload)), &Some(reencoded));
    assert!(!resp.allowed);
    assert_eq!(
        message_of(&resp.status),
        "input key ('flag') not equal to parsed: (input (true) not equal to parsed ('true'))"
    );
}

#[test]
fn null_survives_as_null() {
    let payload = obj(vec![("a", JsonValue::Null)]);
    let reencoded = obj(vec![("a", JsonValue::Null)]);
    let resp = validate_configuration(&request(Some(payload)), &Some(reencoded));
    assert!(resp.allowed);
}

#[test]
fn lost_non_null_value_is_denied() {
    let payload = obj(vec![("a", s("kept"))]);
    let reencoded = obj(vec![]);
    let resp = validate_configuration(&request(Some(payload)), &Some(reencoded));
    assert!(!resp.allowed);
    assert_eq!(
        message_of(&resp.status),
        "input key ('a') not equal to parsed: (no matching value in deserialized)"
    );
}

#[test]
fn verdict_is_deterministic() {
    let payload = obj(vec![("spec", obj(vec![("x", int_num(1)), ("y", int_num(2))]))]);
    let reencoded = obj(vec![("spec", obj(vec![("x", int_num(1))]))]);
    let rq = request(Some(payload));
    let first = validate_configuration(&rq, &Some(reencoded));
    let payload2 = obj(vec![("spec", obj(vec![("x", int_num(1)), ("y", int_num(2))]))]);
    let reencoded2 = obj(vec![("spec", obj(vec![("x", int_num(1))]))]);
    let second = validate_configuration(&request(Some(payload2)), &Some(reencoded2));
    assert_eq!(first.allowed, second.allowed);
    assert_eq!(first.uid, second.uid);
    assert_eq!(message_of(&first.status), message_of(&second.status));
}

#[test]
fn envelope_without_request_is_refused() {
    let review = AdmissionReview {
        api_version: Some("admission.k8s.io/v1".to_string()),
        kind: Some("AdmissionReview".to_string()),
        request: None,
        response: None,
    };
    assert!(validate(&review, &None).is_none());
}

#[test]
fn envelope_answer_correlates_and_is_marked() {
    let payload = obj(vec![("spec", obj(vec![("x", int_num(1))]))]);
    let same = obj(vec![("spec", obj(vec![("x", int_num(1))]))]);
    let review = AdmissionReview {
        api_version: Some("admission.k8s.io/v1".to_string()),
        kind: Some("AdmissionReview".to_string()),
        request: Some(request(Some(payload))),
        response: None,
    };
    let out = validate(&review, &Some(same)).unwrap();
    assert_eq!(out.api_version.as_deref(), Some("admission.k8s.io/v1"));
    assert_eq!(out.kind.as_deref(), Some("AdmissionReview"));
    assert!(out.request.is_none());
    let resp = out.response.unwrap();
    assert!(resp.allowed);
    assert_eq!(resp.uid, "uid-1234");
}

#[test]
fn numbers_canonicalize() {
    assert_eq!(JsonNumber::new(false, 3000, -3), JsonNumber::new(false, 3, 0));
    assert_eq!(JsonNumber::new(true, 100, 0), JsonNumber::new(true, 1, 2));
    let zero = JsonNumber::new(true, 0, 7);
    assert!(!zero.neg);
    assert_eq!(zero.mantissa, 0);
    assert_eq!(zero.exp, 0);
}

#[test]
fn numbers_render_in_decimal() {
    assert_eq!(render(&int_num(0)), "0");
    assert_eq!(render(&int_num(42)), "42");
    assert_eq!(
        render(&JsonValue::Number(JsonNumber::new(true, 15, 0))),
        "-15"
    );
    assert_eq!(
        render(&JsonValue::Number(JsonNumber::new(false, 25, -1))),
        "25e-1"
    );
    assert_eq!(
        render(&JsonValue::Number(JsonNumber::new(false, 7, 3))),
        "7e3"
    );
}

#[test]
fn null_equals_null() {
    assert!(check(&JsonValue::Null, &JsonValue::Null).is_ok());
}

#[test]
fn empty_object_asks_nothing_of_the_reencoding() {
    // An object with no entries has nothing that could have been lost.
    assert!(check(&obj(vec![]), &s("anything")).is_ok());
}

#[test]
fn top_level_volatile_key_is_exempt() {
    let payload = obj(vec![("creationTimestamp", s("2021-01-01T00:00:00Z"))]);
    let reencoded = obj(vec![]);
    assert!(check(&payload, &reencoded).is_ok());
}

#[test]
fn mismatch_inside_array_names_index_and_key() {
    let payload = arr(vec![
        obj(vec![("a", int_num(1))]),
        obj(vec![("b", int_num(2))]),
    ]);
    let reencoded = arr(vec![obj(vec![("a", int_num(1))]), obj(vec![])]);
    let r = check(&payload, &reencoded);
    assert_eq!(
        r.unwrap_err(),
        "input index (1) not equal to parsed: (input key ('b') not equal to parsed: \
         (no matching value in deserialized))"
    );
}

fn parsed(text: &str) -> JsonNumber {
    parse_decimal(&text.as_bytes().to_vec()).unwrap()
}

#[test]
fn decimal_literals_parse_to_canonical_numbers() {
    assert_eq!(parsed("3"), JsonNumber::new(false, 3, 0));
    assert_eq!(parsed("3.0"), JsonNumber::new(false, 3, 0));
    assert_eq!(parsed("-15"), JsonNumber::new(true, 15, 0));
    assert_eq!(parsed("2.50"), JsonNumber::new(false, 25, -1));
    assert_eq!(parsed("-1.5e3"), JsonNumber::new(true, 15, 2));
    assert_eq!(parsed("4E+2"), JsonNumber::new(false, 4, 2));
    assert_eq!(parsed("7e-3"), JsonNumber::new(false, 7, -3));
    assert_eq!(parsed("0.000"), JsonNumber::new(false, 0, 0));
}

#[test]
fn malformed_decimal_literals_are_refused() {
    assert!(parse_decimal(&b"".to_vec()).is_none());
    assert!(parse_decimal(&b"-".to_vec()).is_none());
    assert!(parse_decimal(&b"1.".to_vec()).is_none());
    assert!(parse_decimal(&b".5".to_vec()).is_none());
    assert!(parse_decimal(&b"1e".to_vec()).is_none());
    assert!(parse_decimal(&b"1e+".to_vec()).is_none());
    assert!(parse_decimal(&b"abc".to_vec()).is_none());
    assert!(parse_decimal(&b"12x".to_vec()).is_none());
    assert!(parse_decimal(&b"12345678901234567890".to_vec()).is_none());
}

#[test]
fn scalars_render_by_kind() {
    assert_eq!(render(&JsonValue::Null), "null");
    assert_eq!(render(&JsonValue::Bool(false)), "false");
    assert_eq!(render(&s("hi")), "'hi'");
    assert_eq!(render(&arr(vec![])), "(array)");
    assert_eq!(render(&obj(vec![])), "(object)");
}
