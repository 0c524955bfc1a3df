//! The response envelope and its error values.
use protowire::envelope::{new_app_error, AppError, Envelope, FieldError};

/// The metadata value stored under `key`.
fn meta<'a>(ae: &'a AppError, key: &str) -> Option<&'a str> {
    ae.metadata.iter().find(|(k, _)| k == key).map(|(_, v)| v.as_str())
}

/// The field error for `field` among those `field_errors` lists.
fn by_field<'a>(idx: &[&'a FieldError], field: &str) -> Option<&'a FieldError> {
    idx.iter().copied().find(|f| f.field == field)
}


fn s(v: &str) -> String {
    v.to_string()
}

#[test]
fn ok_envelope_is_ok_and_has_no_errors() {
    let e = Envelope::ok(200, vec![1, 2, 3]);
    assert_eq!(e.status, 200);
    assert_eq!(e.data, vec![1, 2, 3]);
    assert_eq!(e.transport_error, "");
    assert!(e.error.is_none());
    assert!(e.is_ok());
    assert!(!e.is_transport_error());
    assert!(!e.is_app_error());
    assert_eq!(e.error_code(), "");
}

#[test]
fn err_carries_app_error_and_is_not_ok() {
    let e = Envelope::err(400, "INVALID", "bad input", vec![s("name"), s("too short")]);
    assert_eq!(e.status, 400);
    let ae = e.error.as_ref().expect("error set");
    assert_eq!(ae.code, "INVALID");
    assert_eq!(ae.message, "bad input");
    assert_eq!(ae.args, vec![s("name"), s("too short")]);
    assert!(!e.is_ok());
    assert!(!e.is_transport_error());
    assert!(e.is_app_error());
    assert_eq!(e.error_code(), "INVALID");
}

#[test]
fn err_works_without_args() {
    let e = Envelope::err(500, "OOPS", "", vec![]);
    let ae = e.error.as_ref().unwrap();
    assert_eq!(ae.code, "OOPS");
    assert_eq!(ae.message, "");
    assert!(ae.args.is_empty());
}

#[test]
fn transport_err_carries_transport_error() {
    let e = Envelope::transport_err("connection refused");
    assert_eq!(e.transport_error, "connection refused");
    assert!(e.error.is_none());
    assert!(!e.is_ok());
    assert!(e.is_transport_error());
    assert!(!e.is_app_error());
    assert_eq!(e.error_code(), "");
}

#[test]
fn with_field_appends_field_errors_via_chain() {
    let mut ae = new_app_error("VALIDATION", "fields invalid", vec![]);
    ae.with_field("email", "FORMAT", "invalid email", vec![s("user@bad")])
        .with_field("age", "RANGE", "must be positive", vec![]);
    assert_eq!(ae.details.len(), 2);
    assert_eq!(ae.details[0].field, "email");
    assert_eq!(ae.details[0].args, vec![s("user@bad")]);
    assert_eq!(ae.details[1].field, "age");
    assert!(ae.details[1].args.is_empty());
}

#[test]
fn with_meta_sets_metadata_entries_via_chain() {
    let mut ae = new_app_error("X", "", vec![]);
    ae.with_meta("region", "us-east").with_meta("tier", "free");
    assert_eq!(ae.metadata.len(), 2);
    assert_eq!(meta(&ae, "region"), Some("us-east"));
    assert_eq!(meta(&ae, "tier"), Some("free"));
}

#[test]
fn field_errors_none_when_no_app_error() {
    assert!(Envelope::ok(200, vec![]).field_errors().is_none());
    assert!(Envelope::transport_err("nope").field_errors().is_none());
}

#[test]
fn field_errors_none_when_app_error_has_no_details() {
    assert!(Envelope::err(400, "BAD", "", vec![]).field_errors().is_none());
}

#[test]
fn field_errors_indexes_by_field_name() {
    let mut ae = new_app_error("VALIDATION", "", vec![]);
    ae.with_field("email", "FORMAT", "", vec![])
        .with_field("age", "RANGE", "", vec![]);
    let e = Envelope {
        status: 400,
        error: Some(ae),
        ..Default::default()
    };
    let idx = e.field_errors().expect("indexed");
    let mut keys: Vec<&str> = idx.iter().map(|f| f.field.as_str()).collect();
    keys.sort();
    assert_eq!(keys, vec!["age", "email"]);
    assert_eq!(by_field(&idx, "email").unwrap().code, "FORMAT");
    assert_eq!(by_field(&idx, "age").unwrap().code, "RANGE");
}

#[test]
fn default_envelope_is_ok_equivalent() {
    let e = Envelope::default();
    assert_eq!(e.status, 0);
    assert_eq!(e.transport_error, "");
    assert!(e.data.is_empty());
    assert!(e.error.is_none());
    assert!(e.is_ok());
}

#[test]
fn default_app_error_has_empty_message_args_details_metadata() {
    let ae = AppError::new("CODE", "", vec![]);
    assert_eq!(ae.message, "");
    assert!(ae.args.is_empty());
    assert!(ae.details.is_empty());
    assert!(ae.metadata.is_empty());
}
