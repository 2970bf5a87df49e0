use literal_constraints::index::GlobalId;
use literal_constraints::metrics::{for_collection, record_dataflow_reconciliation, Reconciliation};
use literal_constraints::webhook::{
    repeated_header, AdapterError, AppendWebhookError, BodyType, StorageError, WebhookError,
};

#[test]
fn smoke_test_adapter_error_response_status() {
    // Unsupported errors get mapped to a certain response status.
    let status = WebhookError::from_adapter_error(AdapterError::Unsupported("test")).status_code();
    assert_eq!(status, 400);

    // All other errors should map to 500.
    let status =
        WebhookError::from_adapter_error(AdapterError::Internal("test".to_string())).status_code();
    assert_eq!(status, 500);
}

#[test]
fn smoke_test_storage_error_response_status() {
    // Resource exhausted should get mapped to a specific status code.
    let status =
        WebhookError::from_storage_error(StorageError::ResourceExhausted("test")).status_code();
    assert_eq!(status, 429);

    // IdentifierMissing should also get mapped to a specific status code.
    let status =
        WebhookError::from_storage_error(StorageError::IdentifierMissing(GlobalId::User(42)))
            .status_code();
    assert_eq!(status, 404);

    // All other errors should map to 500.
    let status =
        WebhookError::from_adapter_error(AdapterError::Internal("test".to_string())).status_code();
    assert_eq!(status, 500);
}

#[test]
fn unknown_source_is_not_found_under_its_quoted_path() {
    let error = WebhookError::from_adapter_error(AdapterError::UnknownWebhookSource {
        database: "db".to_string(),
        schema: "public".to_string(),
        name: "hook".to_string(),
    });
    match &error {
        WebhookError::NotFound(path) => assert_eq!(path, "'db.public.hook'"),
        other => panic!("unexpected error {:?}", other),
    }
    assert_eq!(error.status_code(), 404);
}

#[test]
fn missing_collection_is_not_found_under_its_id() {
    let error = WebhookError::from_storage_error(StorageError::IdentifierInvalid(GlobalId::System(7)));
    match &error {
        WebhookError::NotFound(path) => assert_eq!(path, "s7"),
        other => panic!("unexpected error {:?}", other),
    }
    let other = WebhookError::from_storage_error(StorageError::Generic("disk".to_string()));
    assert!(matches!(other, WebhookError::InternalStorageError(StorageError::Generic(_))));
    assert_eq!(other.status_code(), 500);
}

#[test]
fn every_kind_of_error_has_its_status() {
    assert_eq!(WebhookError::SecretMissing.status_code(), 404);
    assert_eq!(WebhookError::ValidationFailed.status_code(), 400);
    assert_eq!(WebhookError::ValidationError.status_code(), 400);
    assert_eq!(WebhookError::InvalidHeaders("x provided more than once".to_string()).status_code(), 401);
    assert_eq!(
        WebhookError::InvalidBody { ty: BodyType::Jsonb, msg: "eof".to_string() }.status_code(),
        400
    );
    assert_eq!(WebhookError::Internal("oops".to_string()).status_code(), 500);
}

#[test]
fn validation_failures_become_webhook_errors() {
    assert!(matches!(
        WebhookError::from_append_error(AppendWebhookError::MissingSecret),
        WebhookError::SecretMissing
    ));
    assert!(matches!(
        WebhookError::from_append_error(AppendWebhookError::ValidationError),
        WebhookError::ValidationError
    ));
    match WebhookError::from_append_error(AppendWebhookError::NonUtf8Body) {
        WebhookError::InvalidBody { ty, msg } => {
            assert_eq!(ty, BodyType::String);
            assert_eq!(msg, "invalid");
        },
        other => panic!("unexpected error {:?}", other),
    }
    match WebhookError::from_append_error(AppendWebhookError::InternalError) {
        WebhookError::Internal(msg) => assert_eq!(msg, "failed to run validation"),
        other => panic!("unexpected error {:?}", other),
    }
}

#[test]
fn repeated_headers_are_found() {
    let names = |list: &[&str]| list.iter().map(|s| s.to_string()).collect::<Vec<String>>();
    assert_eq!(repeated_header(&names(&["a", "b", "c"])), None);
    assert_eq!(repeated_header(&names(&["a", "b", "a", "b"])), Some(2));
    assert_eq!(repeated_header(&names(&[])), None);
    assert_eq!(repeated_header(&names(&["x", "x"])), Some(1));
}

#[test]
fn reconciliation_is_recorded_by_the_first_property_that_fails() {
    assert_eq!(record_dataflow_reconciliation(true, true, true), Reconciliation::Reused);
    assert_eq!(record_dataflow_reconciliation(false, false, false), Reconciliation::Incompatible);
    assert_eq!(record_dataflow_reconciliation(true, false, false), Reconciliation::Compacted);
    assert_eq!(record_dataflow_reconciliation(true, true, false), Reconciliation::Subscribe);
    assert_eq!(Reconciliation::Reused.reason(), None);
    assert_eq!(Reconciliation::Incompatible.reason(), Some("incompatible"));
    assert_eq!(Reconciliation::Compacted.reason(), Some("compacted"));
    assert_eq!(Reconciliation::Subscribe.reason(), Some("subscribe"));
}

#[test]
fn transient_collections_get_no_metrics() {
    assert!(!for_collection(GlobalId::Transient(3)));
    assert!(for_collection(GlobalId::User(3)));
    assert!(for_collection(GlobalId::System(3)));
}
