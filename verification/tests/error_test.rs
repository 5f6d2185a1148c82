use co_worker_lite::error::AppError;

#[test]
fn errors_have_codes_statuses_and_messages() {
    let s = || "x".to_string();
    let table = vec![
        (AppError::Config(s()), "config_error", 500, "configuration error: x"),
        (AppError::Io(s()), "io_error", 500, "io error: x"),
        (AppError::Database(s()), "database_error", 500, "database error: x"),
        (AppError::Migrate(s()), "database_error", 500, "migration error: x"),
        (AppError::Http(s()), "network_error", 500, "http error: x"),
        (AppError::HfHub(s()), "network_error", 500, "hugging face error: x"),
        (AppError::Uuid(s()), "invalid_uuid", 400, "invalid uuid: x"),
        (AppError::Json(s()), "json_error", 500, "json error: x"),
        (AppError::SessionNotFound, "session_not_found", 404, "session not found"),
        (AppError::MemoryNotFound, "memory_not_found", 404, "memory not found"),
        (AppError::ModelNotLoaded, "model_not_loaded", 503, "model not loaded"),
        (AppError::BadRequest(s()), "bad_request", 400, "invalid request: x"),
        (
            AppError::ChecksumMismatch { expected: "a".to_string(), actual: "b".to_string() },
            "checksum_mismatch",
            500,
            "checksum mismatch: expected a, got b",
        ),
        (AppError::Inference(s()), "inference_error", 500, "inference error: x"),
        (AppError::Internal(s()), "internal_error", 500, "internal error: x"),
    ];
    for (e, code, status, message) in table {
        assert_eq!(e.code(), code);
        assert_eq!(e.status(), status);
        assert_eq!(e.message(), message);
        let body = e.body();
        assert_eq!(body["error"]["code"], code);
        assert_eq!(body["error"]["message"], message);
        assert_eq!(body.as_object().unwrap().len(), 1);
        assert_eq!(body["error"].as_object().unwrap().len(), 2);
    }
}
