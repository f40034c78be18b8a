use iqdb_rs::{query_default_limit, ApiError, GetQuery};

#[test]
fn error_names_and_statuses() {
    assert_eq!(ApiError::InvalidHash.name(), "invalid_hash");
    assert_eq!(ApiError::MissingFileOrHash.name(), "missing_file_or_hash");
    assert_eq!(ApiError::NotFound.status(), 404);
    assert_eq!(ApiError::InvalidImage.status(), 400);
    let store = ApiError::Sqlite {
        code: Some(5),
        message: None,
    };
    assert_eq!(store.status(), 500);
    assert_eq!(store.name(), "sqlite");
}

#[test]
fn upload_reports_missing_file() {
    assert_eq!(ApiError::MissingFileOrHash.for_upload().name(), "missing_file");
    assert_eq!(ApiError::InvalidFile.for_upload().name(), "invalid_file");
}

#[test]
fn default_limit() {
    assert_eq!(query_default_limit(), 20);
    assert_eq!(GetQuery::new(None, None).limit, 20);
    assert_eq!(GetQuery::new(Some(3), Some("x".to_string())).limit, 3);
}
