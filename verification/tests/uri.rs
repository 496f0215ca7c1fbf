use objectfs::uri::{parse_bucket_from_uri, parse_provider_from_uri, Provider};

#[test]
fn test_parse_provider() {
    assert!(matches!(
        parse_provider_from_uri("s3://bucket"),
        Ok(Provider::AWS)
    ));
    assert!(matches!(
        parse_provider_from_uri("gs://bucket"),
        Ok(Provider::GCS)
    ));
    assert!(matches!(parse_provider_from_uri("ftp://bucket"), Err(_)));
}

#[test]
fn test_parse_bucket() {
    assert!(matches!(parse_bucket_from_uri("s3://bucket"), "bucket"));
    assert!(matches!(parse_bucket_from_uri("gs://bucket"), "bucket"));
    assert!(matches!(parse_bucket_from_uri("bucket"), ""));
}

#[test]
fn test_provider_predicates() {
    assert!(Provider::AWS.is_aws());
    assert!(!Provider::GCS.is_aws());
    assert!(Provider::GCS._is_gcs());
    assert!(!Provider::AWS._is_gcs());
}

#[test]
fn test_parse_provider_error_message() {
    let err = parse_provider_from_uri("ftp://bucket").unwrap_err();
    assert_eq!(err.message, "failed to parse provider of: ftp://bucket");
    assert_eq!(err.description(), "failed to parse provider of: ftp://bucket");
}
