//! The object-store port: the capability set every backend offers the
//! filesystem, and a no-op client for exercising the namespace without a
//! store. Real backends translate these calls onto a remote store and live
//! outside the verified library; nothing is assumed about their outcomes.

use vstd::prelude::*;

use crate::model::{FSError, FSObject};

verus! {

/// A backend as the bootstrap sees it: the handler capability set plus the
/// bucket probe used before mounting.
pub trait Object {
    /// Store `body` (an absent body means a zero-length object) under `key`.
    fn fs_put_object(&self, bucket: &str, key: &str, body: Option<Vec<u8>>) -> Result<
        (),
        FSError,
    >;

    /// Every object under `prefix`, pagination followed to exhaustion.
    fn fs_list_objects(&self, bucket: &str, prefix: &str) -> Result<Vec<FSObject>, FSError>;

    /// The object's bytes, cut to `range` when one is given; `None` when the
    /// key does not exist, as distinguished from a transport error.
    fn fs_download_object(&self, bucket: &str, key: &str, range: Option<(u64, u64)>) -> Result<
        Option<Vec<u8>>,
        FSError,
    >;

    /// Whether the bucket exists; transport errors other than "not found"
    /// surface as errors.
    fn fs_bucket_exists(&self, bucket: &str) -> Result<bool, FSError>;
}

/// A backend as the filesystem handlers call it.
pub trait ObjectAdapter {
    /// Store `body` (an absent body means a zero-length object) under `key`.
    fn fs_put_object(&self, bucket: &str, key: &str, body: Option<Vec<u8>>) -> Result<
        (),
        FSError,
    >;

    /// Every object under `prefix`, pagination followed to exhaustion.
    fn fs_list_objects(&self, bucket: &str, prefix: &str) -> Result<Vec<FSObject>, FSError>;

    /// The object's record, or `None` when the key does not exist.
    fn fs_head_object(&self, bucket: &str, key: &str) -> Result<Option<FSObject>, FSError>;

    /// The object's bytes, cut to `range` when one is given; `None` when the
    /// key does not exist, as distinguished from a transport error.
    fn fs_download_object(&self, bucket: &str, key: &str, range: Option<(u64, u64)>) -> Result<
        Option<Vec<u8>>,
        FSError,
    >;
}

/// A backend that stores nothing: puts are acknowledged, listings are empty,
/// and every download finds an empty object.
pub struct MockClient {}

impl Object for MockClient {
    fn fs_put_object(&self, _bucket: &str, _key: &str, _body: Option<Vec<u8>>) -> Result<
        (),
        FSError,
    > {
        Ok(())
    }

    fn fs_list_objects(&self, _bucket: &str, _prefix: &str) -> Result<Vec<FSObject>, FSError> {
        Ok(Vec::new())
    }

    fn fs_download_object(&self, _bucket: &str, _key: &str, _range: Option<(u64, u64)>) -> Result<
        Option<Vec<u8>>,
        FSError,
    > {
        Ok(Some(Vec::new()))
    }

    fn fs_bucket_exists(&self, _bucket: &str) -> Result<bool, FSError> {
        Ok(true)
    }
}

impl ObjectAdapter for MockClient {
    fn fs_put_object(&self, _bucket: &str, _key: &str, _body: Option<Vec<u8>>) -> Result<
        (),
        FSError,
    > {
        Ok(())
    }

    fn fs_list_objects(&self, _bucket: &str, _prefix: &str) -> Result<Vec<FSObject>, FSError> {
        Ok(Vec::new())
    }

    fn fs_head_object(&self, _bucket: &str, _key: &str) -> Result<Option<FSObject>, FSError> {
        Ok(None)
    }

    fn fs_download_object(&self, _bucket: &str, _key: &str, _range: Option<(u64, u64)>) -> Result<
        Option<Vec<u8>>,
        FSError,
    > {
        Ok(Some(Vec::new()))
    }
}

} // verus!
