//! Schemas a client of the store exchanges with it: object and bucket
//! metadata, upload descriptions, and where an object's parts live. Pure
//! data with no behavior of its own.
use vstd::prelude::*;

use std::collections::HashMap;

verus! {

/// What the metadata service records about one stored object.
#[derive(Clone)]
pub struct DataStoreServiceSchema {
    bucket: String,
    key: String,
    version: String,
    locations: Vec<ObjectServer>,
    metadata: HashMap<String, String>,
}

/// One server that holds a copy of an object.
#[derive(Clone)]
pub struct ObjectServer {
    service_name: String,
}

/// Where one version of an object is stored, part by part.
#[derive(Clone)]
pub struct ObjectLocation {
    bucket: String,
    key: String,
    version: String,
    parts: Vec<ObjectPartLocation>,
}

/// The placement of one part of an object inside a file.
#[derive(Clone)]
pub struct ObjectPartLocation {
    file_location: String,
    byte_offset: u32,
    length: u32,
    check_sum: u32,
}

/// Identifies the object a multipart upload is being opened for.
#[derive(Clone, Debug)]
pub struct CreateMultipartUploadRequest {
    bucket: String,
    key: String,
    version: String,
}

/// One part of an open multipart upload.
pub struct UploadPart {
    upload_id: String,
    bytes: Vec<u8>,
}

/// Closes a multipart upload, fixing the order of its parts.
pub struct CloseMultipartUploadRequest {
    upload_id: String,
    part_order: Vec<String>,
}

/// A whole object uploaded in one request.
pub struct UploadObject {
    bucket: String,
    key: String,
    version: String,
    bytes: Vec<u8>,
}

} // verus!
