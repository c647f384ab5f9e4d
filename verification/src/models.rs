//! Server-side schemas of the metadata service. Pure data with no behavior
//! of its own.
use vstd::prelude::*;

use std::collections::HashMap;

verus! {

/// What the metadata service records about one stored object.
pub struct DataStoreServiceSchema {
    bucket: String,
    key: String,
    version: String,
    locations: Vec<ObjectLocation>,
    metadata: HashMap<String, String>,
}

/// One service that holds a copy of an object.
pub struct ObjectLocation {
    service_name: String,
}

} // verus!
