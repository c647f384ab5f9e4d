//! Request objects of the store's operations, built from and serialized to
//! wire messages.
pub mod create_mutlipart_upload;
