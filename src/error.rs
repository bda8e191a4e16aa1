use vstd::prelude::*;

verus! {

/// Errors of the asset index, its resolver and the store client.
#[derive(Clone, Debug, PartialEq, Eq)]
pub enum Error {
    /// The request could not be made or its reply not read: message, body.
    KVHttp(String, String),
    /// The store answered with a status other than success: status, body.
    KVHttpStatus(u16, String),
    /// The store has no value under the key: key, status.
    KVKeyNotFound(String, u16),
    /// The index bytes do not hold an index.
    DeserializeAssets(String),
    /// The lookup path is empty once its leading slash is removed.
    EmptyKey,
    /// An error of the site tooling.
    Wrangler(String),
    /// A file could not be read or written.
    IO(String),
    /// The index output path cannot be used.
    InvalidAssetsBinPath(String),
    /// The output directory could not be created.
    CreateDir(String),
    /// The asset path is not a directory.
    InvalidAssetPath(String),
    /// The configuration file is missing.
    MissingWranglerFile(String),
    /// A write asked for an expiration TTL under the store's floor.
    TTLTooShort,
    /// Any other error.
    Message(String),
}

} // verus!
