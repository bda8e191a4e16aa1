//! Asset index for static files kept in a remote key-value store: the index
//! model, its binary codec, the builder with change detection, the lazy
//! resolver, and the rules of the store client.
pub mod assets;
pub mod builder;
pub mod codec;
pub mod error;
pub mod index;
pub mod order;
pub mod remote;

pub use assets::KVAssets;
pub use builder::Update;
pub use error::Error;
pub use index::{AssetIndex, AssetMetadata};
pub use remote::{init_kv, KV};
