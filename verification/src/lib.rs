//! Layered input/output resolution core for a document-typesetting engine.
//!
//! The crate provides the lexical path normalizer that defends against
//! directory escape, the tri-state open-result model exchanged between the
//! engine and its storage backends, the provider and bundle capability
//! traits every backend satisfies, and the ordered fallback stack that
//! composes several providers into one.

pub mod bundle;
pub mod digest;
pub mod handles;
pub mod open_result;
pub mod paths;
pub mod provider;
pub mod stack;
pub mod testing;

pub use bundle::{get_digest_from_manifest, Bundle};
pub use digest::DigestData;
pub use handles::{InputHandle, InputOrigin, OutputHandle};
pub use open_result::{IoError, IoErrorKind, OpenResult};
pub use paths::{normalize_tex_path, try_normalize_tex_path};
pub use provider::IoProvider;
pub use stack::IoStack;
