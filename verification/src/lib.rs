//! The verified core of the ClipTown desktop client: clipboard history and proximity transport.

pub mod bluetooth;
pub mod clipboard;
pub mod codec;
pub mod crypto;
pub mod embedding;
pub mod json;
pub mod key_store;
pub mod model;
pub mod order;
pub mod probe;
pub mod proximity;
pub mod store;
pub mod text;
pub mod time;
pub mod window;

pub use embedding::HashEmbedding;
pub use model::{ClipInput, ClipKind, StoredClip};
pub use store::{HistoryStore, SearchHit};
