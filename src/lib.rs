//! A block-level cryptographic storage layer with secure deletion.
//!
//! Every block of every object is encrypted under its own key; writing a block rotates its key,
//! and a commit persists the per-object key tables under keys taken from a master table, whose
//! own blob is encrypted under a master key kept in a small trusted enclave.

pub mod blockcrypt;
pub mod codec;
pub mod crypt;
pub mod crypto;
pub mod error;
pub mod idalloc;
pub mod keys;
pub mod lethe;
pub mod memio;
pub mod recrypt;
pub mod store;

pub use blockcrypt::{BlockCryptIO, BlockCryptIo};
pub use crypt::{CryptIo, KhfIO};
pub use error::Error;
pub use idalloc::Allocator;
pub use keys::KeyTable;
pub use lethe::{Lethe, LetheBuilder, MapEntry};
pub use memio::{MemIo, SeekFrom};
pub use recrypt::BlockRecryptIo;
pub use store::{MemStore, Mode};
