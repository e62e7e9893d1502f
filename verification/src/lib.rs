//! A content-addressed object repository.
//!
//! Objects are byte streams addressed by caller-chosen keys. Their content is
//! split into chunks at content-defined boundaries, every chunk is stored once
//! under its digest, and the mapping from keys to chunk lists lives in a header
//! that is published atomically when a transaction commits.
//!
//! The modules, from the ground up:
//!
//! - [`store`]: the block store that a repository lives in, and one in memory;
//! - [`block`], [`archive`]: the addresses of blocks, and byte strings laid
//!   out over runs of blocks;
//! - [`hash`], [`chunking`], [`codec`]: the digest of a chunk, the cutting of
//!   a stream into chunks, and the way a chunk is stored;
//! - [`handle`], [`header`], [`metadata`]: what a repository records;
//! - [`wire`], [`encoding`], [`validate`], [`publish`]: the header as bytes,
//!   the check of a header that was read, and the atomic change from one
//!   published header to the next;
//! - [`repository`], [`object`]: the repository with its transactions, and
//!   reading, writing and seeking in the object under a key;
//! - [`laws`]: what holds across the operations;
//! - [`key`], [`file`]: keys of other types than byte strings, and the
//!   metadata of files.

pub mod error;
pub mod hash;
pub mod chunking;
pub mod store;
pub mod bytes;
pub mod handle;
pub mod block;
pub mod codec;
pub mod archive;
pub mod metadata;
pub mod header;
pub mod wire;
pub mod encoding;
pub mod validate;
pub mod publish;
pub mod repository;
pub mod object;
pub mod key;
pub mod file;
pub mod laws;

pub use block::{BlockAddress, HeaderAddress};
pub use codec::{Compression, Encryption};
pub use error::Error;
pub use handle::{Chunk, ObjectHandle};
pub use hash::{chunk_hash, ChunkHash};
pub use header::Header;
pub use key::Key;
pub use metadata::{RepositoryConfig, RepositoryInfo, RepositoryMetadata, ResourceLimit, Timestamp};
pub use object::{Object, SeekFrom};
pub use repository::{Keys, ObjectRepository, OpenOption, Savepoint};
pub use store::{DataStore, MemoryStore};
