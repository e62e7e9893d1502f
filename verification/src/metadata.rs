//! What a repository records about itself when it is created.

use vstd::prelude::*;
use crate::codec::{Codec, Compression, Encryption};

verus! {

/// A point in time at or after the Unix epoch.
#[derive(Debug, Clone, Copy, PartialEq, Eq, Structural, Hash)]
pub struct Timestamp {
    /// Whole seconds since the epoch.
    pub seconds: u64,
    /// Nanoseconds past `seconds`.
    pub nanoseconds: u32,
}

/// How much of a resource the key derivation function may use.
#[derive(Debug, Clone, Copy, PartialEq, Eq, Structural, Hash)]
pub enum ResourceLimit {
    /// Suitable for interactive use.
    Interactive,
    /// Suitable for moderately sensitive data.
    Moderate,
    /// Suitable for highly sensitive data.
    Sensitive,
}

/// The configuration a repository is created with.
#[derive(Debug, Clone, Copy, PartialEq, Eq, Structural, Hash)]
pub struct RepositoryConfig {
    /// The number of bits that define a chunk boundary.
    ///
    /// The average size of a chunk will be 2^`chunker_bits` bytes.
    pub chunker_bits: u32,
    /// The compression method being used in this repository.
    pub compression: Compression,
    /// The encryption method being used in this repository.
    pub encryption: Encryption,
    /// The maximum amount of memory the key derivation function will use.
    pub memory_limit: ResourceLimit,
    /// The maximum number of computations the key derivation function will
    /// perform.
    pub operations_limit: ResourceLimit,
}

impl RepositoryConfig {
    /// Whether the rolling hash accepts the number of boundary bits.
    pub open spec fn valid(&self) -> bool {
        1 <= self.chunker_bits <= 32
    }

    /// The per-chunk pipeline that this configuration asks for.
    pub open spec fn codec(&self) -> Codec {
        Codec { compression: self.compression, encryption: self.encryption }
    }

    /// The per-chunk pipeline that this configuration asks for.
    pub fn codec_of(&self) -> (codec: Codec)
        ensures
            codec == self.codec(),
    {
        Codec { compression: self.compression, encryption: self.encryption }
    }
}

/// Metadata for a repository.
#[derive(Debug, PartialEq, Eq)]
pub struct RepositoryMetadata {
    /// The unique ID of this repository.
    pub id: u128,
    /// The number of bits that define a chunk boundary.
    ///
    /// The average size of a chunk will be 2^`chunker_bits` bytes.
    pub chunker_bits: u32,
    /// The compression method being used in this repository.
    pub compression: Compression,
    /// The encryption method being used in this repository.
    pub encryption: Encryption,
    /// The maximum amount of memory the key derivation function will use.
    pub memory_limit: ResourceLimit,
    /// The maximum number of computations the key derivation function will
    /// perform.
    pub operations_limit: ResourceLimit,
    /// The master encryption key encrypted with the user's password.
    pub master_key: Vec<u8>,
    /// The salt used to derive a key from the user's password.
    pub salt: Vec<u8>,
    /// The time this repository was created.
    pub creation_time: Timestamp,
}

/// What the fields of a [`RepositoryMetadata`] hold.
pub struct MetadataView {
    pub id: u128,
    pub config: RepositoryConfig,
    pub master_key: Seq<u8>,
    pub salt: Seq<u8>,
    pub creation_time: Timestamp,
}

impl View for RepositoryMetadata {
    type V = MetadataView;

    open spec fn view(&self) -> MetadataView {
        MetadataView {
            id: self.id,
            config: RepositoryConfig {
                chunker_bits: self.chunker_bits,
                compression: self.compression,
                encryption: self.encryption,
                memory_limit: self.memory_limit,
                operations_limit: self.operations_limit,
            },
            master_key: self.master_key@,
            salt: self.salt@,
            creation_time: self.creation_time,
        }
    }
}

impl RepositoryMetadata {
    /// The metadata of a repository with the identifier `id`, created at
    /// `creation_time` with `config`, that keeps no key.
    pub fn new(id: u128, config: RepositoryConfig, creation_time: Timestamp) -> (metadata:
        RepositoryMetadata)
        ensures
            metadata@ == (MetadataView {
                id,
                config,
                master_key: Seq::empty(),
                salt: Seq::empty(),
                creation_time,
            }),
    {
        RepositoryMetadata {
            id,
            chunker_bits: config.chunker_bits,
            compression: config.compression,
            encryption: config.encryption,
            memory_limit: config.memory_limit,
            operations_limit: config.operations_limit,
            master_key: Vec::new(),
            salt: Vec::new(),
            creation_time,
        }
    }

    /// The configuration held in this metadata.
    pub fn config(&self) -> (config: RepositoryConfig)
        ensures
            config == self@.config,
    {
        RepositoryConfig {
            chunker_bits: self.chunker_bits,
            compression: self.compression,
            encryption: self.encryption,
            memory_limit: self.memory_limit,
            operations_limit: self.operations_limit,
        }
    }

    /// Whether `other` holds the same as this metadata.
    pub fn same(&self, other: &RepositoryMetadata) -> (same: bool)
        ensures
            same == (self@ == other@),
    {
        self.id == other.id && self.chunker_bits == other.chunker_bits && self.compression
            == other.compression && self.encryption == other.encryption && self.memory_limit
            == other.memory_limit && self.operations_limit == other.operations_limit
            && crate::header::bytes_eq(self.master_key.as_slice(), other.master_key.as_slice())
            && crate::header::bytes_eq(self.salt.as_slice(), other.salt.as_slice())
            && self.creation_time == other.creation_time
    }

    /// A copy of this metadata.
    pub fn duplicate(&self) -> (copy: RepositoryMetadata)
        ensures
            copy@ == self@,
    {
        RepositoryMetadata {
            id: self.id,
            chunker_bits: self.chunker_bits,
            compression: self.compression,
            encryption: self.encryption,
            memory_limit: self.memory_limit,
            operations_limit: self.operations_limit,
            master_key: self.master_key.clone(),
            salt: self.salt.clone(),
            creation_time: self.creation_time,
        }
    }

    /// Create a `RepositoryInfo` using the metadata in this struct.
    pub fn to_info(&self) -> (info: RepositoryInfo)
        ensures
            info.id == self@.id,
            info.config == self@.config,
            info.creation_time == self@.creation_time,
    {
        RepositoryInfo {
            id: self.id,
            config: RepositoryConfig {
                chunker_bits: self.chunker_bits,
                compression: self.compression,
                encryption: self.encryption,
                memory_limit: self.memory_limit,
                operations_limit: self.operations_limit,
            },
            creation_time: self.creation_time,
        }
    }
}

/// Information about a repository.
#[derive(Debug, Clone, Copy, PartialEq, Eq, Structural)]
pub struct RepositoryInfo {
    pub id: u128,
    pub config: RepositoryConfig,
    pub creation_time: Timestamp,
}

impl RepositoryInfo {
    /// The unique ID for this repository.
    pub fn id(&self) -> (id: u128)
        ensures
            id == self.id,
    {
        self.id
    }

    /// The configuration used to create this repository.
    pub fn config(&self) -> (config: &RepositoryConfig)
        ensures
            *config == self.config,
    {
        &self.config
    }

    /// The time this repository was created.
    pub fn creation_time(&self) -> (time: Timestamp)
        ensures
            time == self.creation_time,
    {
        self.creation_time
    }
}

} // verus!
