//! The encoding of a header as bytes, and the parser that undoes it.
//!
//! A header is written as eleven integers (the format version and the
//! numbers of the metadata) and the two byte strings of the metadata, and
//! behind them the table of chunks and the list of objects, which go through
//! the pipeline that the metadata names, as the chunks of the repository do.
//! Every integer takes eight bytes, and every list stands behind its length.

use vstd::prelude::*;
use crate::block::BlockAddress;
use crate::bytes::{be64, push_be64};
use crate::codec::{Codec, Compression, Encryption};
use crate::error::Error;
use crate::handle::{Chunk, ObjectHandle};
use crate::header::{ChunkRef, ChunkRefView, Header, HeaderView, ObjectEntry, ObjectView};
use crate::metadata::{MetadataView, RepositoryConfig, RepositoryMetadata, ResourceLimit, Timestamp};
use crate::wire::{
    lemma_bytes_round_trip, lemma_fixed_round_trip, lemma_list_round_trip, lemma_list_step,
    lemma_ser_list_push, lemma_u64_round_trip, list_progress, parse_bytes, parse_fixed, parse_list,
    parse_u64, push_bytes, ser_bytes, ser_list, Reader,
};

verus! {

/// The version of the header's format. A repository with another version is
/// not opened.
pub const FORMAT_VERSION: u128 = 0xa2b7_bda8_45ea_11ea_ad75_afa5_92f1_23ef;

/// The number of integers at the start of a header.
pub const HEADER_WORDS: usize = 11;

/// A chunk descriptor as it is written.
pub struct WireChunk {
    pub size: u64,
    pub hash: Seq<u8>,
}

/// An object as it is written.
pub struct WireObject {
    pub key: Seq<u8>,
    pub size: u64,
    pub chunks: Seq<WireChunk>,
}

/// An entry of the table of chunks as it is written.
pub struct WireRef {
    pub hash: Seq<u8>,
    pub size: u64,
    pub stored_size: u64,
    pub refcount: u64,
    pub blocks: Seq<u64>,
}

/// A header as it is written.
pub struct WireHeader {
    pub words: Seq<u64>,
    pub master_key: Seq<u8>,
    pub salt: Seq<u8>,
    pub table: Seq<WireRef>,
    pub objects: Seq<WireObject>,
}

/// The encoder of an integer.
pub open spec fn word_ser() -> spec_fn(u64) -> Seq<u8> {
    |word: u64| be64(word)
}

/// The parser of an integer.
pub open spec fn word_parse() -> spec_fn(Seq<u8>) -> Option<(u64, Seq<u8>)> {
    |s: Seq<u8>| parse_u64(s)
}

/// A chunk descriptor as bytes.
pub open spec fn ser_chunk(chunk: WireChunk) -> Seq<u8> {
    be64(chunk.size) + chunk.hash
}

/// Read a chunk descriptor off the front of `s`.
pub open spec fn parse_chunk(s: Seq<u8>) -> Option<(WireChunk, Seq<u8>)> {
    match parse_u64(s) {
        Some((size, rest)) => match parse_fixed(rest, 32) {
            Some((hash, left)) => Some((WireChunk { size, hash }, left)),
            None => None,
        },
        None => None,
    }
}

/// The encoder of a chunk descriptor.
pub open spec fn chunk_ser() -> spec_fn(WireChunk) -> Seq<u8> {
    |chunk: WireChunk| ser_chunk(chunk)
}

/// The parser of a chunk descriptor.
pub open spec fn chunk_parse() -> spec_fn(Seq<u8>) -> Option<(WireChunk, Seq<u8>)> {
    |s: Seq<u8>| parse_chunk(s)
}

/// An object as bytes.
pub open spec fn ser_object(object: WireObject) -> Seq<u8> {
    ser_bytes(object.key) + be64(object.size) + be64(object.chunks.len() as u64) + ser_list(
        object.chunks,
        chunk_ser(),
    )
}

/// Read an object off the front of `s`.
pub open spec fn parse_object(s: Seq<u8>) -> Option<(WireObject, Seq<u8>)> {
    match parse_bytes(s) {
        Some((key, after_first)) => match parse_u64(after_first) {
            Some((size, after_second)) => match parse_u64(after_second) {
                Some((count, after_third))
                    => match parse_list(after_third, count as nat, chunk_parse()) {
                    Some((chunks, after_fourth))
                        => Some((WireObject { key, size, chunks }, after_fourth)),
                    None => None,
                },
                None => None,
            },
            None => None,
        },
        None => None,
    }
}

/// The encoder of an object.
pub open spec fn object_ser() -> spec_fn(WireObject) -> Seq<u8> {
    |object: WireObject| ser_object(object)
}

/// The parser of an object.
pub open spec fn object_parse() -> spec_fn(Seq<u8>) -> Option<(WireObject, Seq<u8>)> {
    |s: Seq<u8>| parse_object(s)
}

/// An entry of the table as bytes.
pub open spec fn ser_ref(entry: WireRef) -> Seq<u8> {
    entry.hash + be64(entry.size) + be64(entry.stored_size) + be64(entry.refcount) + be64(
        entry.blocks.len() as u64,
    ) + ser_list(entry.blocks, word_ser())
}

/// Read an entry of the table off the front of `s`.
pub open spec fn parse_ref(s: Seq<u8>) -> Option<(WireRef, Seq<u8>)> {
    match parse_fixed(s, 32) {
        Some((hash, after_first)) => match parse_u64(after_first) {
            Some((size, after_second)) => match parse_u64(after_second) {
                Some((stored_size, after_third)) => match parse_u64(after_third) {
                    Some((refcount, after_fourth)) => match parse_u64(after_fourth) {
                        Some((count, after_fifth))
                            => match parse_list(after_fifth, count as nat, word_parse()) {
                            Some((blocks, after_sixth)) => Some(
                                (WireRef { hash, size, stored_size, refcount, blocks }, after_sixth),
                            ),
                            None => None,
                        },
                        None => None,
                    },
                    None => None,
                },
                None => None,
            },
            None => None,
        },
        None => None,
    }
}

/// The encoder of an entry of the table.
pub open spec fn ref_ser() -> spec_fn(WireRef) -> Seq<u8> {
    |entry: WireRef| ser_ref(entry)
}

/// The parser of an entry of the table.
pub open spec fn ref_parse() -> spec_fn(Seq<u8>) -> Option<(WireRef, Seq<u8>)> {
    |s: Seq<u8>| parse_ref(s)
}

/// The start of a header as it is written: the integers and the two byte
/// strings of the metadata.
pub struct WireFront {
    pub words: Seq<u64>,
    pub master_key: Seq<u8>,
    pub salt: Seq<u8>,
}

/// Read the start of a header off the front of `s`.
pub open spec fn parse_front(s: Seq<u8>) -> Option<(WireFront, Seq<u8>)> {
    match parse_list(s, 11, word_parse()) {
        Some((words, after_first)) => match parse_bytes(after_first) {
            Some((master_key, after_second)) => match parse_bytes(after_second) {
                Some((salt, after_third))
                    => Some((WireFront { words, master_key, salt }, after_third)),
                None => None,
            },
            None => None,
        },
        None => None,
    }
}

/// Whether `s` starts as a header of another format version does: with the
/// integers and byte strings that a header starts with, but with another
/// version than this one in the first two integers.
pub open spec fn names_other_version(s: Seq<u8>) -> bool {
    match parse_front(s) {
        Some((front, _)) => front.words[0] != high_word(FORMAT_VERSION) || front.words[1]
            != low_word(FORMAT_VERSION),
        None => false,
    }
}

/// Read the table and the objects from `s`, all of it.
pub open spec fn parse_body(s: Seq<u8>) -> Option<(Seq<WireRef>, Seq<WireObject>)> {
    match parse_u64(s) {
        Some((table_len, after_fourth))
            => match parse_list(after_fourth, table_len as nat, ref_parse()) {
            Some((table, after_fifth)) => match parse_u64(after_fifth) {
                Some((objects_len, after_sixth))
                    => match parse_list(after_sixth, objects_len as nat, object_parse()) {
                    Some((objects, after_last)) => if after_last.len() == 0 {
                        Some((table, objects))
                    } else {
                        None
                    },
                    None => None,
                },
                None => None,
            },
            None => None,
        },
        None => None,
    }
}

/// The start of a header as bytes.
pub open spec fn ser_front(front: WireFront) -> Seq<u8> {
    ser_list(front.words, word_ser()) + ser_bytes(front.master_key) + ser_bytes(front.salt)
}

/// The table and the objects as bytes.
pub open spec fn ser_body(table: Seq<WireRef>, objects: Seq<WireObject>) -> Seq<u8> {
    be64(table.len() as u64) + ser_list(table, ref_ser()) + be64(objects.len() as u64) + ser_list(
        objects,
        object_ser(),
    )
}

/// The start of a written header.
pub open spec fn front_of(header: WireHeader) -> WireFront {
    WireFront { words: header.words, master_key: header.master_key, salt: header.salt }
}

/// The compression method that the integers at the start of a header name,
/// if they name one.
pub open spec fn named_compression(words: Seq<u64>) -> Option<Compression> {
    if words.len() == 11 && words[5] == 0 {
        Some(Compression::Uncompressed)
    } else if words.len() == 11 && 256 <= words[5] < 512 {
        Some(Compression::Deflate { level: (words[5] - 256) as u8 })
    } else {
        None
    }
}

/// The pipeline that the table and the objects of a header with these
/// integers go through.
pub open spec fn named_codec(words: Seq<u64>) -> Option<Codec> {
    match named_compression(words) {
        Some(compression) => Some(Codec { compression, encryption: Encryption::Unencrypted }),
        None => None,
    }
}

/// A header as bytes: its start as it is, then the length of the table and
/// the objects as bytes, then those bytes as the header's own pipeline
/// stores them.
pub open spec fn ser_header(header: WireHeader) -> Seq<u8> {
    let body = ser_body(header.table, header.objects);
    ser_front(front_of(header)) + be64(body.len() as u64) + match named_codec(header.words) {
        Some(codec) => codec.encoded(body),
        None => body,
    }
}

/// The bytes of the table and the objects in what stands behind the start
/// of a header: what the bytes behind the length decode to, where that has
/// the length that was written.
pub open spec fn parse_packed(words: Seq<u64>, rest: Seq<u8>) -> Option<Seq<u8>> {
    match named_codec(words) {
        Some(codec) => match parse_u64(rest) {
            Some((length, stored)) => match codec.decoded(stored, length as nat) {
                Some(body) => if body.len() == length && length <= usize::MAX {
                    Some(body)
                } else {
                    None
                },
                None => None,
            },
            None => None,
        },
        None => None,
    }
}

/// Read a header from `s`, all of it.
pub open spec fn parse_header(s: Seq<u8>) -> Option<WireHeader> {
    match parse_front(s) {
        Some((front, rest)) => match parse_packed(front.words, rest) {
            Some(body) => match parse_body(body) {
                Some((table, objects)) => Some(
                    WireHeader {
                        words: front.words,
                        master_key: front.master_key,
                        salt: front.salt,
                        table,
                        objects,
                    },
                ),
                None => None,
            },
            None => None,
        },
        None => None,
    }
}

/// Whether a written header has the shape that the encoder gives it: eleven
/// integers, digests of 32 bytes, and no list too long to count.
pub open spec fn well_shaped(header: WireHeader) -> bool {
    &&& header.words.len() == 11
    &&& named_codec(header.words) is Some
    &&& ser_body(header.table, header.objects).len() <= usize::MAX
    &&& header.master_key.len() <= u64::MAX
    &&& header.salt.len() <= u64::MAX
    &&& header.table.len() <= u64::MAX
    &&& header.objects.len() <= u64::MAX
    &&& forall|i: int|
        0 <= i < header.table.len() ==> (#[trigger] header.table[i]).hash.len() == 32
            && header.table[i].blocks.len() <= u64::MAX
    &&& forall|i: int|
        0 <= i < header.objects.len() ==> (#[trigger] header.objects[i]).key.len() <= u64::MAX
            && header.objects[i].chunks.len() <= u64::MAX && forall|j: int|
            0 <= j < header.objects[i].chunks.len() ==> (
            #[trigger] header.objects[i].chunks[j]).hash.len() == 32
}

/// A chunk descriptor is read back as it was written.
pub proof fn lemma_chunk_round_trip(chunk: WireChunk, rest: Seq<u8>)
    requires
        chunk.hash.len() == 32,
    ensures
        parse_chunk(ser_chunk(chunk) + rest) == Some((chunk, rest)),
{
    lemma_u64_round_trip(chunk.size, chunk.hash + rest);
    assert(ser_chunk(chunk) + rest =~= be64(chunk.size) + (chunk.hash + rest));
    lemma_fixed_round_trip(chunk.hash, rest);
}

/// An object is read back as it was written.
pub proof fn lemma_object_round_trip(object: WireObject, rest: Seq<u8>)
    requires
        object.key.len() <= u64::MAX,
        object.chunks.len() <= u64::MAX,
        forall|j: int| 0 <= j < object.chunks.len() ==> (#[trigger] object.chunks[j]).hash.len()
            == 32,
    ensures
        parse_object(ser_object(object) + rest) == Some((object, rest)),
{
    let list = ser_list(object.chunks, chunk_ser());
    let after_third = list + rest;
    let after_second = be64(object.chunks.len() as u64) + after_third;
    let after_first = be64(object.size) + after_second;
    assert(ser_object(object) + rest =~= ser_bytes(object.key) + after_first);
    lemma_bytes_round_trip(object.key, after_first);
    lemma_u64_round_trip(object.size, after_second);
    lemma_u64_round_trip(object.chunks.len() as u64, after_third);
    assert forall|i: int, r: Seq<u8>| 0 <= i < object.chunks.len() implies #[trigger] chunk_parse()(
        chunk_ser()(object.chunks[i]) + r,
    ) == Some((object.chunks[i], r)) by {
        lemma_chunk_round_trip(object.chunks[i], r);
    }
    lemma_list_round_trip(object.chunks, chunk_ser(), chunk_parse(), rest);
}

/// An entry of the table is read back as it was written.
pub proof fn lemma_ref_round_trip(entry: WireRef, rest: Seq<u8>)
    requires
        entry.hash.len() == 32,
        entry.blocks.len() <= u64::MAX,
    ensures
        parse_ref(ser_ref(entry) + rest) == Some((entry, rest)),
{
    let list = ser_list(entry.blocks, word_ser());
    let after_fifth = list + rest;
    let after_fourth = be64(entry.blocks.len() as u64) + after_fifth;
    let after_third = be64(entry.refcount) + after_fourth;
    let after_second = be64(entry.stored_size) + after_third;
    let after_first = be64(entry.size) + after_second;
    assert(ser_ref(entry) + rest =~= entry.hash + after_first);
    lemma_fixed_round_trip(entry.hash, after_first);
    lemma_u64_round_trip(entry.size, after_second);
    lemma_u64_round_trip(entry.stored_size, after_third);
    lemma_u64_round_trip(entry.refcount, after_fourth);
    lemma_u64_round_trip(entry.blocks.len() as u64, after_fifth);
    assert forall|i: int, r: Seq<u8>| 0 <= i < entry.blocks.len() implies #[trigger] word_parse()(
        word_ser()(entry.blocks[i]) + r,
    ) == Some((entry.blocks[i], r)) by {
        lemma_u64_round_trip(entry.blocks[i], r);
    }
    lemma_list_round_trip(entry.blocks, word_ser(), word_parse(), rest);
}

/// The start of a header is read back as it was written.
pub proof fn lemma_front_round_trip(front: WireFront, rest: Seq<u8>)
    requires
        front.words.len() == 11,
        front.master_key.len() <= u64::MAX,
        front.salt.len() <= u64::MAX,
    ensures
        parse_front(ser_front(front) + rest) == Some((front, rest)),
{
    let after_second = ser_bytes(front.salt) + rest;
    let after_first = ser_bytes(front.master_key) + after_second;
    assert(ser_front(front) + rest =~= ser_list(front.words, word_ser()) + after_first);
    assert forall|i: int, r: Seq<u8>| 0 <= i < front.words.len() implies #[trigger] word_parse()(
        word_ser()(front.words[i]) + r,
    ) == Some((front.words[i], r)) by {
        lemma_u64_round_trip(front.words[i], r);
    }
    lemma_list_round_trip(front.words, word_ser(), word_parse(), after_first);
    lemma_bytes_round_trip(front.master_key, after_second);
    lemma_bytes_round_trip(front.salt, rest);
}

/// The table and the objects are read back as they were written.
pub proof fn lemma_body_round_trip(table: Seq<WireRef>, objects: Seq<WireObject>)
    requires
        table.len() <= u64::MAX,
        objects.len() <= u64::MAX,
        forall|i: int|
            0 <= i < table.len() ==> (#[trigger] table[i]).hash.len() == 32 && table[i].blocks.len()
                <= u64::MAX,
        forall|i: int|
            0 <= i < objects.len() ==> (#[trigger] objects[i]).key.len() <= u64::MAX
                && objects[i].chunks.len() <= u64::MAX && forall|j: int|
                0 <= j < objects[i].chunks.len() ==> (#[trigger] objects[i].chunks[j]).hash.len()
                    == 32,
    ensures
        parse_body(ser_body(table, objects)) == Some((table, objects)),
{
    let empty = Seq::<u8>::empty();
    let after_sixth = ser_list(objects, object_ser()) + empty;
    let after_fifth = be64(objects.len() as u64) + after_sixth;
    let after_fourth = ser_list(table, ref_ser()) + after_fifth;
    assert(ser_body(table, objects) =~= be64(table.len() as u64) + after_fourth);
    lemma_u64_round_trip(table.len() as u64, after_fourth);
    assert forall|i: int, r: Seq<u8>| 0 <= i < table.len() implies #[trigger] ref_parse()(
        ref_ser()(table[i]) + r,
    ) == Some((table[i], r)) by {
        lemma_ref_round_trip(table[i], r);
    }
    lemma_list_round_trip(table, ref_ser(), ref_parse(), after_fifth);
    lemma_u64_round_trip(objects.len() as u64, after_sixth);
    assert forall|i: int, r: Seq<u8>| 0 <= i < objects.len() implies #[trigger] object_parse()(
        object_ser()(objects[i]) + r,
    ) == Some((objects[i], r)) by {
        lemma_object_round_trip(objects[i], r);
    }
    lemma_list_round_trip(objects, object_ser(), object_parse(), empty);
}

/// A well-shaped header is read back as it was written.
#[verifier::rlimit(50)]
pub proof fn lemma_header_round_trip(header: WireHeader)
    requires
        well_shaped(header),
    ensures
        parse_header(ser_header(header)) == Some(header),
{
    let body = ser_body(header.table, header.objects);
    let codec = named_codec(header.words)->0;
    let packed = be64(body.len() as u64) + codec.encoded(body);
    lemma_front_round_trip(front_of(header), packed);
    assert(ser_header(header) =~= ser_front(front_of(header)) + packed);
    lemma_u64_round_trip(body.len() as u64, codec.encoded(body));
    codec.lemma_round_trip(body);
    lemma_body_round_trip(header.table, header.objects);
}

/// The number that stands for a compression method: nought for none, and
/// for DEFLATE its level behind a set bit.
pub open spec fn compression_tag(compression: Compression) -> u64 {
    match compression {
        Compression::Uncompressed => 0,
        Compression::Deflate { level } => (256 + level) as u64,
    }
}

/// The number that stands for an encryption method.
pub open spec fn encryption_tag(encryption: Encryption) -> u64 {
    match encryption {
        Encryption::Unencrypted => 0,
    }
}

/// The number that stands for a resource limit.
pub open spec fn limit_tag(limit: ResourceLimit) -> u64 {
    match limit {
        ResourceLimit::Interactive => 0,
        ResourceLimit::Moderate => 1,
        ResourceLimit::Sensitive => 2,
    }
}

/// The upper half of an identifier of 128 bits.
pub open spec fn high_word(id: u128) -> u64 {
    (id >> 64) as u64
}

/// The lower half of an identifier of 128 bits.
pub open spec fn low_word(id: u128) -> u64 {
    (id & 0xffff_ffff_ffff_ffff) as u64
}

/// The integers at the start of a header with this metadata.
pub open spec fn wire_words(metadata: MetadataView) -> Seq<u64> {
    seq![
        high_word(FORMAT_VERSION),
        low_word(FORMAT_VERSION),
        high_word(metadata.id),
        low_word(metadata.id),
        metadata.config.chunker_bits as u64,
        compression_tag(metadata.config.compression),
        encryption_tag(metadata.config.encryption),
        limit_tag(metadata.config.memory_limit),
        limit_tag(metadata.config.operations_limit),
        metadata.creation_time.seconds,
        metadata.creation_time.nanoseconds as u64,
    ]
}

/// A chunk descriptor as it is written.
pub open spec fn wire_chunk(chunk: Chunk) -> WireChunk {
    WireChunk { size: chunk.size as u64, hash: chunk.hash@ }
}

/// Chunk descriptors as they are written.
pub open spec fn wire_chunks(chunks: Seq<Chunk>) -> Seq<WireChunk> {
    Seq::new(chunks.len(), |i: int| wire_chunk(chunks[i]))
}

/// Block addresses as they are written.
pub open spec fn wire_blocks(blocks: Seq<BlockAddress>) -> Seq<u64> {
    Seq::new(blocks.len(), |i: int| blocks[i].0)
}

/// An entry of the table as it is written.
pub open spec fn wire_ref(entry: ChunkRef) -> WireRef {
    WireRef {
        hash: entry.hash@,
        size: entry.size as u64,
        stored_size: entry.stored_size,
        refcount: entry.refcount,
        blocks: wire_blocks(entry.blocks@),
    }
}

/// An object as it is written.
pub open spec fn wire_object(object: ObjectEntry) -> WireObject {
    WireObject {
        key: object.key@,
        size: object.handle.size,
        chunks: wire_chunks(object.handle.chunks@),
    }
}

/// The table as it is written.
pub open spec fn wire_table(table: Seq<ChunkRef>) -> Seq<WireRef> {
    Seq::new(table.len(), |i: int| wire_ref(table[i]))
}

/// The objects as they are written.
pub open spec fn wire_objects(objects: Seq<ObjectEntry>) -> Seq<WireObject> {
    Seq::new(objects.len(), |i: int| wire_object(objects[i]))
}

/// A header as it is written.
pub open spec fn wire_of(header: &Header) -> WireHeader {
    WireHeader {
        words: wire_words(header.metadata@),
        master_key: header.metadata.master_key@,
        salt: header.metadata.salt@,
        table: wire_table(header.chunks@),
        objects: wire_objects(header.objects@),
    }
}

/// The table and the objects of a header as bytes.
pub open spec fn body_of(header: &Header) -> Seq<u8> {
    ser_body(wire_of(header).table, wire_of(header).objects)
}

/// What the encoder writes for a header.
pub open spec fn encoding_of(header: &Header) -> Seq<u8> {
    ser_header(wire_of(header))
}

/// The integers at the start of a header name the header's own pipeline.
pub proof fn lemma_codec_named(metadata: MetadataView)
    ensures
        named_codec(wire_words(metadata)) == Some(metadata.config.codec()),
{
}

/// What is written for a header has the shape that the parser expects,
/// unless its table and objects take more bytes than can be counted.
#[verifier::rlimit(50)]
pub proof fn lemma_wire_well_shaped(header: &Header)
    requires
        body_of(header).len() <= usize::MAX,
    ensures
        well_shaped(wire_of(header)),
        parse_header(encoding_of(header)) == Some(wire_of(header)),
{
    let wire = wire_of(header);
    lemma_codec_named(header.metadata@);
    assert forall|i: int| 0
        <= i < wire.table.len() implies (#[trigger] wire.table[i]).hash.len() == 32
        && wire.table[i].blocks.len() <= u64::MAX by {
        assert(header.chunks@[i].blocks.len() == header.chunks@[i].blocks@.len());
    }
    assert forall|i: int| 0 <= i < wire.objects.len() implies (#[trigger] wire.objects[i]).key.len()
        <= u64::MAX && wire.objects[i].chunks.len() <= u64::MAX && forall|j: int|
        0 <= j < wire.objects[i].chunks.len() ==> (#[trigger] wire.objects[i].chunks[j]).hash.len()
            == 32 by {
        assert(header.objects@[i].key.len() == header.objects@[i].key@.len());
        assert(header.objects@[i].handle.chunks.len() == header.objects@[i].handle.chunks@.len());
    }
    assert(header.metadata.master_key.len() == header.metadata.master_key@.len());
    assert(header.metadata.salt.len() == header.metadata.salt@.len());
    assert(header.chunks.len() == header.chunks@.len());
    assert(header.objects.len() == header.objects@.len());
    lemma_header_round_trip(wire);
}

/// The two halves of an identifier determine it.
pub proof fn lemma_words_determine_id(a: u128, b: u128)
    requires
        high_word(a) == high_word(b),
        low_word(a) == low_word(b),
    ensures
        a == b,
{
    assert((a >> 64) as u64 == (b >> 64) as u64 && (a & 0xffff_ffff_ffff_ffff) as u64 == (b
        & 0xffff_ffff_ffff_ffff) as u64 ==> a == b) by (bit_vector);
}

/// Headers that are written alike hold the same.
#[verifier::rlimit(50)]
pub proof fn lemma_wire_determines_view(a: &Header, b: &Header)
    requires
        wire_of(a) == wire_of(b),
    ensures
        a@ == b@,
{
    let wa = wire_of(a);
    let wb = wire_of(b);
    assert(wa.words[2] == wb.words[2]);
    assert(wa.words[3] == wb.words[3]);
    assert(wa.words[4] == wb.words[4]);
    assert(wa.words[5] == wb.words[5]);
    assert(wa.words[6] == wb.words[6]);
    assert(wa.words[7] == wb.words[7]);
    assert(wa.words[8] == wb.words[8]);
    assert(wa.words[9] == wb.words[9]);
    assert(wa.words[10] == wb.words[10]);
    lemma_words_determine_id(a.metadata.id, b.metadata.id);
    assert(a.metadata@ == b.metadata@);
    assert(wa.table.len() == a.chunks@.len());
    assert(wb.table.len() == b.chunks@.len());
    assert(wa.objects.len() == a.objects@.len());
    assert(wb.objects.len() == b.objects@.len());
    assert forall|i: int| 0 <= i < a.chunks@.len() implies a.chunks@[i]@ == b.chunks@[i]@ by {
        assert(wa.table[i] == wire_ref(a.chunks@[i]));
        assert(wb.table[i] == wire_ref(b.chunks@[i]));
        let x = a.chunks@[i].blocks@;
        let y = b.chunks@[i].blocks@;
        assert(wire_blocks(x) == wire_blocks(y));
        assert(wire_blocks(x).len() == x.len());
        assert(wire_blocks(y).len() == y.len());
        assert forall|j: int| 0 <= j < x.len() implies x[j] == y[j] by {
            assert(wire_blocks(x)[j] == wire_blocks(y)[j]);
        }
        assert(x =~= y);
    }
    assert forall|i: int| 0 <= i < a.objects@.len() implies a.objects@[i]@ == b.objects@[i]@ by {
        assert(wa.objects[i] == wire_object(a.objects@[i]));
        assert(wb.objects[i] == wire_object(b.objects@[i]));
        let x = a.objects@[i].handle.chunks@;
        let y = b.objects@[i].handle.chunks@;
        assert(wire_chunks(x) == wire_chunks(y));
        assert(wire_chunks(x).len() == x.len());
        assert(wire_chunks(y).len() == y.len());
        assert forall|j: int| 0 <= j < x.len() implies x[j] == y[j] by {
            assert(wire_chunks(x)[j] == wire_chunks(y)[j]);
            assert(x[j].hash@ == y[j].hash@);
            assert(x[j].hash == y[j].hash);
        }
        assert(x =~= y);
    }
    assert(a@.chunks =~= b@.chunks);
    assert(a@.objects =~= b@.objects);
}

/// Write the chunk descriptors `chunks`.
fn push_chunks(out: &mut Vec<u8>, chunks: &Vec<Chunk>)
    ensures
        final(out)@ == old(out)@ + ser_list(wire_chunks(chunks@), chunk_ser()),
{
    let mut i: usize = 0;
    assert(wire_chunks(chunks@.take(0)) =~= Seq::<WireChunk>::empty());
    assert(out@ =~= old(out)@ + ser_list(wire_chunks(chunks@.take(0)), chunk_ser()));
    while i < chunks.len()
        invariant
            i <= chunks@.len(),
            out@ == old(out)@ + ser_list(wire_chunks(chunks@.take(i as int)), chunk_ser()),
        decreases chunks@.len() - i,
    {
        let chunk = &chunks[i];
        let ghost before = out@;
        push_be64(out, chunk.size as u64);
        out.extend_from_slice(chunk.hash.as_slice());
        proof {
            let done = wire_chunks(chunks@.take(i as int));
            assert(wire_chunks(chunks@.take(i + 1)) =~= done.push(wire_chunk(chunks@[i as int])));
            lemma_ser_list_push(done, wire_chunk(chunks@[i as int]), chunk_ser());
            assert(out@ =~= before + ser_chunk(wire_chunk(chunks@[i as int])));
            assert(out@ =~= old(out)@ + ser_list(wire_chunks(chunks@.take(i + 1)), chunk_ser()));
        }
        i += 1;
    }
    assert(chunks@.take(chunks@.len() as int) =~= chunks@);
}

/// Write the block addresses `blocks`.
fn push_blocks(out: &mut Vec<u8>, blocks: &Vec<BlockAddress>)
    ensures
        final(out)@ == old(out)@ + ser_list(wire_blocks(blocks@), word_ser()),
{
    let mut i: usize = 0;
    assert(wire_blocks(blocks@.take(0)) =~= Seq::<u64>::empty());
    assert(out@ =~= old(out)@ + ser_list(wire_blocks(blocks@.take(0)), word_ser()));
    while i < blocks.len()
        invariant
            i <= blocks@.len(),
            out@ == old(out)@ + ser_list(wire_blocks(blocks@.take(i as int)), word_ser()),
        decreases blocks@.len() - i,
    {
        let ghost before = out@;
        push_be64(out, blocks[i].0);
        proof {
            let done = wire_blocks(blocks@.take(i as int));
            assert(wire_blocks(blocks@.take(i + 1)) =~= done.push(blocks@[i as int].0));
            lemma_ser_list_push(done, blocks@[i as int].0, word_ser());
            assert(out@ =~= old(out)@ + ser_list(wire_blocks(blocks@.take(i + 1)), word_ser()));
        }
        i += 1;
    }
    assert(blocks@.take(blocks@.len() as int) =~= blocks@);
}

/// Write an entry of the table.
fn push_ref(out: &mut Vec<u8>, entry: &ChunkRef)
    ensures
        final(out)@ == old(out)@ + ser_ref(wire_ref(*entry)),
{
    out.extend_from_slice(entry.hash.as_slice());
    push_be64(out, entry.size as u64);
    push_be64(out, entry.stored_size);
    push_be64(out, entry.refcount);
    push_be64(out, entry.blocks.len() as u64);
    let ghost before = out@;
    push_blocks(out, &entry.blocks);
    assert(out@ =~= old(out)@ + ser_ref(wire_ref(*entry)));
}

/// Write an object.
fn push_object(out: &mut Vec<u8>, object: &ObjectEntry)
    ensures
        final(out)@ == old(out)@ + ser_object(wire_object(*object)),
{
    push_bytes(out, object.key.as_slice());
    push_be64(out, object.handle.size);
    push_be64(out, object.handle.chunks.len() as u64);
    push_chunks(out, &object.handle.chunks);
    assert(out@ =~= old(out)@ + ser_object(wire_object(*object)));
}

/// The number that stands for a compression method.
fn compression_number(compression: Compression) -> (tag: u64)
    ensures
        tag == compression_tag(compression),
{
    match compression {
        Compression::Uncompressed => 0,
        Compression::Deflate { level } => 256 + level as u64,
    }
}

/// The compression method that a number stands for.
fn compression_from(tag: u64) -> (compression: Option<Compression>)
    ensures
        match compression {
            Some(compression) => compression_tag(compression) == tag,
            None => forall|compression: Compression| compression_tag(compression) != tag,
        },
{
    if tag == 0 {
        Some(Compression::Uncompressed)
    } else if 256 <= tag && tag < 512 {
        Some(Compression::Deflate { level: (tag - 256) as u8 })
    } else {
        None
    }
}

/// The number that stands for a resource limit.
fn limit_number(limit: ResourceLimit) -> (tag: u64)
    ensures
        tag == limit_tag(limit),
{
    match limit {
        ResourceLimit::Interactive => 0,
        ResourceLimit::Moderate => 1,
        ResourceLimit::Sensitive => 2,
    }
}

/// The upper and the lower half of an identifier.
fn split_id(id: u128) -> (halves: (u64, u64))
    ensures
        halves.0 == high_word(id),
        halves.1 == low_word(id),
{
    assert(id >> 64 <= 0xffff_ffff_ffff_ffff) by (bit_vector);
    assert(id & 0xffff_ffff_ffff_ffff <= 0xffff_ffff_ffff_ffff) by (bit_vector);
    ((id >> 64) as u64, (id & 0xffff_ffff_ffff_ffff) as u64)
}

/// Write the start of a header: the version and the metadata.
fn push_front(out: &mut Vec<u8>, metadata: &RepositoryMetadata)
    ensures
        final(out)@ == old(out)@ + ser_front(wire_front(metadata@)),
{
    let version = split_id(FORMAT_VERSION);
    let id = split_id(metadata.id);
    let ghost words = wire_words(metadata@);
    let mut front: Vec<u8> = Vec::new();
    push_be64(&mut front, version.0);
    push_be64(&mut front, version.1);
    push_be64(&mut front, id.0);
    push_be64(&mut front, id.1);
    push_be64(&mut front, metadata.chunker_bits as u64);
    push_be64(&mut front, compression_number(metadata.compression));
    push_be64(
        &mut front,
        match metadata.encryption {
            Encryption::Unencrypted => 0,
        },
    );
    push_be64(&mut front, limit_number(metadata.memory_limit));
    push_be64(&mut front, limit_number(metadata.operations_limit));
    push_be64(&mut front, metadata.creation_time.seconds);
    push_be64(&mut front, metadata.creation_time.nanoseconds as u64);
    proof {
        lemma_words_written(words);
        assert(front@ =~= ser_list(words, word_ser()));
    }
    push_bytes(&mut front, metadata.master_key.as_slice());
    push_bytes(&mut front, metadata.salt.as_slice());
    assert(front@ == ser_front(wire_front(metadata@)));
    out.extend_from_slice(front.as_slice());
    assert(out@ =~= old(out)@ + front@);
}

/// Write the table.
fn push_table(out: &mut Vec<u8>, chunks: &Vec<ChunkRef>)
    ensures
        final(out)@ == old(out)@ + ser_list(wire_table(chunks@), ref_ser()),
{
    let mut i: usize = 0;
    assert(wire_table(chunks@.take(0)) =~= Seq::<WireRef>::empty());
    assert(out@ =~= old(out)@ + ser_list(wire_table(chunks@.take(0)), ref_ser()));
    while i < chunks.len()
        invariant
            i <= chunks@.len(),
            out@ == old(out)@ + ser_list(wire_table(chunks@.take(i as int)), ref_ser()),
        decreases chunks@.len() - i,
    {
        push_ref(out, &chunks[i]);
        proof {
            let done = wire_table(chunks@.take(i as int));
            assert(wire_table(chunks@.take(i + 1)) =~= done.push(wire_ref(chunks@[i as int])));
            lemma_ser_list_push(done, wire_ref(chunks@[i as int]), ref_ser());
            assert(out@ =~= old(out)@ + ser_list(wire_table(chunks@.take(i + 1)), ref_ser()));
        }
        i += 1;
    }
    assert(chunks@.take(chunks@.len() as int) =~= chunks@);
}

/// Write the objects.
fn push_objects(out: &mut Vec<u8>, objects: &Vec<ObjectEntry>)
    ensures
        final(out)@ == old(out)@ + ser_list(wire_objects(objects@), object_ser()),
{
    let mut k: usize = 0;
    assert(wire_objects(objects@.take(0)) =~= Seq::<WireObject>::empty());
    assert(out@ =~= old(out)@ + ser_list(wire_objects(objects@.take(0)), object_ser()));
    while k < objects.len()
        invariant
            k <= objects@.len(),
            out@ == old(out)@ + ser_list(wire_objects(objects@.take(k as int)), object_ser()),
        decreases objects@.len() - k,
    {
        push_object(out, &objects[k]);
        proof {
            let done = wire_objects(objects@.take(k as int));
            assert(wire_objects(objects@.take(k + 1)) =~= done.push(
                wire_object(objects@[k as int]),
            ));
            lemma_ser_list_push(done, wire_object(objects@[k as int]), object_ser());
            assert(out@ =~= old(out)@ + ser_list(
                wire_objects(objects@.take(k + 1)),
                object_ser(),
            ));
        }
        k += 1;
    }
    assert(objects@.take(objects@.len() as int) =~= objects@);
}

/// Encode `header` as bytes.
#[verifier::rlimit(50)]
pub fn encode_header(header: &Header) -> (bytes: Vec<u8>)
    ensures
        bytes@ == encoding_of(header),
        body_of(header).len() <= usize::MAX,
{
    let mut body: Vec<u8> = Vec::new();
    push_be64(&mut body, header.chunks.len() as u64);
    push_table(&mut body, &header.chunks);
    push_be64(&mut body, header.objects.len() as u64);
    push_objects(&mut body, &header.objects);
    assert(body@ =~= body_of(header));
    let mut out: Vec<u8> = Vec::new();
    push_front(&mut out, &header.metadata);
    let ghost front = out@;
    push_be64(&mut out, body.len() as u64);
    let stored = header.metadata.config().codec_of().encode(body.as_slice());
    out.extend_from_slice(stored.as_slice());
    proof {
        let wire = wire_of(header);
        lemma_codec_named(header.metadata@);
        assert(front =~= ser_front(front_of(wire)));
        assert(out@ =~= front + be64(body@.len() as u64) + stored@);
    }
    out
}

/// Eleven integers written one behind the other are their list's encoding.
proof fn lemma_words_written(words: Seq<u64>)
    requires
        words.len() == 11,
    ensures
        ser_list(words, word_ser()) == be64(words[0]) + be64(words[1]) + be64(words[2]) + be64(
            words[3],
        ) + be64(words[4]) + be64(words[5]) + be64(words[6]) + be64(words[7]) + be64(words[8])
            + be64(words[9]) + be64(words[10]),
{
    let empty = Seq::<u64>::empty();
    assert(ser_list(empty, word_ser()) =~= Seq::<u8>::empty());
    let w1 = empty.push(words[0]);
    lemma_ser_list_push(empty, words[0], word_ser());
    let w2 = w1.push(words[1]);
    lemma_ser_list_push(w1, words[1], word_ser());
    let w3 = w2.push(words[2]);
    lemma_ser_list_push(w2, words[2], word_ser());
    let w4 = w3.push(words[3]);
    lemma_ser_list_push(w3, words[3], word_ser());
    let w5 = w4.push(words[4]);
    lemma_ser_list_push(w4, words[4], word_ser());
    let w6 = w5.push(words[5]);
    lemma_ser_list_push(w5, words[5], word_ser());
    let w7 = w6.push(words[6]);
    lemma_ser_list_push(w6, words[6], word_ser());
    let w8 = w7.push(words[7]);
    lemma_ser_list_push(w7, words[7], word_ser());
    let w9 = w8.push(words[8]);
    lemma_ser_list_push(w8, words[8], word_ser());
    let w10 = w9.push(words[9]);
    lemma_ser_list_push(w9, words[9], word_ser());
    let w11 = w10.push(words[10]);
    lemma_ser_list_push(w10, words[10], word_ser());
    assert(w11 =~= words);
    assert(Seq::<u8>::empty() + be64(words[0]) =~= be64(words[0]));
}

/// The digest that 32 bytes stand for.
fn hash_from(bytes: &Vec<u8>) -> (hash: [u8; 32])
    requires
        bytes@.len() == 32,
    ensures
        hash@ == bytes@,
{
    let mut hash = [0u8;32];
    let mut i: usize = 0;
    while i < 32
        invariant
            i <= 32,
            bytes@.len() == 32,
            forall|j: int| 0 <= j < i ==> hash@[j] == bytes@[j],
        decreases 32 - i,
    {
        hash[i] = bytes[i];
        i += 1;
    }
    assert(hash@ =~= bytes@);
    hash
}

/// Read `count` chunk descriptors.
#[verifier::rlimit(50)]
fn read_chunks(reader: &mut Reader, count: u64) -> (result: Option<Vec<Chunk>>)
    requires
        old(reader).wf(),
    ensures
        final(reader).wf(),
        final(reader).bytes == old(reader).bytes,
        match parse_list(old(reader).rest(), count as nat, chunk_parse()) {
            Some((items, rest)) => match result {
                Some(chunks) => wire_chunks(chunks@) == items && final(reader).rest() == rest,
                None => forall|chunks: Seq<Chunk>| wire_chunks(chunks) != items,
            },
            None => result is None,
        },
{
    let mut chunks: Vec<Chunk> = Vec::new();
    let mut i: u64 = 0;
    let ghost start = reader.rest();
    let ghost whole = parse_list(start, count as nat, chunk_parse());
    assert(wire_chunks(chunks@) =~= Seq::<WireChunk>::empty());
    assert(list_progress(wire_chunks(chunks@), start, count as nat, chunk_parse()) == whole) by {
        match parse_list(start, count as nat, chunk_parse()) {
            Some((items, rest)) => {
                assert(Seq::<WireChunk>::empty() + items =~= items);
            },
            None => {},
        }
    }
    while i < count
        invariant
            i <= count,
            reader.wf(),
            reader.bytes == old(reader).bytes,
            start == old(reader).rest(),
            whole == parse_list(start, count as nat, chunk_parse()),
            list_progress(wire_chunks(chunks@), reader.rest(), (count - i) as nat, chunk_parse())
                == whole,
        decreases count - i,
    {
        proof {
            lemma_list_step(
                wire_chunks(chunks@),
                reader.rest(),
                (count - i) as nat,
                chunk_parse(),
            );
        }
        let size = match reader.take_u64() {
            Some(size) => size,
            None => {
                return None;
            },
        };
        let hash = match reader.take_fixed(32) {
            Some(hash) => hash,
            None => {
                return None;
            },
        };
        let ghost item = WireChunk { size, hash: hash@ };
        if size > usize::MAX as u64 {
            proof {
                match whole {
                    Some((items, rest)) => {
                        let at = chunks@.len() as int;
                        assert(items[at] == item);
                        assert forall|other: Seq<Chunk>| wire_chunks(other) != items by {
                            if wire_chunks(other) == items {
                                assert(wire_chunks(other).len() == other.len());
                                assert(0 <= at < items.len());
                                assert(wire_chunks(other)[at] == wire_chunk(other[at]));
                            }
                        }
                    },
                    None => {},
                }
            }
            return None;
        }
        let ghost before = wire_chunks(chunks@);
        chunks.push(Chunk { size: size as usize, hash: hash_from(&hash) });
        proof {
            assert(wire_chunks(chunks@) =~= before.push(item));
        }
        i += 1;
    }
    proof {
        match whole {
            Some((items, rest)) => {
                assert(wire_chunks(chunks@) + Seq::<WireChunk>::empty() =~= wire_chunks(chunks@));
            },
            None => {},
        }
    }
    Some(chunks)
}

/// Read `count` block addresses.
fn read_blocks(reader: &mut Reader, count: u64) -> (result: Option<Vec<BlockAddress>>)
    requires
        old(reader).wf(),
    ensures
        final(reader).wf(),
        final(reader).bytes == old(reader).bytes,
        match parse_list(old(reader).rest(), count as nat, word_parse()) {
            Some((items, rest)) => result is Some && wire_blocks(result->0@) == items
                && final(reader).rest() == rest,
            None => result is None,
        },
{
    let mut blocks: Vec<BlockAddress> = Vec::new();
    let mut i: u64 = 0;
    let ghost start = reader.rest();
    let ghost whole = parse_list(start, count as nat, word_parse());
    assert(wire_blocks(blocks@) =~= Seq::<u64>::empty());
    assert(list_progress(wire_blocks(blocks@), start, count as nat, word_parse()) == whole) by {
        match parse_list(start, count as nat, word_parse()) {
            Some((items, rest)) => {
                assert(Seq::<u64>::empty() + items =~= items);
            },
            None => {},
        }
    }
    while i < count
        invariant
            i <= count,
            reader.wf(),
            reader.bytes == old(reader).bytes,
            start == old(reader).rest(),
            whole == parse_list(start, count as nat, word_parse()),
            list_progress(wire_blocks(blocks@), reader.rest(), (count - i) as nat, word_parse())
                == whole,
        decreases count - i,
    {
        proof {
            lemma_list_step(wire_blocks(blocks@), reader.rest(), (count - i) as nat, word_parse());
        }
        let index = match reader.take_u64() {
            Some(index) => index,
            None => {
                return None;
            },
        };
        let ghost before = wire_blocks(blocks@);
        blocks.push(BlockAddress(index));
        proof {
            assert(wire_blocks(blocks@) =~= before.push(index));
        }
        i += 1;
    }
    proof {
        match whole {
            Some((items, rest)) => {
                assert(wire_blocks(blocks@) + Seq::<u64>::empty() =~= wire_blocks(blocks@));
            },
            None => {},
        }
    }
    Some(blocks)
}

/// Read an entry of the table.
#[verifier::rlimit(50)]
fn read_ref(reader: &mut Reader) -> (result: Option<ChunkRef>)
    requires
        old(reader).wf(),
    ensures
        final(reader).wf(),
        final(reader).bytes == old(reader).bytes,
        match parse_ref(old(reader).rest()) {
            Some((item, rest)) => match result {
                Some(entry) => wire_ref(entry) == item && final(reader).rest() == rest,
                None => forall|entry: ChunkRef| wire_ref(entry) != item,
            },
            None => result is None,
        },
{
    let hash = match reader.take_fixed(32) {
        Some(hash) => hash,
        None => {
            return None;
        },
    };
    let size = match reader.take_u64() {
        Some(size) => size,
        None => {
            return None;
        },
    };
    let stored_size = match reader.take_u64() {
        Some(stored_size) => stored_size,
        None => {
            return None;
        },
    };
    let refcount = match reader.take_u64() {
        Some(refcount) => refcount,
        None => {
            return None;
        },
    };
    let count = match reader.take_u64() {
        Some(count) => count,
        None => {
            return None;
        },
    };
    let blocks = match read_blocks(reader, count) {
        Some(blocks) => blocks,
        None => {
            return None;
        },
    };
    if size > usize::MAX as u64 {
        return None;
    }
    Some(ChunkRef { hash: hash_from(&hash), size: size as usize, stored_size, blocks, refcount })
}

/// Read an object.
#[verifier::rlimit(50)]
fn read_object(reader: &mut Reader) -> (result: Option<ObjectEntry>)
    requires
        old(reader).wf(),
    ensures
        final(reader).wf(),
        final(reader).bytes == old(reader).bytes,
        match parse_object(old(reader).rest()) {
            Some((item, rest)) => match result {
                Some(object) => wire_object(object) == item && final(reader).rest() == rest,
                None => forall|object: ObjectEntry| wire_object(object) != item,
            },
            None => result is None,
        },
{
    let key = match reader.take_bytes() {
        Some(key) => key,
        None => {
            return None;
        },
    };
    let size = match reader.take_u64() {
        Some(size) => size,
        None => {
            return None;
        },
    };
    let count = match reader.take_u64() {
        Some(count) => count,
        None => {
            return None;
        },
    };
    let chunks = match read_chunks(reader, count) {
        Some(chunks) => chunks,
        None => {
            return None;
        },
    };
    Some(ObjectEntry { key, handle: ObjectHandle { size, chunks } })
}

/// Read the table: `count` entries.
#[verifier::rlimit(50)]
fn read_table(reader: &mut Reader, count: u64) -> (result: Option<Vec<ChunkRef>>)
    requires
        old(reader).wf(),
    ensures
        final(reader).wf(),
        final(reader).bytes == old(reader).bytes,
        match parse_list(old(reader).rest(), count as nat, ref_parse()) {
            Some((items, rest)) => match result {
                Some(table) => wire_table(table@) == items && final(reader).rest() == rest,
                None => forall|table: Seq<ChunkRef>| wire_table(table) != items,
            },
            None => result is None,
        },
{
    let mut table: Vec<ChunkRef> = Vec::new();
    let mut i: u64 = 0;
    let ghost start = reader.rest();
    let ghost whole = parse_list(start, count as nat, ref_parse());
    assert(wire_table(table@) =~= Seq::<WireRef>::empty());
    assert(list_progress(wire_table(table@), start, count as nat, ref_parse()) == whole) by {
        match parse_list(start, count as nat, ref_parse()) {
            Some((items, rest)) => {
                assert(Seq::<WireRef>::empty() + items =~= items);
            },
            None => {},
        }
    }
    while i < count
        invariant
            i <= count,
            reader.wf(),
            reader.bytes == old(reader).bytes,
            start == old(reader).rest(),
            whole == parse_list(start, count as nat, ref_parse()),
            list_progress(wire_table(table@), reader.rest(), (count - i) as nat, ref_parse())
                == whole,
        decreases count - i,
    {
        proof {
            lemma_list_step(wire_table(table@), reader.rest(), (count - i) as nat, ref_parse());
        }
        let ghost parsed = parse_ref(reader.rest());
        let entry = match read_ref(reader) {
            Some(entry) => entry,
            None => {
                proof {
                    match whole {
                        Some((items, rest)) => {
                            let at = table@.len() as int;
                            let found = parsed->0;
                            let item = found.0;
                            assert(items[at] == item);
                            assert forall|other: Seq<ChunkRef>| wire_table(other) != items by {
                                if wire_table(other) == items {
                                    assert(wire_table(other).len() == other.len());
                                    assert(0 <= at < items.len());
                                    assert(wire_table(other)[at] == wire_ref(other[at]));
                                }
                            }
                        },
                        None => {},
                    }
                }
                return None;
            },
        };
        let ghost before = wire_table(table@);
        let ghost item = wire_ref(entry);
        table.push(entry);
        proof {
            assert(wire_table(table@) =~= before.push(item));
        }
        i += 1;
    }
    proof {
        match whole {
            Some((items, rest)) => {
                assert(wire_table(table@) + Seq::<WireRef>::empty() =~= wire_table(table@));
            },
            None => {},
        }
    }
    Some(table)
}

/// Read the objects: `count` of them.
#[verifier::rlimit(50)]
fn read_objects(reader: &mut Reader, count: u64) -> (result: Option<Vec<ObjectEntry>>)
    requires
        old(reader).wf(),
    ensures
        final(reader).wf(),
        final(reader).bytes == old(reader).bytes,
        match parse_list(old(reader).rest(), count as nat, object_parse()) {
            Some((items, rest)) => match result {
                Some(objects) => wire_objects(objects@) == items && final(reader).rest() == rest,
                None => forall|objects: Seq<ObjectEntry>| wire_objects(objects) != items,
            },
            None => result is None,
        },
{
    let mut objects: Vec<ObjectEntry> = Vec::new();
    let mut i: u64 = 0;
    let ghost start = reader.rest();
    let ghost whole = parse_list(start, count as nat, object_parse());
    assert(wire_objects(objects@) =~= Seq::<WireObject>::empty());
    assert(list_progress(wire_objects(objects@), start, count as nat, object_parse()) == whole) by {
        match parse_list(start, count as nat, object_parse()) {
            Some((items, rest)) => {
                assert(Seq::<WireObject>::empty() + items =~= items);
            },
            None => {},
        }
    }
    while i < count
        invariant
            i <= count,
            reader.wf(),
            reader.bytes == old(reader).bytes,
            start == old(reader).rest(),
            whole == parse_list(start, count as nat, object_parse()),
            list_progress(
                wire_objects(objects@),
                reader.rest(),
                (count - i) as nat,
                object_parse(),
            ) == whole,
        decreases count - i,
    {
        proof {
            lemma_list_step(
                wire_objects(objects@),
                reader.rest(),
                (count - i) as nat,
                object_parse(),
            );
        }
        let ghost parsed = parse_object(reader.rest());
        let object = match read_object(reader) {
            Some(object) => object,
            None => {
                proof {
                    match whole {
                        Some((items, rest)) => {
                            let at = objects@.len() as int;
                            let found = parsed->0;
                            let item = found.0;
                            assert(items[at] == item);
                            assert forall|other: Seq<ObjectEntry>| wire_objects(other) != items by {
                                if wire_objects(other) == items {
                                    assert(wire_objects(other).len() == other.len());
                                    assert(0 <= at < items.len());
                                    assert(wire_objects(other)[at] == wire_object(other[at]));
                                }
                            }
                        },
                        None => {},
                    }
                }
                return None;
            },
        };
        let ghost before = wire_objects(objects@);
        let ghost item = wire_object(object);
        objects.push(object);
        proof {
            assert(wire_objects(objects@) =~= before.push(item));
        }
        i += 1;
    }
    proof {
        match whole {
            Some((items, rest)) => {
                assert(wire_objects(objects@) + Seq::<WireObject>::empty() =~= wire_objects(
                    objects@,
                ));
            },
            None => {},
        }
    }
    Some(objects)
}

/// Read `count` integers.
fn read_words(reader: &mut Reader, count: u64) -> (result: Option<Vec<u64>>)
    requires
        old(reader).wf(),
    ensures
        final(reader).wf(),
        final(reader).bytes == old(reader).bytes,
        match parse_list(old(reader).rest(), count as nat, word_parse()) {
            Some((items, rest)) => result is Some && result->0@ == items && final(reader).rest()
                == rest,
            None => result is None,
        },
{
    let blocks = match read_blocks(reader, count) {
        Some(blocks) => blocks,
        None => {
            return None;
        },
    };
    let mut words: Vec<u64> = Vec::new();
    let mut i: usize = 0;
    while i < blocks.len()
        invariant
            i <= blocks@.len(),
            words@.len() == i,
            forall|j: int| 0 <= j < i ==> words@[j] == blocks@[j].0,
        decreases blocks@.len() - i,
    {
        words.push(blocks[i].0);
        i += 1;
    }
    assert(words@ =~= wire_blocks(blocks@));
    Some(words)
}

/// The resource limit that a number stands for.
fn limit_from(tag: u64) -> (limit: Option<ResourceLimit>)
    ensures
        match limit {
            Some(limit) => limit_tag(limit) == tag,
            None => forall|limit: ResourceLimit| limit_tag(limit) != tag,
        },
{
    if tag == 0 {
        Some(ResourceLimit::Interactive)
    } else if tag == 1 {
        Some(ResourceLimit::Moderate)
    } else if tag == 2 {
        Some(ResourceLimit::Sensitive)
    } else {
        None
    }
}

/// The identifier with the given halves.
fn join_id(high: u64, low: u64) -> (id: u128)
    ensures
        high_word(id) == high,
        low_word(id) == low,
{
    let id = ((high as u128) << 64) | (low as u128);
    assert((((high as u128) << 64 | (low as u128)) >> 64) as u64 == high && (((high as u128) << 64
        | (low as u128)) & 0xffff_ffff_ffff_ffff) as u64 == low) by (bit_vector);
    id
}

/// The start of a header with this metadata, as it is written.
pub open spec fn wire_front(metadata: MetadataView) -> WireFront {
    WireFront {
        words: wire_words(metadata),
        master_key: metadata.master_key,
        salt: metadata.salt,
    }
}

/// Read the start of a header: the metadata.
#[verifier::rlimit(50)]
fn read_front(reader: &mut Reader) -> (result: Result<RepositoryMetadata, Error>)
    requires
        old(reader).wf(),
    ensures
        final(reader).wf(),
        final(reader).bytes == old(reader).bytes,
        match result {
            Ok(metadata) => parse_front(old(reader).rest()) == Some(
                (wire_front(metadata@), final(reader).rest()),
            ),
            Err(error) => {
                &&& error == Error::UnsupportedFormat || error == Error::Deserialize
                &&& error == Error::UnsupportedFormat <==> names_other_version(old(reader).rest())
                &&& match parse_front(old(reader).rest()) {
                    Some((front, rest)) => forall|metadata: MetadataView|
                        #[trigger] wire_front(metadata) != front,
                    None => true,
                }
            },
        },
{
    proof {
        crate::wire::lemma_parse_list_len(reader.rest(), 11, word_parse());
    }
    let words = match read_words(reader, 11) {
        Some(words) => words,
        None => {
            return Err(Error::Deserialize);
        },
    };
    let master_key = match reader.take_bytes() {
        Some(bytes) => bytes,
        None => {
            return Err(Error::Deserialize);
        },
    };
    let salt = match reader.take_bytes() {
        Some(bytes) => bytes,
        None => {
            return Err(Error::Deserialize);
        },
    };
    match metadata_from(&words, master_key, salt) {
        Ok(metadata) => Ok(metadata),
        Err(error) => Err(error),
    }
}

/// The metadata that eleven integers and two byte strings stand for.
#[verifier::rlimit(50)]
fn metadata_from(words: &Vec<u64>, master_key: Vec<u8>, salt: Vec<u8>) -> (result: Result<
    RepositoryMetadata,
    Error,
>)
    requires
        words@.len() == 11,
    ensures
        match result {
            Ok(metadata) => wire_front(metadata@) == (WireFront {
                words: words@,
                master_key: master_key@,
                salt: salt@,
            }),
            Err(error) => {
                &&& error == Error::UnsupportedFormat || error == Error::Deserialize
                &&& error == Error::UnsupportedFormat <==> words@[0] != high_word(FORMAT_VERSION)
                    || words@[1] != low_word(FORMAT_VERSION)
                &&& forall|metadata: MetadataView| (#[trigger] wire_words(metadata)) != words@
            },
        },
{
    let version = split_id(FORMAT_VERSION);
    if words[0] != version.0 || words[1] != version.1 {
        assert forall|metadata: MetadataView| (#[trigger] wire_words(metadata)) != words@ by {
            assert(wire_words(metadata)[0] == version.0);
            assert(wire_words(metadata)[1] == version.1);
        }
        return Err(Error::UnsupportedFormat);
    }
    let id = join_id(words[2], words[3]);
    if words[4] > u32::MAX as u64 || words[6] != 0 || words[10] > u32::MAX as u64 {
        assert forall|metadata: MetadataView| (#[trigger] wire_words(metadata)) != words@ by {
            assert(wire_words(metadata)[4] <= u32::MAX);
            assert(wire_words(metadata)[6] == 0);
            assert(wire_words(metadata)[10] <= u32::MAX);
        }
        return Err(Error::Deserialize);
    }
    let compression = match compression_from(words[5]) {
        Some(compression) => compression,
        None => {
            assert forall|metadata: MetadataView| (#[trigger] wire_words(metadata)) != words@ by {
                assert(wire_words(metadata)[5] == compression_tag(metadata.config.compression));
            }
            return Err(Error::Deserialize);
        },
    };
    let memory_limit = match limit_from(words[7]) {
        Some(limit) => limit,
        None => {
            assert forall|metadata: MetadataView| (#[trigger] wire_words(metadata)) != words@ by {
                assert(wire_words(metadata)[7] == limit_tag(metadata.config.memory_limit));
            }
            return Err(Error::Deserialize);
        },
    };
    let operations_limit = match limit_from(words[8]) {
        Some(limit) => limit,
        None => {
            assert forall|metadata: MetadataView| (#[trigger] wire_words(metadata)) != words@ by {
                assert(wire_words(metadata)[8] == limit_tag(metadata.config.operations_limit));
            }
            return Err(Error::Deserialize);
        },
    };
    let metadata = RepositoryMetadata {
        id,
        chunker_bits: words[4] as u32,
        compression,
        encryption: Encryption::Unencrypted,
        memory_limit,
        operations_limit,
        master_key,
        salt,
        creation_time: Timestamp { seconds: words[9], nanoseconds: words[10] as u32 },
    };
    assert(wire_words(metadata@) =~= words@);
    Ok(metadata)
}

/// Read the table and the objects, up to the end of the bytes.
#[verifier::rlimit(50)]
fn read_body(reader: &mut Reader) -> (result: Option<(Vec<ChunkRef>, Vec<ObjectEntry>)>)
    requires
        old(reader).wf(),
    ensures
        match parse_body(old(reader).rest()) {
            Some((table, objects)) => match result {
                Some(body) => wire_table(body.0@) == table && wire_objects(body.1@) == objects,
                None => forall|chunks: Seq<ChunkRef>, entries: Seq<ObjectEntry>|
                    #![trigger wire_table(chunks), wire_objects(entries)]
                    wire_table(chunks) != table || wire_objects(entries) != objects,
            },
            None => result is None,
        },
{
    let table_len = match reader.take_u64() {
        Some(count) => count,
        None => {
            return None;
        },
    };
    let chunks = match read_table(reader, table_len) {
        Some(table) => table,
        None => {
            return None;
        },
    };
    let objects_len = match reader.take_u64() {
        Some(count) => count,
        None => {
            return None;
        },
    };
    let objects = match read_objects(reader, objects_len) {
        Some(objects) => objects,
        None => {
            return None;
        },
    };
    if reader.remaining() != 0 {
        return None;
    }
    Some((chunks, objects))
}

/// Decode a header from `bytes`. Bytes that are the encoding of a header
/// give that header back; all others are refused: as an unsupported format
/// where they start as a header does but with another version, else as not
/// a header.
#[verifier::rlimit(50)]
pub fn decode_header(bytes: &[u8]) -> (result: Result<Header, Error>)
    ensures
        match result {
            Ok(header) => parse_header(bytes@) == Some(wire_of(&header)),
            Err(error) => {
                &&& error == Error::UnsupportedFormat || error == Error::Deserialize
                &&& error == Error::UnsupportedFormat <==> names_other_version(bytes@)
                &&& forall|header: Header| parse_header(bytes@) != Some(wire_of(&header))
            },
        },
{
    let mut reader = Reader::new(bytes);
    let metadata = match read_front(&mut reader) {
        Ok(metadata) => metadata,
        Err(error) => {
            assert forall|header: Header| parse_header(bytes@) != Some(wire_of(&header)) by {
                assert(wire_front(header.metadata@).words == wire_of(&header).words);
            }
            return Err(error);
        },
    };
    let ghost words = wire_words(metadata@);
    let ghost behind = reader.rest();
    proof {
        lemma_codec_named(metadata@);
    }
    let length = match reader.take_u64() {
        Some(length) => length,
        None => {
            return Err(Error::Deserialize);
        },
    };
    if length > usize::MAX as u64 {
        return Err(Error::Deserialize);
    }
    let left = reader.remaining();
    let stored = match reader.take_fixed(left) {
        Some(stored) => stored,
        None => {
            return Err(Error::Deserialize);
        },
    };
    proof {
        assert(stored@ =~= behind.skip(8));
    }
    let packed = match metadata.config().codec_of().decode(stored, length as usize) {
        Some(packed) => packed,
        None => {
            return Err(Error::Deserialize);
        },
    };
    if packed.len() as u64 != length {
        return Err(Error::Deserialize);
    }
    assert(parse_packed(words, behind) == Some(packed@));
    let mut inner = Reader::new(packed.as_slice());
    let ghost body = parse_body(packed@);
    match read_body(&mut inner) {
        Some((chunks, objects)) => Ok(Header { objects, chunks, metadata }),
        None => {
            assert forall|header: Header| parse_header(bytes@) != Some(wire_of(&header)) by {
                if body is Some {
                    assert(wire_of(&header).table == wire_table(header.chunks@));
                    assert(wire_of(&header).objects == wire_objects(header.objects@));
                }
            }
            Err(Error::Deserialize)
        },
    }
}

/// The encoding of a header without objects, chunks and keys is short.
pub proof fn lemma_empty_header_len(header: &Header)
    requires
        header.objects@.len() == 0,
        header.chunks@.len() == 0,
        header.metadata@.master_key.len() == 0,
        header.metadata@.salt.len() == 0,
    ensures
        body_of(header).len() == 16,
        encoding_of(header).len() <= 129,
{
    let wire = wire_of(header);
    crate::wire::lemma_words_len(wire.words, word_ser());
    lemma_codec_named(header.metadata@);
    assert(wire.table =~= Seq::<WireRef>::empty());
    assert(wire.objects =~= Seq::<WireObject>::empty());
    assert(ser_list(wire.table, ref_ser()).len() == 0);
    assert(ser_list(wire.objects, object_ser()).len() == 0);
}

/// Headers that hold the same are written alike.
pub proof fn lemma_view_determines_wire(a: &Header, b: &Header)
    requires
        a@ == b@,
    ensures
        wire_of(a) == wire_of(b),
{
    assert(a@.chunks.len() == a.chunks@.len());
    assert(b@.chunks.len() == b.chunks@.len());
    assert(a@.objects.len() == a.objects@.len());
    assert(b@.objects.len() == b.objects@.len());
    assert forall|i: int| 0 <= i < a.chunks@.len() implies wire_ref(a.chunks@[i]) == wire_ref(
        b.chunks@[i],
    ) by {
        assert(a@.chunks[i] == a.chunks@[i]@);
        assert(b@.chunks[i] == b.chunks@[i]@);
    }
    assert forall|i: int| 0 <= i < a.objects@.len() implies wire_object(a.objects@[i])
        == wire_object(b.objects@[i]) by {
        assert(a@.objects[i] == a.objects@[i]@);
        assert(b@.objects[i] == b.objects@[i]@);
    }
    assert(wire_table(a.chunks@) =~= wire_table(b.chunks@));
    assert(wire_objects(a.objects@) =~= wire_objects(b.objects@));
}

/// Decoding undoes encoding: a header that is decoded from the bytes
/// written for another holds the same as that other.
pub proof fn lemma_decode_undoes_encode(header: &Header, decoded: &Header)
    requires
        body_of(header).len() <= usize::MAX,
        parse_header(encoding_of(header)) == Some(wire_of(decoded)),
    ensures
        decoded@ == header@,
{
    lemma_wire_well_shaped(header);
    lemma_wire_determines_view(decoded, header);
}

/// The bytes written for a header are never refused by the decoder.
pub proof fn lemma_encoded_is_decodable(header: &Header)
    requires
        body_of(header).len() <= usize::MAX,
    ensures
        exists|decoded: Header| parse_header(encoding_of(header)) == Some(wire_of(&decoded)),
{
    lemma_wire_well_shaped(header);
    assert(parse_header(encoding_of(header)) == Some(wire_of(header)));
}

} // verus!
