use acid_store::block::{BlockAddress, HeaderAddress, BLOCK_OFFSET, BLOCK_SIZE, MAX_BLOCKS};
use acid_store::bytes::{push_be64, read_be64};
use acid_store::chunking::{IncrementalChunker, MAX_CHUNK_SIZE};
use acid_store::codec::{Codec, Compression, Encryption};
use acid_store::encoding::{decode_header, encode_header, FORMAT_VERSION};
use acid_store::error::Error;
use acid_store::file::{
    unix_file_time, AccessMode, FileMetadata, FileTime, List, NoMetadata, Walk, ACCESS_EXECUTE,
    ACCESS_READ, ACCESS_WRITE,
};
use acid_store::handle::{Chunk, ObjectHandle};
use acid_store::hash::{chunk_hash, hash_eq};
use acid_store::header::{bytes_eq, ChunkRef, Header, ObjectEntry};
use acid_store::key::Key;
use acid_store::metadata::{RepositoryConfig, RepositoryMetadata, ResourceLimit, Timestamp};
use acid_store::store::{DataStore, MemoryStore};
use cdchunking::{Chunker, ZPAQ};

fn hex(text: &str) -> Vec<u8> {
    (0..text.len() / 2)
        .map(|i| u8::from_str_radix(&text[2 * i..2 * i + 2], 16).unwrap())
        .collect()
}

fn pattern(length: usize, seed: u32) -> Vec<u8> {
    let mut state = seed;
    (0..length)
        .map(|_| {
            state = state.wrapping_mul(1_664_525).wrapping_add(1_013_904_223);
            (state >> 24) as u8
        })
        .collect()
}

#[test]
fn the_digest_is_blake2b_with_32_bytes() {
    assert_eq!(
        chunk_hash(b"").to_vec(),
        hex("0e5751c026e543b2e8ab2eb06099daa1d1e5df47778f7787faab45cdf12fe3a8")
    );
    assert_eq!(
        chunk_hash(b"abc").to_vec(),
        hex("bddd813c634239723171ef3fee98579b94964e3bb1cb3e427262c8c068d52319")
    );
    assert!(hash_eq(&chunk_hash(b"abc"), &chunk_hash(b"abc")));
    assert!(!hash_eq(&chunk_hash(b"abc"), &chunk_hash(b"abd")));
}

#[test]
fn the_chunker_cuts_where_the_rolling_hash_does() {
    for bits in [3usize, 6, 9] {
        let data = pattern(30_000, bits as u32);
        let expected: Vec<Vec<u8>> = Chunker::new(ZPAQ::new(bits))
            .slices(&data)
            .map(|slice| slice.to_vec())
            .collect();
        assert!(expected.len() > 1);
        let mut chunker = IncrementalChunker::new(bits);
        let mut chunks = Vec::new();
        for piece in data.chunks(777) {
            chunker.write(piece);
            chunks.extend(chunker.chunks());
        }
        chunker.flush();
        chunks.extend(chunker.chunks());
        assert_eq!(chunks, expected);
        assert_eq!(chunks.concat(), data);
        assert!(chunks.iter().all(|chunk| !chunk.is_empty()));
    }
}

#[test]
fn a_chunk_ends_when_it_has_its_largest_size() {
    assert_eq!(MAX_CHUNK_SIZE, 64 * 1024 * 1024);
    let data = pattern(MAX_CHUNK_SIZE + 1000, 77);
    let expected: Vec<usize> = Chunker::new(ZPAQ::new(32))
        .max_size(MAX_CHUNK_SIZE)
        .slices(&data)
        .map(|slice| slice.len())
        .collect();
    let mut chunker = IncrementalChunker::new(32);
    chunker.write(&data);
    let ready: Vec<usize> = chunker.chunks().iter().map(|chunk| chunk.len()).collect();
    chunker.flush();
    let last: Vec<usize> = chunker.chunks().iter().map(|chunk| chunk.len()).collect();
    assert!(!ready.is_empty());
    assert!(ready.iter().all(|length| *length <= MAX_CHUNK_SIZE));
    assert_eq!([ready, last].concat(), expected);
}

#[test]
fn a_chunker_without_data_gives_no_chunk() {
    let mut chunker = IncrementalChunker::new(8);
    chunker.write(b"");
    chunker.flush();
    assert_eq!(chunker.chunks(), Vec::<Vec<u8>>::new());
    chunker.write(b"pending");
    assert_eq!(chunker.chunks(), Vec::<Vec<u8>>::new());
    chunker.flush();
    assert_eq!(chunker.chunks(), vec![b"pending".to_vec()]);
    assert_eq!(chunker.chunks(), Vec::<Vec<u8>>::new());
}

#[test]
fn the_codec_stores_raw_what_does_not_shrink() {
    let plain = Codec { compression: Compression::Uncompressed, encryption: Encryption::Unencrypted };
    assert_eq!(plain.encode(b"abc"), b"abc".to_vec());
    assert_eq!(plain.decode(b"abc".to_vec(), 3), Some(b"abc".to_vec()));
    let packing = Codec {
        compression: Compression::Deflate { level: 9 },
        encryption: Encryption::Unencrypted,
    };
    assert_eq!(packing.encode(b"abc"), b"\x00abc".to_vec());
    assert_eq!(packing.decode(b"\x00abc".to_vec(), 3), Some(b"abc".to_vec()));
    assert_eq!(packing.encode(b""), b"\x00".to_vec());
    assert_eq!(packing.decode(b"\x00".to_vec(), 0), Some(Vec::new()));
}

#[test]
fn the_codec_compresses_what_shrinks() {
    let packing = Codec {
        compression: Compression::Deflate { level: 6 },
        encryption: Encryption::Unencrypted,
    };
    let data = vec![7u8; 10_000];
    let stored = packing.encode(&data);
    assert_eq!(stored[0], 1);
    assert!(stored.len() < 200);
    assert_eq!(packing.decode(stored.clone(), data.len()), Some(data.clone()));
    assert_eq!(packing.decode(stored.clone(), data.len() - 1), None);
    let mut broken = stored.clone();
    broken.truncate(stored.len() / 2);
    assert_eq!(packing.decode(broken, data.len()), None);
    assert_eq!(packing.decode(Vec::new(), 0), None);
    assert_eq!(packing.decode(vec![2, 0, 0], 2), None);
}

#[test]
fn integers_are_written_most_significant_byte_first() {
    let mut out = vec![0xaa];
    push_be64(&mut out, 0x0102_0304_0506_0708);
    push_be64(&mut out, 1);
    push_be64(&mut out, u64::MAX);
    assert_eq!(
        out,
        vec![
            0xaa, 1, 2, 3, 4, 5, 6, 7, 8, 0, 0, 0, 0, 0, 0, 0, 1, 0xff, 0xff, 0xff, 0xff, 0xff,
            0xff, 0xff, 0xff
        ]
    );
    assert_eq!(read_be64(&out, 1), 0x0102_0304_0506_0708);
    assert_eq!(read_be64(&out, 9), 1);
    assert_eq!(read_be64(&out, 17), u64::MAX);
    assert_eq!(read_be64(&out, 2), 0x0203_0405_0607_0800);
}

#[test]
fn block_addresses_and_offsets() {
    assert_eq!(BLOCK_SIZE, 4096);
    assert_eq!(BLOCK_OFFSET, 8);
    assert_eq!(BlockAddress(0).to_offset(), 8);
    assert_eq!(BlockAddress(3).to_offset(), 8 + 3 * 4096);
    assert_eq!(BlockAddress(0).block_id(), 1);
    assert_eq!(BlockAddress(41).block_id(), 42);
    assert_eq!(BlockAddress::from_offset(8), Some(BlockAddress(0)));
    assert_eq!(BlockAddress::from_offset(8 + 4096 * 5), Some(BlockAddress(5)));
    assert_eq!(BlockAddress::from_offset(0), None);
    assert_eq!(BlockAddress::from_offset(7), None);
    assert_eq!(BlockAddress::from_offset(9), None);
    assert_eq!(BlockAddress::from_offset(4096), None);
    assert_eq!(BlockAddress::from_offset(8 + 4096 * (MAX_BLOCKS - 1)), Some(BlockAddress(MAX_BLOCKS - 1)));
    assert_eq!(BlockAddress::from_offset(8 + 4096 * MAX_BLOCKS), None);
}

#[test]
fn the_blocks_that_cover_a_range() {
    let none: Vec<BlockAddress> = Vec::new();
    assert_eq!(BlockAddress::range(8, 0), none);
    assert_eq!(BlockAddress::range(0, 8), none);
    assert_eq!(BlockAddress::range(8, 1), vec![BlockAddress(0)]);
    assert_eq!(BlockAddress::range(8, 4096), vec![BlockAddress(0)]);
    assert_eq!(BlockAddress::range(8, 4097), vec![BlockAddress(0), BlockAddress(1)]);
    assert_eq!(BlockAddress::range(0, 9), vec![BlockAddress(0)]);
    assert_eq!(BlockAddress::range(4103, 2), vec![BlockAddress(0), BlockAddress(1)]);
    assert_eq!(
        BlockAddress::range(8 + 2 * 4096, 3 * 4096),
        vec![BlockAddress(2), BlockAddress(3), BlockAddress(4)]
    );
}

#[test]
fn the_blocks_of_an_archive_and_of_its_header() {
    let address = HeaderAddress::new(8 + 3 * 4096, 5000, 8 + 5 * 4096);
    assert_eq!(address.header_offset(), 8 + 3 * 4096);
    assert_eq!(address.size(), 5000);
    assert_eq!(address.end(), 8 + 5 * 4096);
    assert_eq!(address.header_blocks(), vec![BlockAddress(3), BlockAddress(4)]);
    assert_eq!(
        address.blocks(),
        vec![BlockAddress(0), BlockAddress(1), BlockAddress(2), BlockAddress(3), BlockAddress(4)]
    );
    let empty = HeaderAddress::new(8, 0, 8);
    assert_eq!(empty.blocks(), Vec::<BlockAddress>::new());
    assert_eq!(empty.header_blocks(), Vec::<BlockAddress>::new());
    assert_eq!(HeaderAddress::new(0, 0, 3).blocks(), Vec::<BlockAddress>::new());
}

fn chunk(size: usize, seed: u8) -> Chunk {
    Chunk { size, hash: [seed; 32] }
}

#[test]
fn the_chunk_under_a_position() {
    let handle = ObjectHandle { size: 60, chunks: vec![chunk(10, 1), chunk(20, 2), chunk(30, 3)] };
    assert!(handle.check());
    let at = |position: u64| handle.locate(position).map(|found| (found.index, found.start, found.end));
    assert_eq!(at(0), Some((0, 0, 10)));
    assert_eq!(at(9), Some((0, 0, 10)));
    assert_eq!(at(10), Some((0, 0, 10)));
    assert_eq!(at(11), Some((1, 10, 30)));
    assert_eq!(at(30), Some((1, 10, 30)));
    assert_eq!(at(31), Some((2, 30, 60)));
    assert_eq!(at(60), Some((2, 30, 60)));
    assert_eq!(at(61), None);
    let found = handle.locate(25).unwrap();
    assert_eq!(found.relative_position(), 15);
    assert_eq!(found.position, 25);
    assert_eq!(found.chunk, chunk(20, 2));
    assert_eq!(handle.chunk_under(10), (1, 0));
    assert_eq!(handle.chunk_under(0), (0, 0));
    assert_eq!(handle.chunk_under(59), (2, 29));
    assert_eq!(ObjectHandle::default().locate(0).map(|found| found.index), None);
    assert_eq!(ObjectHandle::default(), ObjectHandle { size: 0, chunks: Vec::new() });
}

#[test]
fn a_handle_is_checked() {
    assert!(ObjectHandle { size: 0, chunks: vec![] }.check());
    assert!(!ObjectHandle { size: 1, chunks: vec![] }.check());
    assert!(!ObjectHandle { size: 10, chunks: vec![chunk(10, 1), chunk(0, 2)] }.check());
    assert!(!ObjectHandle { size: 29, chunks: vec![chunk(10, 1), chunk(20, 2)] }.check());
    assert!(ObjectHandle { size: 30, chunks: vec![chunk(10, 1), chunk(20, 2)] }.check());
    assert!(!ObjectHandle { size: 0, chunks: vec![chunk(usize::MAX, 1), chunk(usize::MAX, 2)] }.check());
}

fn metadata() -> RepositoryMetadata {
    let mut metadata = RepositoryMetadata::new(
        0xfedc_ba98_7654_3210_0123_4567_89ab_cdef,
        RepositoryConfig {
            chunker_bits: 20,
            compression: Compression::Deflate { level: 3 },
            encryption: Encryption::Unencrypted,
            memory_limit: ResourceLimit::Sensitive,
            operations_limit: ResourceLimit::Moderate,
        },
        Timestamp { seconds: 5, nanoseconds: 6 },
    );
    metadata.master_key = vec![1, 2, 3];
    metadata.salt = vec![4];
    metadata
}

fn sample() -> Header {
    Header {
        objects: vec![
            ObjectEntry {
                key: b"first".to_vec(),
                handle: ObjectHandle { size: 30, chunks: vec![chunk(10, 1), chunk(20, 2)] },
            },
            ObjectEntry { key: Vec::new(), handle: ObjectHandle { size: 0, chunks: vec![] } },
            ObjectEntry {
                key: vec![0xff; 300],
                handle: ObjectHandle { size: 10, chunks: vec![chunk(10, 1)] },
            },
        ],
        chunks: vec![
            ChunkRef {
                hash: [1; 32],
                size: 10,
                stored_size: 12,
                blocks: vec![BlockAddress(7)],
                refcount: 2,
            },
            ChunkRef {
                hash: [2; 32],
                size: 20,
                stored_size: 5000,
                blocks: vec![BlockAddress(8), BlockAddress(9)],
                refcount: 1,
            },
        ],
        metadata: metadata(),
    }
}

fn same(one: &Header, other: &Header) -> bool {
    one.metadata == other.metadata
        && one.objects.len() == other.objects.len()
        && one.chunks.len() == other.chunks.len()
        && one.objects.iter().zip(&other.objects).all(|(a, b)| a.key == b.key && a.handle == b.handle)
        && one.chunks.iter().zip(&other.chunks).all(|(a, b)| {
            a.hash == b.hash
                && a.size == b.size
                && a.stored_size == b.stored_size
                && a.blocks == b.blocks
                && a.refcount == b.refcount
        })
}

#[test]
fn a_header_comes_back_from_its_encoding() {
    let header = sample();
    assert!(header.validate());
    let bytes = encode_header(&header);
    assert_eq!(&bytes[..16], &FORMAT_VERSION.to_be_bytes()[..]);
    assert_eq!(&bytes[16..32], &header.metadata.id.to_be_bytes()[..]);
    assert_eq!(&bytes[32..40], &[0, 0, 0, 0, 0, 0, 0, 20]);
    assert_eq!(&bytes[40..48], &[0, 0, 0, 0, 0, 0, 1, 3]);
    assert_eq!(&bytes[56..64], &[0, 0, 0, 0, 0, 0, 0, 2]);
    assert_eq!(&bytes[88..99], &[0, 0, 0, 0, 0, 0, 0, 3, 1, 2, 3]);
    let decoded = decode_header(&bytes).unwrap();
    assert!(same(&decoded, &header));
    assert!(same(&header.duplicate(), &header));
    assert_eq!(encode_header(&decoded), bytes);
    let empty = Header::new(metadata());
    assert!(same(&decode_header(&encode_header(&empty)).unwrap(), &empty));
}

#[test]
fn what_is_not_the_encoding_of_a_header_is_refused() {
    let mut plain = sample();
    plain.metadata.compression = Compression::Uncompressed;
    let bytes = encode_header(&plain);
    assert_eq!(decode_header(&[]).err(), Some(Error::Deserialize));
    assert_eq!(decode_header(&bytes[..bytes.len() - 1]).err(), Some(Error::Deserialize));
    let mut longer = bytes.clone();
    longer.push(0);
    assert_eq!(decode_header(&longer).err(), Some(Error::Deserialize));
    let mut length = bytes.clone();
    length[88 + 11 + 9 + 7] ^= 1;
    assert_eq!(decode_header(&length).err(), Some(Error::Deserialize));
    let bytes = encode_header(&sample());
    assert!(bytes.len() < encode_header(&plain).len());
    let mut version = bytes.clone();
    version[15] ^= 1;
    assert_eq!(decode_header(&version).err(), Some(Error::UnsupportedFormat));
    for (at, value) in [(35usize, 1u8), (46, 2), (47 + 8, 1), (63, 3), (71, 9), (83, 1)] {
        assert_ne!(bytes[at], value);
        let mut broken = bytes.clone();
        broken[at] = value;
        assert_eq!(decode_header(&broken).err(), Some(Error::Deserialize), "byte {}", at);
    }
}

#[test]
fn a_header_is_checked() {
    assert!(sample().validate());
    let breaks: Vec<fn(&mut Header)> = vec![
        |header| header.metadata.chunker_bits = 0,
        |header| header.metadata.chunker_bits = 33,
        |header| header.objects[1].key = b"first".to_vec(),
        |header| header.chunks[1].hash = [1; 32],
        |header| header.objects[0].handle.size = 31,
        |header| header.objects[0].handle.chunks[0].size = 0,
        |header| header.chunks[0].refcount = 1,
        |header| header.chunks[1].refcount = 0,
        |header| header.chunks[0].size = 11,
        |header| header.objects[2].handle.chunks[0].hash = [9; 32],
        |header| {
            header.chunks.pop();
        },
    ];
    for (number, make) in breaks.iter().enumerate() {
        let mut header = sample();
        make(&mut header);
        assert!(!header.validate(), "break {}", number);
    }
    let mut spare = sample();
    spare.chunks[1].refcount = 5;
    assert!(spare.validate());
}

#[test]
fn the_blocks_of_the_data() {
    let mut blocks = sample().data_blocks();
    blocks.sort_by_key(|address| address.0);
    assert_eq!(blocks, vec![BlockAddress(7), BlockAddress(8), BlockAddress(9)]);
    assert_eq!(Header::new(metadata()).data_blocks(), Vec::<BlockAddress>::new());
    assert_eq!(sample().find_chunk(&[2; 32]), Some(1));
    assert_eq!(sample().find_chunk(&[3; 32]), None);
    assert_eq!(sample().find_object(b""), Some(1));
    assert_eq!(sample().find_object(b"none"), None);
    assert!(bytes_eq(b"ab", b"ab"));
    assert!(!bytes_eq(b"ab", b"abc"));
    assert!(!bytes_eq(b"ab", b"ac"));
}

#[test]
fn metadata_gives_its_info() {
    let metadata = metadata();
    let info = metadata.to_info();
    assert_eq!(info.id(), 0xfedc_ba98_7654_3210_0123_4567_89ab_cdef);
    assert_eq!(info.config().chunker_bits, 20);
    assert_eq!(*info.config(), metadata.config());
    assert_eq!(info.creation_time(), Timestamp { seconds: 5, nanoseconds: 6 });
    assert!(metadata.same(&metadata.duplicate()));
    let mut other = metadata.duplicate();
    other.salt = vec![5];
    assert!(!metadata.same(&other));
}

#[test]
fn the_memory_store_keeps_what_it_is_given() {
    let mut store = MemoryStore::new();
    assert_eq!(store.list_blocks(), Ok(vec![]));
    assert_eq!(store.read_block(5), Ok(None));
    store.write_block(5, b"five").unwrap();
    store.write_block(u128::MAX, b"").unwrap();
    store.write_block(5, b"cinq").unwrap();
    assert_eq!(store.read_block(5), Ok(Some(b"cinq".to_vec())));
    assert_eq!(store.read_block(u128::MAX), Ok(Some(Vec::new())));
    let mut ids = store.list_blocks().unwrap();
    ids.sort();
    assert_eq!(ids, vec![5, u128::MAX]);
    store.remove_block(5).unwrap();
    store.remove_block(5).unwrap();
    assert_eq!(store.read_block(5), Ok(None));
    assert_eq!(store.list_blocks(), Ok(vec![u128::MAX]));
}

#[test]
fn the_memory_store_fails_when_its_budget_is_spent() {
    let mut store = MemoryStore::new();
    store.fail_after(2);
    assert_eq!(store.write_block(1, b"a"), Ok(()));
    assert_eq!(store.remove_block(9), Ok(()));
    assert_eq!(store.write_block(2, b"b"), Err(Error::Io(5)));
    assert_eq!(store.remove_block(1), Err(Error::Io(5)));
    assert_eq!(store.read_block(1), Ok(Some(b"a".to_vec())));
    assert_eq!(store.read_block(2), Ok(None));
    store.recover();
    assert_eq!(store.write_block(2, b"b"), Ok(()));
    assert_eq!(store.read_block(2), Ok(Some(b"b".to_vec())));
}

#[test]
fn file_times_from_unix_timestamps() {
    assert_eq!(unix_file_time(0, 0), Some(FileTime { seconds: 0, nanoseconds: 0 }));
    assert_eq!(unix_file_time(5, 7), Some(FileTime { seconds: 5, nanoseconds: 7 }));
    assert_eq!(
        unix_file_time(5, 2_000_000_001),
        Some(FileTime { seconds: 7, nanoseconds: 1 })
    );
    assert_eq!(
        unix_file_time(5, -1),
        Some(FileTime { seconds: 4, nanoseconds: 999_999_999 })
    );
    assert_eq!(
        unix_file_time(-5, 1),
        Some(FileTime { seconds: -5, nanoseconds: 1 })
    );
    assert_eq!(
        unix_file_time(-5, -1_000_000_000),
        Some(FileTime { seconds: -6, nanoseconds: 0 })
    );
    assert_eq!(
        unix_file_time(0, i64::MIN),
        Some(FileTime { seconds: -9_223_372_037, nanoseconds: 145_224_192 })
    );
    assert_eq!(unix_file_time(i64::MAX, 1_000_000_000), None);
    assert_eq!(unix_file_time(i64::MIN, -1), None);
    assert_eq!(
        unix_file_time(i64::MAX, 999_999_999),
        Some(FileTime { seconds: i64::MAX, nanoseconds: 999_999_999 })
    );
}

#[test]
fn access_modes_are_sets_of_three_permissions() {
    assert_eq!((ACCESS_READ, ACCESS_WRITE, ACCESS_EXECUTE), (4, 2, 1));
    assert_eq!(AccessMode::from_bits(8), None);
    assert_eq!(AccessMode::from_bits(u32::MAX), None);
    let all = AccessMode::from_bits(7).unwrap();
    let read = AccessMode::from_bits(ACCESS_READ).unwrap();
    let none = AccessMode::from_bits(0).unwrap();
    assert_eq!(all.bits(), 7);
    assert!(all.contains(read));
    assert!(!read.contains(all));
    assert!(read.contains(none));
    assert!(read.contains(read));
}

#[test]
fn no_metadata_is_read_and_written_without_a_file() {
    assert_eq!(NoMetadata::from_file("/does/not/exist"), Ok(NoMetadata));
    assert_eq!(NoMetadata.write_metadata("/does/not/exist"), Ok(()));
}

#[test]
fn keys_give_their_bytes() {
    assert_eq!(vec![1u8, 2, 3].to_bytes(), vec![1, 2, 3]);
    assert_eq!(Vec::<u8>::new().to_bytes(), Vec::<u8>::new());
    assert_eq!(0x0102u64.to_bytes(), vec![0, 0, 0, 0, 0, 0, 1, 2]);
    assert_eq!(u64::MAX.to_bytes(), vec![0xff; 8]);
}

#[test]
fn a_list_hands_out_the_paths_of_its_entries() {
    let mut list = List::new(vec![
        (String::from("home/a"), 1u64),
        (String::from("home/b"), 2u64),
    ]);
    assert_eq!(list.size_hint(), (2, Some(2)));
    assert_eq!(list.next(), Some(String::from("home/a")));
    assert_eq!(list.size_hint(), (1, Some(1)));
    assert_eq!(list.next(), Some(String::from("home/b")));
    assert_eq!(list.next(), None);
    assert_eq!(list.next(), None);
    assert_eq!(list.size_hint(), (0, Some(0)));
}

#[test]
fn a_walk_hands_out_the_paths_of_its_entries() {
    let mut walk = Walk::new(vec![
        (String::from("home"), ()),
        (String::from("home/a"), ()),
        (String::from("home/a/b"), ()),
    ]);
    assert_eq!(walk.size_hint(), (3, Some(3)));
    assert_eq!(walk.next(), Some(String::from("home")));
    assert_eq!(walk.next(), Some(String::from("home/a")));
    assert_eq!(walk.next(), Some(String::from("home/a/b")));
    assert_eq!(walk.size_hint(), (0, Some(0)));
    assert_eq!(walk.next(), None);
}

#[test]
fn an_empty_list_has_no_path() {
    let mut list: List<u64> = List::new(Vec::new());
    assert_eq!(list.size_hint(), (0, Some(0)));
    assert_eq!(list.next(), None);
}
