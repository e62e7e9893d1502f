use acid_store::block::{BlockAddress, MAX_BLOCKS};
use acid_store::codec::{Compression, Encryption};
use acid_store::error::Error;
use acid_store::metadata::{RepositoryConfig, ResourceLimit, Timestamp};
use acid_store::object::SeekFrom;
use acid_store::repository::{ObjectRepository, OpenOption, OpenPlan};
use acid_store::store::{DataStore, MemoryStore};

const ID: u128 = 0x0011_2233_4455_6677_8899_aabb_ccdd_eeff;
const CREATED: Timestamp = Timestamp { seconds: 1_600_000_000, nanoseconds: 999_999_999 };

fn config(bits: u32, compression: Compression) -> RepositoryConfig {
    RepositoryConfig {
        chunker_bits: bits,
        compression,
        encryption: Encryption::Unencrypted,
        memory_limit: ResourceLimit::Interactive,
        operations_limit: ResourceLimit::Moderate,
    }
}

fn fresh() -> ObjectRepository<MemoryStore> {
    ObjectRepository::create(MemoryStore::new(), config(6, Compression::Uncompressed), ID, CREATED, 1)
        .unwrap()
}

fn put(repository: &mut ObjectRepository<MemoryStore>, key: &[u8], data: &[u8]) {
    let mut object = repository.insert(key);
    object.write(data).unwrap();
    object.flush().unwrap();
}

fn get(repository: &mut ObjectRepository<MemoryStore>, key: &[u8]) -> Vec<u8> {
    let mut object = repository.get(key).unwrap();
    let mut all = Vec::new();
    loop {
        let part = object.read(1000).unwrap();
        if part.is_empty() {
            return all;
        }
        all.extend_from_slice(&part);
    }
}

fn bytes(length: usize, seed: u8) -> Vec<u8> {
    let mut state: u32 = 0x9e37_79b9 ^ seed as u32;
    (0..length)
        .map(|_| {
            state = state.wrapping_mul(1_664_525).wrapping_add(1_013_904_223);
            (state >> 24) as u8
        })
        .collect()
}

#[test]
fn a_new_repository_tells_what_it_was_created_with() {
    let repository = fresh();
    let info = repository.info();
    assert_eq!(info.id(), ID);
    assert_eq!(*info.config(), config(6, Compression::Uncompressed));
    assert_eq!(info.creation_time(), CREATED);
    assert_eq!(repository.len(), 0);
    assert_eq!(repository.transaction, 0);
    assert!(repository.clean);
}

#[test]
fn the_number_of_boundary_bits_is_checked() {
    for bits in [0u32, 33, u32::MAX] {
        let result = ObjectRepository::create(
            MemoryStore::new(),
            config(bits, Compression::Uncompressed),
            ID,
            CREATED,
            1,
        );
        assert_eq!(result.err(), Some(Error::InvalidInput));
    }
    for bits in [1u32, 32] {
        let result = ObjectRepository::create(
            MemoryStore::new(),
            config(bits, Compression::Uncompressed),
            ID,
            CREATED,
            1,
        );
        assert!(result.is_ok());
    }
}

#[test]
fn keys_are_listed_and_found() {
    let mut repository = fresh();
    assert!(!repository.contains(b"a"));
    assert!(repository.get(b"a").is_none());
    put(&mut repository, b"a", b"1");
    put(&mut repository, b"", b"2");
    put(&mut repository, b"ab", b"3");
    assert!(repository.contains(b"a"));
    assert!(repository.contains(b""));
    assert!(repository.contains(b"ab"));
    assert!(!repository.contains(b"b"));
    let mut keys = repository.keys();
    assert_eq!(keys.size_hint(), (3, Some(3)));
    let mut listed = Vec::new();
    while let Some(key) = keys.next() {
        listed.push(key);
    }
    assert_eq!(keys.size_hint(), (0, Some(0)));
    assert_eq!(keys.next(), None);
    listed.sort();
    assert_eq!(listed, vec![b"".to_vec(), b"a".to_vec(), b"ab".to_vec()]);
    assert_eq!(get(&mut repository, b""), b"2".to_vec());
}

#[test]
fn inserting_again_replaces_the_object() {
    let mut repository = fresh();
    put(&mut repository, b"k", &bytes(3000, 1));
    put(&mut repository, b"other", &bytes(100, 2));
    let known = repository.header.chunks.len();
    assert!(known > 1);
    {
        let object = repository.insert(b"k");
        assert_eq!(object.size(), 0);
    }
    assert_eq!(repository.len(), 2);
    assert!(repository.header.chunks.len() < known);
    assert_eq!(get(&mut repository, b"k"), Vec::<u8>::new());
    assert_eq!(get(&mut repository, b"other"), bytes(100, 2));
}

#[test]
fn removing_gives_up_the_chunks() {
    let mut repository = fresh();
    put(&mut repository, b"k", &bytes(3000, 1));
    put(&mut repository, b"twin", &bytes(3000, 1));
    let known = repository.header.chunks.len();
    assert!(repository.header.chunks.iter().all(|chunk| chunk.refcount == 2));
    assert!(repository.remove(b"k"));
    assert!(!repository.remove(b"k"));
    assert!(!repository.contains(b"k"));
    assert_eq!(repository.header.chunks.len(), known);
    assert!(repository.header.chunks.iter().all(|chunk| chunk.refcount == 1));
    assert_eq!(get(&mut repository, b"twin"), bytes(3000, 1));
    assert!(repository.remove(b"twin"));
    assert_eq!(repository.header.chunks.len(), 0);
    assert_eq!(repository.len(), 0);
}

#[test]
fn storing_the_same_again_takes_no_room() {
    let mut repository = fresh();
    let data = bytes(10_000, 9);
    put(&mut repository, b"a", &data);
    let blocks = repository.store.list_blocks().unwrap().len();
    let next = repository.next_block;
    let stored: u64 = repository.header.chunks.iter().map(|chunk| chunk.stored_size).sum();
    put(&mut repository, b"b", &data);
    assert_eq!(repository.store.list_blocks().unwrap().len(), blocks);
    assert_eq!(repository.next_block, next);
    assert_eq!(
        repository.header.chunks.iter().map(|chunk| chunk.stored_size).sum::<u64>(),
        stored
    );
    assert_eq!(stored, 10_000);
    assert_eq!(repository.header.objects[0].handle.chunks, repository.header.objects[1].handle.chunks);
}

#[test]
fn rollback_gives_back_the_committed_state() {
    let mut repository = fresh();
    put(&mut repository, b"k", b"committed");
    repository.commit().unwrap();
    let committed_next = repository.next_block;
    put(&mut repository, b"k", &bytes(5000, 3));
    put(&mut repository, b"new", b"x");
    assert!(repository.next_block > committed_next);
    assert!(!repository.clean);
    assert_eq!(repository.rollback(), Ok(()));
    assert!(repository.clean);
    assert_eq!(repository.next_block, committed_next);
    assert!(!repository.contains(b"new"));
    assert_eq!(get(&mut repository, b"k"), b"committed".to_vec());
    put(&mut repository, b"k", b"again");
    repository.commit().unwrap();
    let mut reopened = ObjectRepository::open(repository.store, 101).unwrap();
    assert_eq!(get(&mut reopened, b"k"), b"again".to_vec());
}

#[test]
fn a_savepoint_is_valid_until_the_transaction_ends() {
    let mut repository = fresh();
    let before = repository.savepoint();
    assert!(before.is_valid(&repository));
    put(&mut repository, b"k", b"A");
    assert!(before.is_valid(&repository));
    repository.remove(b"k");
    assert!(before.is_valid(&repository));
    let transaction = repository.transaction;
    repository.rollback().unwrap();
    assert_eq!(repository.transaction, transaction + 1);
    assert!(!before.is_valid(&repository));
    put(&mut repository, b"k", b"B");
    assert!(!repository.restore(&before));
    assert_eq!(get(&mut repository, b"k"), b"B".to_vec());
    let after = repository.savepoint();
    repository.commit().unwrap();
    assert_eq!(repository.transaction, transaction + 2);
    assert!(!after.is_valid(&repository));
    assert!(!repository.restore(&after));
}

#[test]
fn a_savepoint_of_another_repository_is_not_restored() {
    let mut one = fresh();
    let mut other = ObjectRepository::create(
        MemoryStore::new(),
        config(6, Compression::Uncompressed),
        ID + 1,
        CREATED,
        2,
    )
    .unwrap();
    put(&mut other, b"k", b"other");
    let savepoint = other.savepoint();
    assert!(!savepoint.is_valid(&one));
    assert!(!one.restore(&savepoint));
    assert!(!one.contains(b"k"));
}

#[test]
fn a_restored_savepoint_can_be_written_on() {
    let mut repository = fresh();
    put(&mut repository, b"k", &bytes(2000, 1));
    let savepoint = repository.savepoint();
    put(&mut repository, b"k", &bytes(2000, 2));
    assert!(repository.restore(&savepoint));
    {
        let mut object = repository.get(b"k").unwrap();
        object.seek(SeekFrom::End(0)).unwrap();
        object.write(b"tail").unwrap();
        object.flush().unwrap();
    }
    let mut expected = bytes(2000, 1);
    expected.extend_from_slice(b"tail");
    assert_eq!(get(&mut repository, b"k"), expected);
    assert!(repository.restore(&savepoint));
    assert_eq!(get(&mut repository, b"k"), bytes(2000, 1));
}

#[test]
fn cleaning_keeps_what_is_published_and_removes_the_rest() {
    let mut repository = fresh();
    put(&mut repository, b"a", &bytes(9000, 1));
    put(&mut repository, b"b", &bytes(9000, 2));
    repository.commit().unwrap();
    repository.remove(b"a");
    repository.commit().unwrap();
    let before = repository.store.list_blocks().unwrap().len();
    repository.clean().unwrap();
    let after = repository.store.list_blocks().unwrap();
    assert!(after.len() < before);
    let mut live: Vec<u128> = vec![0];
    live.extend(repository.address.header_blocks().iter().map(BlockAddress::block_id));
    live.extend(repository.header.data_blocks().iter().map(BlockAddress::block_id));
    live.sort();
    let mut listed = after.clone();
    listed.sort();
    assert_eq!(listed, live);
    assert_eq!(get(&mut repository, b"b"), bytes(9000, 2));
    let mut reopened = ObjectRepository::open(repository.store, 102).unwrap();
    assert_eq!(get(&mut reopened, b"b"), bytes(9000, 2));
    assert!(!reopened.contains(b"a"));
    assert_eq!(reopened.get(b"b").unwrap().verify(), Ok(true));
}

#[test]
fn only_a_clean_repository_is_cleaned() {
    let mut repository = fresh();
    put(&mut repository, b"a", b"pending");
    let blocks = repository.store.list_blocks().unwrap().len();
    assert_eq!(repository.clean(), Err(Error::InvalidInput));
    assert_eq!(repository.store.list_blocks().unwrap().len(), blocks);
    assert_eq!(get(&mut repository, b"a"), b"pending".to_vec());
}

#[test]
fn an_empty_store_holds_no_repository() {
    assert_eq!(ObjectRepository::open(MemoryStore::new(), 103).err(), Some(Error::NotFound));
}

#[test]
fn a_superblock_that_leads_nowhere_is_corrupt() {
    for pointer in [vec![0u8; 8], vec![0, 0, 0, 0, 0, 0, 0, 9], vec![1u8; 7], vec![0xff; 8]] {
        let mut store = fresh().store;
        store.write_block(0, &pointer).unwrap();
        assert_eq!(ObjectRepository::open(store, 104).err(), Some(Error::Corrupt));
    }
    let mut store = fresh().store;
    store.write_block(0, &[0, 0, 0, 0, 0, 0, 0x10, 8]).unwrap();
    assert_eq!(ObjectRepository::open(store, 105).err(), Some(Error::Corrupt));
}

#[test]
fn another_format_version_is_not_opened() {
    let mut store = fresh().store;
    let mut block = store.read_block(1).unwrap().unwrap();
    block[8] ^= 0x01;
    store.write_block(1, &block).unwrap();
    assert_eq!(ObjectRepository::open(store, 106).err(), Some(Error::UnsupportedFormat));
}

#[test]
fn a_header_that_does_not_parse_is_refused() {
    let mut store = fresh().store;
    let mut block = store.read_block(1).unwrap().unwrap();
    assert_eq!(block.len(), 8 + 11 * 8 + 8 + 8 + 8 + 8 + 8);
    block[8 + 11 * 8 + 16 + 8] = 0xff;
    store.write_block(1, &block).unwrap();
    assert_eq!(ObjectRepository::open(store, 107).err(), Some(Error::Deserialize));
}

#[test]
fn a_header_that_breaks_its_invariant_is_corrupt() {
    let mut repository = fresh();
    put(&mut repository, b"k", b"data");
    repository.header.chunks[0].refcount = 0;
    repository.commit().unwrap();
    assert_eq!(ObjectRepository::open(repository.store, 108).err(), Some(Error::Corrupt));
}

#[test]
fn a_full_archive_takes_no_header() {
    let mut repository = fresh();
    repository.next_block = MAX_BLOCKS;
    assert_eq!(repository.commit(), Err(Error::Serialize));
    assert_eq!(repository.transaction, 0);
}

#[test]
fn a_store_that_fails_fails_the_commit_and_keeps_what_was_published() {
    let mut repository = fresh();
    put(&mut repository, b"k", b"published");
    repository.commit().unwrap();
    put(&mut repository, b"k", b"pending");
    for budget in [0u64, 1] {
        repository.store.fail_after(budget);
        assert_eq!(repository.commit(), Err(Error::Io(5)));
        assert_eq!(repository.transaction, 1);
    }
    assert_eq!(get(&mut repository, b"k"), b"pending".to_vec());
    let mut store = repository.store;
    store.recover();
    let mut reopened = ObjectRepository::open(store, 109).unwrap();
    assert_eq!(get(&mut reopened, b"k"), b"published".to_vec());
}

#[test]
fn opening_goes_by_the_options() {
    let open = OpenOption { create: false, create_new: false, truncate: false };
    let create = OpenOption { create: true, create_new: false, truncate: false };
    let create_new = OpenOption { create: false, create_new: true, truncate: false };
    let truncate = OpenOption { create: true, create_new: false, truncate: true };
    assert_eq!(open.plan(true), Ok(OpenPlan::Open));
    assert_eq!(open.plan(false), Err(Error::NotFound));
    assert_eq!(create.plan(true), Ok(OpenPlan::Open));
    assert_eq!(create.plan(false), Ok(OpenPlan::Create));
    assert_eq!(create_new.plan(true), Err(Error::AlreadyExists));
    assert_eq!(create_new.plan(false), Ok(OpenPlan::Create));
    assert_eq!(truncate.plan(true), Ok(OpenPlan::Truncate));
    assert_eq!(truncate.plan(false), Ok(OpenPlan::Truncate));
    let only_truncate = OpenOption { create: false, create_new: false, truncate: true };
    assert_eq!(only_truncate.plan(true), Ok(OpenPlan::Truncate));
    assert_eq!(only_truncate.plan(false), Err(Error::NotFound));
    let new_and_empty = OpenOption { create: false, create_new: true, truncate: true };
    assert_eq!(new_and_empty.plan(true), Err(Error::AlreadyExists));
    assert_eq!(new_and_empty.plan(false), Ok(OpenPlan::Truncate));

    let plain = config(6, Compression::Uncompressed);
    let missing = ObjectRepository::open_with(MemoryStore::new(), open, plain, ID, CREATED, 2);
    assert_eq!(missing.err(), Some(Error::NotFound));
    let mut repository =
        ObjectRepository::open_with(MemoryStore::new(), create, plain, ID, CREATED, 2).unwrap();
    put(&mut repository, b"k", b"v");
    repository.commit().unwrap();
    let store = repository.store;
    let mut repository = ObjectRepository::open_with(store, create, plain, 7, CREATED, 2).unwrap();
    assert_eq!(repository.info().id(), ID);
    assert_eq!(get(&mut repository, b"k"), b"v".to_vec());
    let store = repository.store;
    let blocks = store.list_blocks().unwrap().len();
    let mut store_for_new = MemoryStore::new();
    for id in store.list_blocks().unwrap() {
        store_for_new.write_block(id, &store.read_block(id).unwrap().unwrap()).unwrap();
    }
    let refused = ObjectRepository::open_with(store_for_new, create_new, plain, 7, CREATED, 2);
    assert_eq!(refused.err(), Some(Error::AlreadyExists));
    let emptied = ObjectRepository::open_with(store, truncate, plain, 7, CREATED, 2).unwrap();
    assert_eq!(emptied.info().id(), 7);
    assert_eq!(emptied.len(), 0);
    assert!(emptied.store.list_blocks().unwrap().len() < blocks);
    assert_eq!(emptied.store.list_blocks().unwrap().len(), 2);
}

#[test]
fn compressed_chunks_take_less_room_and_come_back() {
    let data = vec![0x55u8; 200_000];
    let mut plain = fresh();
    put(&mut plain, b"k", &data);
    let mut packed = ObjectRepository::create(
        MemoryStore::new(),
        config(6, Compression::Deflate { level: 6 }),
        ID,
        CREATED,
        1,
    )
    .unwrap();
    put(&mut packed, b"k", &data);
    put(&mut packed, b"short", b"x");
    let stored = |repository: &ObjectRepository<MemoryStore>| {
        repository.header.chunks.iter().map(|chunk| chunk.stored_size).sum::<u64>()
    };
    assert!(stored(&packed) < stored(&plain));
    packed.commit().unwrap();
    let mut reopened = ObjectRepository::open(packed.store, 110).unwrap();
    assert_eq!(reopened.info().config().compression, Compression::Deflate { level: 6 });
    assert_eq!(get(&mut reopened, b"k"), data);
    assert_eq!(get(&mut reopened, b"short"), b"x".to_vec());
    assert_eq!(reopened.get(b"k").unwrap().verify(), Ok(true));
}

fn copy_of(store: &MemoryStore) -> MemoryStore {
    let mut copy = MemoryStore::new();
    for id in store.list_blocks().unwrap() {
        copy.write_block(id, &store.read_block(id).unwrap().unwrap()).unwrap();
    }
    copy
}

#[test]
fn a_savepoint_is_not_valid_in_a_repository_opened_anew() {
    let mut repository = fresh();
    put(&mut repository, b"k", b"value");
    repository.commit().unwrap();
    let savepoint = repository.savepoint();
    assert!(savepoint.is_valid(&repository));
    let mut reopened = ObjectRepository::open(copy_of(&repository.store), 111).unwrap();
    let again = ObjectRepository::open(copy_of(&repository.store), 112).unwrap();
    assert_ne!(reopened.instance, again.instance);
    assert_ne!(reopened.instance, repository.instance);
    assert!(!savepoint.is_valid(&reopened));
    assert!(!reopened.restore(&savepoint));
    assert_eq!(get(&mut reopened, b"k"), b"value".to_vec());
    let first = reopened.savepoint();
    assert!(!first.is_valid(&again));
    assert!(first.is_valid(&reopened));
}

#[test]
fn a_store_with_a_version_of_its_own_is_opened_by_the_version() {
    let open = OpenOption { create: false, create_new: false, truncate: false };
    let create = OpenOption { create: true, create_new: false, truncate: false };
    let create_new = OpenOption { create: false, create_new: true, truncate: false };
    let current = acid_store::encoding::FORMAT_VERSION;
    assert_eq!(open.plan_version(Some(current)), Ok(OpenPlan::Open));
    assert_eq!(create.plan_version(Some(current)), Ok(OpenPlan::Open));
    assert_eq!(create_new.plan_version(Some(current)), Err(Error::AlreadyExists));
    assert_eq!(open.plan_version(None), Err(Error::UnsupportedFormat));
    assert_eq!(create.plan_version(None), Ok(OpenPlan::Create));
    assert_eq!(create_new.plan_version(None), Ok(OpenPlan::Create));
    assert_eq!(open.plan_version(Some(current + 1)), Err(Error::UnsupportedFormat));
    assert_eq!(create.plan_version(Some(0)), Err(Error::UnsupportedFormat));
    assert_eq!(create_new.plan_version(Some(7)), Err(Error::UnsupportedFormat));
}
