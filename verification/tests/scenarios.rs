use acid_store::codec::{Compression, Encryption};
use acid_store::error::Error;
use acid_store::metadata::{RepositoryConfig, ResourceLimit, Timestamp};
use acid_store::object::{Object, SeekFrom};
use acid_store::repository::ObjectRepository;
use acid_store::store::{DataStore, MemoryStore};

fn config(bits: u32) -> RepositoryConfig {
    RepositoryConfig {
        chunker_bits: bits,
        compression: Compression::Uncompressed,
        encryption: Encryption::Unencrypted,
        memory_limit: ResourceLimit::Interactive,
        operations_limit: ResourceLimit::Interactive,
    }
}

fn fresh(bits: u32) -> ObjectRepository<MemoryStore> {
    ObjectRepository::create(
        MemoryStore::new(),
        config(bits),
        0x1234_5678_9abc_def0_0fed_cba9_8765_4321,
        Timestamp { seconds: 1_577_836_800, nanoseconds: 5 },
        1,
    )
    .unwrap()
}

fn read_all(object: &mut Object<MemoryStore>) -> Vec<u8> {
    let mut all = Vec::new();
    loop {
        let part = object.read(4096).unwrap();
        if part.is_empty() {
            return all;
        }
        all.extend_from_slice(&part);
    }
}

fn contents(repository: &mut ObjectRepository<MemoryStore>, key: &[u8]) -> Vec<u8> {
    let mut object = repository.get(key).unwrap();
    read_all(&mut object)
}

fn put(repository: &mut ObjectRepository<MemoryStore>, key: &[u8], data: &[u8]) {
    let mut object = repository.insert(key);
    assert_eq!(object.write(data).unwrap(), data.len());
    object.flush().unwrap();
}

#[test]
fn basic_round_trip() {
    let mut repository = fresh(8);
    let data = vec![0xABu8; 10_000];
    put(&mut repository, b"a", &data);
    repository.commit().unwrap();
    let mut reopened = ObjectRepository::open(repository.store, 101).unwrap();
    assert!(reopened.contains(b"a"));
    let mut object = reopened.get(b"a").unwrap();
    assert_eq!(object.size(), 10_000);
    assert_eq!(read_all(&mut object), data);
}

#[test]
fn overwrite_in_the_middle() {
    let mut repository = fresh(8);
    let mut object = repository.insert(b"k");
    object.write(b"HelloWorld").unwrap();
    object.flush().unwrap();
    assert_eq!(object.seek(SeekFrom::Start(5)).unwrap(), 5);
    object.write(b"XXXXX").unwrap();
    object.flush().unwrap();
    assert_eq!(object.size(), 10);
    assert_eq!(object.seek(SeekFrom::Start(0)).unwrap(), 0);
    assert_eq!(read_all(&mut object), b"HelloXXXXX".to_vec());
}

#[test]
fn truncate_cuts_the_object() {
    let mut repository = fresh(8);
    let mut object = repository.insert(b"k");
    object.write(b"0123456789").unwrap();
    object.truncate(4).unwrap();
    assert_eq!(object.size(), 4);
    object.seek(SeekFrom::Start(0)).unwrap();
    assert_eq!(read_all(&mut object), b"0123".to_vec());
}

#[test]
fn savepoints_undo_and_redo() {
    let mut repository = fresh(8);
    put(&mut repository, b"k", b"A");
    let first = repository.savepoint();
    {
        let mut object = repository.get(b"k").unwrap();
        object.seek(SeekFrom::Start(0)).unwrap();
        object.write(b"B").unwrap();
        object.flush().unwrap();
    }
    let second = repository.savepoint();
    assert!(repository.restore(&first));
    assert_eq!(contents(&mut repository, b"k"), b"A".to_vec());
    assert!(repository.restore(&second));
    assert_eq!(contents(&mut repository, b"k"), b"B".to_vec());
    repository.commit().unwrap();
    assert!(!first.is_valid(&repository));
    assert!(!second.is_valid(&repository));
    assert!(!repository.restore(&first));
    assert_eq!(contents(&mut repository, b"k"), b"B".to_vec());
}

#[test]
fn crash_before_the_superblock_is_written() {
    let mut repository = fresh(8);
    put(&mut repository, b"old", b"kept");
    repository.commit().unwrap();
    repository.clean().unwrap();
    let committed_blocks = repository.store.list_blocks().unwrap().len();
    put(&mut repository, b"new", &vec![7u8; 20_000]);
    let header_blocks = 1;
    repository.store.fail_after(header_blocks);
    assert_eq!(repository.commit(), Err(Error::Io(5)));
    let mut store = repository.store;
    store.recover();
    assert!(store.list_blocks().unwrap().len() > committed_blocks);
    let mut reopened = ObjectRepository::open(store, 102).unwrap();
    assert!(reopened.contains(b"old"));
    assert!(!reopened.contains(b"new"));
    assert_eq!(contents(&mut reopened, b"old"), b"kept".to_vec());
    reopened.clean().unwrap();
    assert_eq!(reopened.store.list_blocks().unwrap().len(), committed_blocks);
    assert_eq!(contents(&mut reopened, b"old"), b"kept".to_vec());
}

#[test]
fn same_content_is_stored_once() {
    let data = vec![0u8; 1 << 20];
    let mut one = fresh(12);
    put(&mut one, b"a", &data);
    one.commit().unwrap();
    one.clean().unwrap();
    let mut two = fresh(12);
    put(&mut two, b"a", &data);
    put(&mut two, b"b", &data);
    two.commit().unwrap();
    two.clean().unwrap();
    let data_blocks = |repository: &ObjectRepository<MemoryStore>| {
        repository.store.list_blocks().unwrap().len()
            - 1
            - repository.address.header_blocks().len()
    };
    assert_eq!(data_blocks(&one), data_blocks(&two));
    assert_eq!(one.header.data_blocks().len(), two.header.data_blocks().len());
    assert_eq!(contents(&mut two, b"a"), data);
    assert_eq!(contents(&mut two, b"b"), data);
}
