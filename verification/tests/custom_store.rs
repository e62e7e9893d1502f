use acid_store::error::Error;
use acid_store::store::{BlockId, DataStore, MemoryStore};

/// A store that counts the writes that pass through it.
struct Counting {
    inner: MemoryStore,
    writes: usize,
}

impl DataStore for Counting {
    fn write_block(&mut self, id: BlockId, data: &[u8]) -> Result<(), Error> {
        self.writes += 1;
        self.inner.write_block(id, data)
    }

    fn read_block(&self, id: BlockId) -> Result<Option<Vec<u8>>, Error> {
        self.inner.read_block(id)
    }

    fn remove_block(&mut self, id: BlockId) -> Result<(), Error> {
        self.inner.remove_block(id)
    }

    fn list_blocks(&self) -> Result<Vec<BlockId>, Error> {
        self.inner.list_blocks()
    }
}

#[test]
fn a_store_of_ones_own_takes_the_writes() {
    let mut store = Counting { inner: MemoryStore::new(), writes: 0 };
    store.write_block(3, b"abc").unwrap();
    assert_eq!(store.writes, 1);
    assert_eq!(store.read_block(3).unwrap(), Some(b"abc".to_vec()));
    assert_eq!(store.read_block(4).unwrap(), None);
}
