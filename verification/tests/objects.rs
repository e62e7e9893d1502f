use acid_store::codec::{Compression, Encryption};
use acid_store::error::Error;
use acid_store::metadata::{RepositoryConfig, ResourceLimit, Timestamp};
use acid_store::object::{Object, SeekFrom};
use acid_store::repository::ObjectRepository;
use acid_store::store::{DataStore, MemoryStore};

fn repository(bits: u32) -> ObjectRepository<MemoryStore> {
    let config = RepositoryConfig {
        chunker_bits: bits,
        compression: Compression::Uncompressed,
        encryption: Encryption::Unencrypted,
        memory_limit: ResourceLimit::Moderate,
        operations_limit: ResourceLimit::Sensitive,
    };
    ObjectRepository::create(MemoryStore::new(), config, 1, Timestamp { seconds: 0, nanoseconds: 0 }, 1)
        .unwrap()
}

fn pattern(length: usize) -> Vec<u8> {
    let mut state: u32 = 12345;
    let mut data = Vec::with_capacity(length);
    for _ in 0..length {
        state = state.wrapping_mul(1_103_515_245).wrapping_add(12_345);
        data.push((state >> 16) as u8);
    }
    data
}

fn drain(object: &mut Object<MemoryStore>, step: usize) -> Vec<u8> {
    let mut all = Vec::new();
    loop {
        let part = object.read(step).unwrap();
        assert!(part.len() <= step);
        if part.is_empty() {
            return all;
        }
        all.extend_from_slice(&part);
    }
}

#[test]
fn a_new_object_is_empty() {
    let mut repository = repository(6);
    let mut object = repository.insert(b"empty");
    assert_eq!(object.size(), 0);
    assert!(object.current_chunk().is_none());
    assert_eq!(object.read(10).unwrap(), Vec::<u8>::new());
    object.flush().unwrap();
    assert_eq!(object.size(), 0);
    assert_eq!(object.verify(), Ok(true));
}

#[test]
fn what_is_written_is_read_in_any_step() {
    let data = pattern(5000);
    for step in [1usize, 7, 64, 5000, 100_000] {
        let mut repository = repository(6);
        let mut object = repository.insert(b"k");
        assert_eq!(object.write(&data), Ok(5000));
        object.flush().unwrap();
        assert_eq!(object.size(), 5000);
        assert_eq!(object.seek(SeekFrom::Start(0)), Ok(0));
        assert_eq!(drain(&mut object, step), data);
    }
}

#[test]
fn data_is_cut_into_many_chunks() {
    let data = pattern(20_000);
    let mut repository = repository(6);
    let mut object = repository.insert(b"k");
    object.write(&data).unwrap();
    object.flush().unwrap();
    drop(object);
    let handle = &repository.header.objects[0].handle;
    assert!(handle.chunks.len() > 10);
    assert_eq!(handle.size, 20_000);
    assert_eq!(handle.chunks.iter().map(|chunk| chunk.size as u64).sum::<u64>(), 20_000);
    assert!(handle.chunks.iter().all(|chunk| chunk.size > 0));
}

#[test]
fn a_read_stops_at_the_end_of_a_chunk() {
    let data = pattern(20_000);
    let mut repository = repository(6);
    let mut object = repository.insert(b"k");
    object.write(&data).unwrap();
    object.flush().unwrap();
    object.seek(SeekFrom::Start(0)).unwrap();
    let first = object.read(20_000).unwrap();
    let location = object.current_chunk().unwrap();
    assert_eq!(location.index, 0);
    assert_eq!(first.len(), location.chunk.size);
    assert_eq!(location.end, first.len() as u64);
    assert_eq!(&first[..], &data[..first.len()]);
    let second = object.read(3).unwrap();
    assert_eq!(second.len(), 3.min(data.len() - first.len()));
    assert_eq!(&second[..], &data[first.len()..first.len() + second.len()]);
}

#[test]
fn writes_in_pieces_are_writes_at_once() {
    let data = pattern(9000);
    let mut at_once = repository(6);
    let mut piecewise = repository(6);
    {
        let mut object = at_once.insert(b"k");
        object.write(&data).unwrap();
        object.flush().unwrap();
    }
    {
        let mut object = piecewise.insert(b"k");
        for piece in data.chunks(13) {
            assert_eq!(object.write(piece), Ok(piece.len()));
        }
        object.flush().unwrap();
    }
    assert_eq!(
        at_once.header.objects[0].handle,
        piecewise.header.objects[0].handle
    );
}

#[test]
fn seek_write_flush_replaces_the_bytes_at_the_position() {
    let data = pattern(3000);
    let patch = vec![0xEEu8; 500];
    for position in [0usize, 1, 700, 2500, 2999, 3000] {
        let mut repository = repository(5);
        let mut object = repository.insert(b"k");
        object.write(&data).unwrap();
        object.flush().unwrap();
        assert_eq!(object.seek(SeekFrom::Start(position as u64)), Ok(position as u64));
        object.write(&patch).unwrap();
        object.flush().unwrap();
        let mut expected = data[..position].to_vec();
        expected.extend_from_slice(&patch);
        if position + patch.len() < data.len() {
            expected.extend_from_slice(&data[position + patch.len()..]);
        }
        assert_eq!(object.size(), expected.len() as u64);
        object.seek(SeekFrom::Start(0)).unwrap();
        assert_eq!(drain(&mut object, 333), expected);
        assert_eq!(object.verify(), Ok(true));
    }
}

#[test]
fn a_seek_past_the_end_is_a_seek_to_the_end() {
    let mut repository = repository(8);
    let mut object = repository.insert(b"k");
    object.write(b"abc").unwrap();
    assert_eq!(object.seek(SeekFrom::Start(100)), Ok(3));
    object.write(b"def").unwrap();
    object.flush().unwrap();
    object.seek(SeekFrom::Start(0)).unwrap();
    assert_eq!(drain(&mut object, 10), b"abcdef".to_vec());
}

#[test]
fn seek_from_the_end_counts_backwards() {
    let mut repository = repository(8);
    let mut object = repository.insert(b"k");
    object.write(b"0123456789").unwrap();
    assert_eq!(object.seek(SeekFrom::End(0)), Ok(10));
    assert_eq!(object.seek(SeekFrom::End(3)), Ok(7));
    assert_eq!(object.read(10).unwrap(), b"789".to_vec());
    assert_eq!(object.seek(SeekFrom::End(10)), Ok(0));
    assert_eq!(object.seek(SeekFrom::End(11)), Err(Error::InvalidInput));
    assert_eq!(object.seek(SeekFrom::End(-1)), Err(Error::InvalidInput));
    assert_eq!(object.seek(SeekFrom::End(i64::MIN)), Err(Error::InvalidInput));
}

#[test]
fn seek_from_the_current_position() {
    let mut repository = repository(8);
    let mut object = repository.insert(b"k");
    object.write(b"0123456789").unwrap();
    assert_eq!(object.seek(SeekFrom::Start(4)), Ok(4));
    assert_eq!(object.seek(SeekFrom::Current(3)), Ok(7));
    assert_eq!(object.seek(SeekFrom::Current(-7)), Ok(0));
    assert_eq!(object.seek(SeekFrom::Current(-1)), Err(Error::InvalidInput));
    assert_eq!(object.seek(SeekFrom::Current(i64::MIN)), Err(Error::InvalidInput));
    assert_eq!(object.seek(SeekFrom::Current(i64::MAX)), Ok(10));
    assert_eq!(object.seek(SeekFrom::Current(0)), Ok(10));
    assert_eq!(object.read(1).unwrap(), Vec::<u8>::new());
}

#[test]
fn truncating_twice_is_truncating_once() {
    let data = pattern(4000);
    for length in [0u64, 1, 1999, 3999] {
        let mut repository = repository(5);
        let mut object = repository.insert(b"k");
        object.write(&data).unwrap();
        object.truncate(length).unwrap();
        assert_eq!(object.size(), length);
        object.seek(SeekFrom::Start(0)).unwrap();
        assert_eq!(drain(&mut object, 100), data[..length as usize].to_vec());
        let once_size = object.size();
        object.truncate(length).unwrap();
        assert_eq!(object.size(), once_size);
        object.seek(SeekFrom::Start(0)).unwrap();
        assert_eq!(drain(&mut object, 100), data[..length as usize].to_vec());
        assert_eq!(object.verify(), Ok(true));
    }
}

#[test]
fn truncating_to_more_than_there_is_does_nothing() {
    let mut repository = repository(8);
    let mut object = repository.insert(b"k");
    object.write(b"0123456789").unwrap();
    object.seek(SeekFrom::Start(2)).unwrap();
    object.truncate(10).unwrap();
    assert_eq!(object.size(), 10);
    assert_eq!(object.read(3).unwrap(), b"234".to_vec());
    object.truncate(u64::MAX).unwrap();
    assert_eq!(object.size(), 10);
}

#[test]
fn truncating_moves_the_position_to_the_end() {
    let mut repository = repository(8);
    let mut object = repository.insert(b"k");
    object.write(b"0123456789").unwrap();
    object.truncate(4).unwrap();
    assert_eq!(object.read(5).unwrap(), Vec::<u8>::new());
    object.write(b"xy").unwrap();
    object.flush().unwrap();
    object.seek(SeekFrom::Start(0)).unwrap();
    assert_eq!(drain(&mut object, 100), b"0123xy".to_vec());
}

#[test]
fn a_tampered_chunk_fails_verification_and_is_not_read() {
    let mut repository = repository(8);
    {
        let mut object = repository.insert(b"k");
        object.write(b"the starting bytes").unwrap();
        object.flush().unwrap();
        assert_eq!(object.verify(), Ok(true));
    }
    let block = repository.header.chunks[0].blocks[0].block_id();
    repository.store.write_block(block, b"the tampered bytes").unwrap();
    let mut object = repository.get(b"k").unwrap();
    assert_eq!(object.verify(), Ok(false));
    assert_eq!(object.read(5), Err(Error::Corrupt));
}

#[test]
fn a_missing_chunk_is_corrupt() {
    let mut repository = repository(8);
    {
        let mut object = repository.insert(b"k");
        object.write(b"some bytes").unwrap();
        object.flush().unwrap();
    }
    let block = repository.header.chunks[0].blocks[0].block_id();
    repository.store.remove_block(block).unwrap();
    let mut object = repository.get(b"k").unwrap();
    assert_eq!(object.verify(), Err(Error::Corrupt));
    assert_eq!(object.read(5), Err(Error::Corrupt));
}

#[test]
fn a_write_that_the_store_refuses_fails_and_leaves_the_object() {
    let mut repository = repository(4);
    {
        let mut object = repository.insert(b"k");
        object.write(b"kept").unwrap();
        object.flush().unwrap();
    }
    repository.store.fail_after(0);
    {
        let mut object = repository.get(b"k").unwrap();
        object.seek(SeekFrom::End(0)).unwrap();
        assert_eq!(object.write(&pattern(5000)), Err(Error::Io(5)));
        assert_eq!(object.write(b"more"), Err(Error::InvalidInput));
        assert_eq!(object.flush(), Err(Error::InvalidInput));
        assert_eq!(object.size(), 4);
    }
    repository.store.recover();
    let mut object = repository.get(b"k").unwrap();
    assert_eq!(drain(&mut object, 10), b"kept".to_vec());
}

#[test]
fn the_position_cannot_run_over() {
    let mut repository = repository(8);
    let mut object = repository.insert(b"k");
    object.position = u64::MAX - 1;
    assert_eq!(object.write(b"abc"), Err(Error::InvalidInput));
}

#[test]
fn truncating_below_the_size_leaves_size_and_position_at_the_length() {
    let mut repository = repository(8);
    let mut object = repository.insert(b"k");
    object.write(b"0123456789").unwrap();
    object.flush().unwrap();
    object.seek(SeekFrom::Start(7)).unwrap();
    object.truncate(4).unwrap();
    assert_eq!(object.size(), 4);
    assert_eq!(object.position, 4);
    object.truncate(4).unwrap();
    assert_eq!(object.size(), 4);
    assert_eq!(object.position, 4);
    object.truncate(20).unwrap();
    assert_eq!(object.size(), 4);
    assert_eq!(object.position, 4);
    object.seek(SeekFrom::Start(0)).unwrap();
    assert_eq!(drain(&mut object, 3), b"0123".to_vec());
}
