use docatlas::persisted_raw_array::PersistedRawArray;
use docatlas::block::Blocks;
use docatlas::persist::{decode_u64, encode_u64, PData, Persist};
use docatlas::persisted_vec::PersistentVec;

#[test]
fn create_pdata_in_buffer() {
    let mut buffer = vec![0u8; 16];
    let pdata: PData<i32> = PData::write(&mut buffer, vec![4, -5]);

    assert_eq!(pdata.len(), 2);
    assert_eq!(pdata.to_vec(), vec![4, -5]);
    assert_eq!(PData::<i32>::read(&buffer).to_vec(), vec![4, -5]);
}

#[test]
fn persistent_vec_pdata() {
    let block = Blocks.new().unwrap();
    let mut p_vec: PersistentVec<u8> = PersistentVec::new(block);
    p_vec.extend(vec![0; 32]).unwrap();

    let mut split = p_vec.split_mut(16);
    assert_eq!(split.len(), 2);

    for (chunk, value) in [(0usize, 32i32), (1, 128)] {
        let mut bytes = split.write(chunk).unwrap();
        let written = PData::<i32>::write_singleton(&mut bytes, value);
        assert_eq!(written.to_vec(), vec![value]);
        for (offset, byte) in bytes.iter().enumerate() {
            assert!(split.set(chunk, offset, *byte));
        }
        split.release_write(chunk);
    }

    let p_vec = split.into_inner();
    let bytes = p_vec.to_vec();
    assert_eq!(PData::<i32>::read(&bytes[0..16]).to_vec(), vec![32]);
    assert_eq!(PData::<i32>::read(&bytes[16..32]).to_vec(), vec![128]);
}

#[test]
fn create_raw_array() {}

#[test]
fn words_are_little_endian() {
    assert_eq!(encode_u64(0x0102030405060708), vec![8, 7, 6, 5, 4, 3, 2, 1]);
    assert_eq!(decode_u64(&[8, 7, 6, 5, 4, 3, 2, 1]), 0x0102030405060708);
    assert_eq!(0x01020304u32.encode(), vec![4, 3, 2, 1]);
    assert_eq!(<char as Persist>::decode(&[0x00, 0xD8, 0, 0]), '\0');
    assert_eq!(<char as Persist>::decode(&[0x41, 0, 0, 0]), 'A');
}

#[test]
fn pdata_size_counts_header() {
    let mut buffer = vec![0u8; 32];
    let pdata: PData<u64> = PData::write(&mut buffer, vec![1, 2]);
    assert_eq!(pdata.size_of(), 24);
    assert_eq!(&buffer[24..], &[0u8; 8]);
}

#[test]
fn raw_array_grows_by_whole_values() {
    let mut array = PersistedRawArray::<u32>::new(Blocks.builder().with_size(8).create().unwrap());
    assert_eq!(array.capacity(), 8);
    array.reserve(3).unwrap();
    assert_eq!(array.capacity(), 20);
}
