use docatlas::block::{size_of, BlockError, Blocks, OpenPaths, DEFAULT_SEGMENT_SIZE};

#[test]
fn can_create_block() {
    let mut block = Blocks.new().unwrap();
    block.write_bytes(0, &[5]);
    assert_eq!(block.read_bytes(0, 1), vec![5]);
    assert_eq!(block.size(), DEFAULT_SEGMENT_SIZE);
}

#[test]
fn single_path_ownership() {
    let mut registry = OpenPaths::new();
    let file = "temp#1".to_string();

    let segment = Blocks.builder().with_size(8).open(&mut registry, file.clone(), None).unwrap();

    let err = Blocks.builder().with_size(8).open(&mut registry, file.clone(), None).unwrap_err();
    assert!(matches!(err, BlockError::PathAlreadyOpened(p) if p == file));

    let bytes = segment.close(&mut registry);
    assert!(Blocks.builder().open(&mut registry, file, Some(&bytes)).is_ok());
}

#[test]
fn reload_segment() {
    let mut registry = OpenPaths::new();
    let file = "temp#1".to_string();

    let stored = {
        let mut segment = Blocks.builder().with_size(1).open(&mut registry, file.clone(), None).unwrap();
        segment.write_bytes(0, &[15]);
        segment.close(&mut registry)
    };

    {
        let segment = Blocks.builder().with_size(1).open(&mut registry, file.clone(), Some(&stored)).unwrap();
        assert_eq!(segment.read_bytes(0, 1), vec![15]);
    }
}

#[test]
fn reserve_file() {
    let mut registry = OpenPaths::new();
    let file = "temp#1".to_string();

    let mut block = Blocks.builder().with_size(512).open(&mut registry, file, None).unwrap();
    assert_eq!(block.size(), 512);
    block.write_bytes(0, &[15]);
    block.reserve(512).unwrap();
    assert_eq!(block.size(), 1024);
    assert_eq!(block.read_bytes(0, 1), vec![15]);
    assert_eq!(block.read_bytes(1023, 1024), vec![0]);
}

#[test]
fn new_blocks_are_zeroed() {
    let block = Blocks.builder().with_size(32).create().unwrap();
    assert_eq!(block.contents(), vec![0u8; 32]);
    assert!(block.path().is_none());
}

#[test]
fn zero_size_is_refused() {
    assert!(matches!(
        Blocks.builder().with_size(0).create(),
        Err(BlockError::IoError(_))
    ));
}

#[test]
fn can_contain_compares_sizes() {
    let block = Blocks.builder().with_size(4).create().unwrap();
    assert!(block.can_contain::<u32>());
    assert!(!block.can_contain::<u64>());
}

#[test]
fn size_of_multiplies() {
    assert_eq!(size_of::<u64>(3), 24);
    assert_eq!(size_of::<u8>(5), 5);
}

#[test]
fn registry_insert_and_remove() {
    let mut registry = OpenPaths::new();
    let p = "a".to_string();
    assert!(registry.try_insert(p.clone()));
    assert!(!registry.try_insert(p.clone()));
    assert!(registry.contains(&p));
    registry.remove(&p);
    assert!(!registry.contains(&p));
}

#[test]
fn open_path_records_it_until_closed() {
    let mut registry = OpenPaths::new();
    let block = Blocks.builder().with_size(4).open(&mut registry, "x".to_string(), None).unwrap();
    assert_eq!(block.path(), Some(&"x".to_string()));
    assert!(registry.contains(&"x".to_string()));
    let bytes = block.close(&mut registry);
    assert_eq!(bytes, vec![0u8; 4]);
    assert!(!registry.contains(&"x".to_string()));
}

#[test]
fn page_bounds_are_cut_to_the_block() {
    let block = Blocks.builder().with_size(40000).create().unwrap();
    assert_eq!(block.page_bounds(0), (0, DEFAULT_SEGMENT_SIZE));
    assert_eq!(block.page_bounds(1), (DEFAULT_SEGMENT_SIZE, 40000));
    assert_eq!(block.page_bounds(5), (40000, 40000));
}
