use docatlas::block::Blocks;
use docatlas::persisted_cell::PersistedCell;

#[test]
fn test_new() {
    let block = Blocks.new().unwrap();
    let cell = PersistedCell::new(block, 32);
    assert_eq!(cell.get(), 32);
}

#[test]
fn test_swap() {
    let mut cell1 = PersistedCell::new(Blocks.new().unwrap(), 32);
    let mut cell2 = PersistedCell::new(Blocks.new().unwrap(), 64);

    cell1.swap(&mut cell2);
    assert_eq!(cell1.get(), 64);
    assert_eq!(cell2.get(), 32);
}

#[test]
fn test_replace() {
    let mut cell = PersistedCell::new(Blocks.new().unwrap(), 32);
    let replaced = cell.replace(64);
    assert_eq!(replaced, 32);
    assert_eq!(cell.get(), 64);
}

#[test]
fn test_take() {
    let mut cell = PersistedCell::new(Blocks.new().unwrap(), 32);
    let took = cell.take();
    assert_eq!(took, 32);
    assert_eq!(cell.get(), 0);
}

#[test]
fn set_and_into_inner() {
    let mut cell = PersistedCell::new(Blocks.builder().with_size(8).create().unwrap(), 1u64);
    cell.set(u64::MAX - 3);
    assert_eq!(cell.into_inner(), u64::MAX - 3);
}

#[test]
fn negative_and_char_values_round_trip() {
    let mut cell = PersistedCell::new(Blocks.builder().with_size(4).create().unwrap(), -5i32);
    assert_eq!(cell.get(), -5);
    cell.set(i32::MIN);
    assert_eq!(cell.get(), i32::MIN);
    let c = PersistedCell::new(Blocks.builder().with_size(4).create().unwrap(), '\u{1F600}');
    assert_eq!(c.get(), '\u{1F600}');
}
