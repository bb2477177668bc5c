use docatlas::block::{BlockError, Blocks, OpenPaths};
use docatlas::persisted_vec::{PersistentVec, RangeBound};

fn numbers(n: i32) -> PersistentVec<i32> {
    PersistentVec::with_iter(Blocks.new().unwrap(), (0..n).collect()).unwrap()
}

#[test]
fn can_push() {
    let block = Blocks.new().unwrap();
    let mut p_vec = PersistentVec::new(block);

    p_vec.push('a').unwrap();
    assert_eq!(p_vec.len(), 1);
    assert_eq!(&p_vec.to_vec()[..], &['a']);
}

#[test]
fn can_push_file() {
    let mut registry = OpenPaths::new();
    let block = Blocks
        .builder()
        .with_size(64)
        .open(&mut registry, "temp#1".to_string(), None)
        .unwrap();
    let mut p_vec = PersistentVec::new(block);

    for (i, c) in ('a'..='z').enumerate() {
        p_vec.push(c).unwrap();
        assert_eq!(p_vec.len(), i + 1);
        assert_eq!(p_vec.get(i), Some(c));
    }
}

#[test]
fn persisted_vec_can_pop() {
    let block = Blocks.new().unwrap();
    let mut p_vec = PersistentVec::new(block);

    assert!(matches!(p_vec.pop(), None));
    p_vec.push(14).unwrap();
    assert_eq!(p_vec.pop(), Some(14));
    assert!(matches!(p_vec.pop(), None));
}

#[test]
fn as_slice() {
    let block = Blocks.new().unwrap();
    let p_vec = PersistentVec::<usize>::new(block);
    let slice = p_vec.to_vec();
    assert_eq!(slice.len(), 0);
}

#[test]
fn ref_iterate() {
    let mut p_vec = PersistentVec::<usize>::new(Blocks.new().unwrap());
    p_vec.push(1).unwrap();
    for &a in &p_vec.to_vec() {
        assert_eq!(a, 1);
    }
}

#[test]
fn iterate() {
    let mut p_vec = PersistentVec::<usize>::new(Blocks.new().unwrap());
    p_vec.push(1).unwrap();
    for a in p_vec.to_vec() {
        assert_eq!(a, 1);
    }
}

#[test]
fn remove_arbitrary() {
    let mut p_vec = numbers(5);
    assert_eq!(p_vec.len(), 5);
    let removed = p_vec.remove(1);
    assert_eq!(removed, 1);
    assert_eq!(p_vec.len(), 4);
    assert_eq!(p_vec.get(0), Some(0));
    assert_eq!(p_vec.get(1), Some(2));
    assert_eq!(p_vec.get(2), Some(3));
    assert_eq!(p_vec.get(3), Some(4));
    assert_eq!(p_vec.remove(2), 3);
    assert_eq!(p_vec.get(2), Some(4));

    assert_eq!(&p_vec.to_vec()[..], &[0, 2, 4])
}

#[test]
fn can_retain() {
    let mut p_vec = numbers(5);
    p_vec.retain(|v| v % 2 == 0);
    assert_eq!(&p_vec.to_vec()[..], &[0, 2, 4])
}

#[test]
fn drain_inclusive() {
    let mut p_vec = numbers(5);
    let drained = p_vec.drain(RangeBound::Included(1), RangeBound::Included(3));
    assert_eq!(&drained[..], &[1, 2, 3]);
    assert_eq!(&p_vec.to_vec()[..], &[0, 4]);
}

#[test]
fn drain_exclusive() {
    let mut p_vec = numbers(5);
    let drained = p_vec.drain(RangeBound::Included(1), RangeBound::Excluded(3));
    assert_eq!(&drained[..], &[1, 2]);
}

#[test]
fn drain_full() {
    let mut p_vec = numbers(5);
    let drained = p_vec.drain(RangeBound::Unbounded, RangeBound::Unbounded);
    assert_eq!(&drained[..], &[0, 1, 2, 3, 4]);
    assert_eq!(p_vec.len(), 0);
}

#[test]
fn vector_is_persisted() {
    let mut registry = OpenPaths::new();
    let file = "temp#1".to_string();

    let stored = {
        let block = Blocks
            .builder()
            .with_size(512)
            .open(&mut registry, file.clone(), None)
            .unwrap();
        let p_vec = PersistentVec::<char>::with_iter(block, ('a'..='z').collect()).unwrap();
        assert_eq!(p_vec.len(), 26);
        assert_eq!(p_vec.get(25), Some('z'));
        p_vec.into_block().close(&mut registry)
    };

    assert!(stored.len() > 0);

    {
        let block = Blocks
            .builder()
            .with_size(512)
            .open(&mut registry, file.clone(), Some(&stored))
            .unwrap();
        let p_vec = PersistentVec::<char>::new(block);
        assert_eq!(p_vec.len(), 26);
        assert_eq!(p_vec.get(25), Some('z'));
    }
}

#[test]
fn split() {
    let block = Blocks.new().unwrap();
    let vec: PersistentVec<i32> = PersistentVec::with_iter(block, (0..1000).collect()).unwrap();
    let split = vec.split(100);
    assert_eq!(split.len(), 10);

    for (index, split) in split.to_vec().into_iter().enumerate() {
        assert_eq!(index as i32 * 100, split[0]);
    }
}

#[test]
fn split_mut() {
    let block = Blocks.new().unwrap();
    let vec: PersistentVec<i32> = PersistentVec::with_iter(block, (0..100).collect()).unwrap();
    let mut split = vec.split_mut(50);
    assert_eq!(split.len(), 2);

    assert!(split.write(0).is_some());
    assert!(split.set(0, 5, 10));
    assert!(split.write(1).is_some());
    assert!(split.set(1, 10, 15));

    let vec = split.into_inner();
    assert_eq!(vec.get(5), Some(10));
    assert_eq!(vec.get(60), Some(15));
}

#[test]
fn split_protects_data() {
    let block = Blocks.new().unwrap();
    let vec: PersistentVec<i32> = PersistentVec::with_iter(block, (0..100).collect()).unwrap();
    let mut split = vec.split_mut(50);
    assert_eq!(split.len(), 2);

    {
        let _lower_mut = split.write(0).unwrap();
        assert!(split.write(0).is_none());
        assert!(split.read(0).is_none());
        split.release_write(0);
    }
    {
        let _lower = split.read(0).unwrap();
        assert!(split.write(0).is_none());
        assert!(split.read(0).is_some());
    }
}

#[test]
fn pushes_then_pops_come_back_last_first() {
    let mut p_vec = PersistentVec::<u64>::new(Blocks.new().unwrap());
    for v in [1u64, 2, 3] {
        p_vec.push(v).unwrap();
    }
    assert_eq!(p_vec.pop(), Some(3));
    assert_eq!(p_vec.pop(), Some(2));
    assert_eq!(p_vec.pop(), Some(1));
    assert_eq!(p_vec.len(), 0);
    assert_eq!(p_vec.pop(), None);
}

#[test]
fn growth_keeps_every_element() {
    let block = Blocks.builder().with_size(16).create().unwrap();
    let mut p_vec = PersistentVec::<u64>::new(block);
    let start_capacity = p_vec.capacity();
    assert_eq!(start_capacity, 1);
    for i in 0..200u64 {
        p_vec.push(i * 7 + 1).unwrap();
    }
    assert!(p_vec.capacity() >= 200);
    assert_eq!(p_vec.len(), 200);
    for i in 0..200usize {
        assert_eq!(p_vec.get(i), Some(i as u64 * 7 + 1));
    }
}

#[test]
fn growth_of_default_block_twice() {
    let mut p_vec = PersistentVec::<u64>::in_memory().unwrap();
    let first = p_vec.capacity();
    assert_eq!(first, (32896 - 8) / 8);
    for i in 0..(3 * first as u64) {
        p_vec.push(i).unwrap();
    }
    for i in 0..3 * first {
        assert_eq!(p_vec.get(i), Some(i as u64));
    }
}

#[test]
fn growth_doubles_element_bytes() {
    let block = Blocks.builder().with_size(16).create().unwrap();
    let mut p_vec = PersistentVec::<u64>::new(block);
    p_vec.push(1).unwrap();
    p_vec.push(2).unwrap();
    // 16 bytes hold one value; growth adds the 8 bytes of elements again plus room for one more.
    assert_eq!(p_vec.into_block().size(), 32);
}

#[test]
fn push_with_room_keeps_the_block_size() {
    let block = Blocks.builder().with_size(64).create().unwrap();
    let mut p_vec = PersistentVec::<char>::new(block);
    for c in 'a'..='n' {
        p_vec.push(c).unwrap();
    }
    assert_eq!(p_vec.block().size(), 64);
    p_vec.push('o').unwrap();
    assert_eq!(p_vec.block().size(), 2 * 64 - 8 + 4);
    assert_eq!(p_vec.pop(), Some('o'));
    assert_eq!(p_vec.block().size(), 2 * 64 - 8 + 4);
}

#[test]
fn retain_asks_from_the_back() {
    let seen = std::cell::RefCell::new(Vec::new());
    let mut p_vec = numbers(4);
    p_vec.retain(|v| {
        seen.borrow_mut().push(*v);
        *v != 2
    });
    assert_eq!(*seen.borrow(), vec![3, 2, 1, 0]);
    assert_eq!(&p_vec.to_vec()[..], &[0, 1, 3]);
}

#[test]
fn get_out_of_range_is_none() {
    let p_vec = numbers(3);
    assert_eq!(p_vec.get(3), None);
    assert_eq!(p_vec.get(usize::MAX), None);
}

#[test]
fn set_overwrites_one_element() {
    let mut p_vec = numbers(4);
    p_vec.set(2, 40);
    assert_eq!(&p_vec.to_vec()[..], &[0, 1, 40, 3]);
}

#[test]
fn clear_empties() {
    let mut p_vec = numbers(4);
    p_vec.clear();
    assert_eq!(p_vec.len(), 0);
    assert_eq!(p_vec.to_vec(), Vec::<i32>::new());
}

#[test]
fn reserve_keeps_elements_and_adds_room() {
    let mut p_vec = numbers(4);
    let before = p_vec.capacity();
    p_vec.reserve(10).unwrap();
    assert_eq!(p_vec.capacity(), before + 10);
    assert_eq!(&p_vec.to_vec()[..], &[0, 1, 2, 3]);
}

#[test]
fn extend_appends_in_order() {
    let mut p_vec = numbers(2);
    p_vec.extend(vec![7, 8, 9]).unwrap();
    assert_eq!(&p_vec.to_vec()[..], &[0, 1, 7, 8, 9]);
}

#[test]
fn can_hold_checks_the_header() {
    let block = Blocks.builder().with_size(16).create().unwrap();
    assert!(PersistentVec::<u64>::can_hold(&block));
    let small = Blocks.builder().with_size(4).create().unwrap();
    assert!(!PersistentVec::<u64>::can_hold(&small));
}

#[test]
fn missing_size_is_reported() {
    assert!(matches!(
        Blocks.builder().create(),
        Err(BlockError::MissingSize { is_anon: true })
    ));
    let mut registry = OpenPaths::new();
    assert!(matches!(
        Blocks.builder().open(&mut registry, "p".to_string(), None),
        Err(BlockError::MissingSize { is_anon: false })
    ));
    assert!(!registry.contains(&"p".to_string()));
}
