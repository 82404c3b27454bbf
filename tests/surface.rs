use kioku::{Arena, ArenaError};

#[test]
fn alloc_01() {
    let mut arena = Arena::new();
    let a = arena.alloc_value(b'A').unwrap();
    assert_eq!(vec![b'A'], arena.read(&a).unwrap());
}

#[test]
fn alloc_array_01() {
    let mut arena = Arena::new();
    let a = arena.alloc_array(b'A', 3).unwrap();
    let b = arena.alloc_array(b'A', 0).unwrap();
    assert_eq!(vec![b'A', b'A', b'A'], arena.read(&a).unwrap());
    assert_eq!(Vec::<u8>::new(), arena.read(&b).unwrap());
}

#[test]
fn copy_slice_01() {
    let mut arena = Arena::new();
    let a = arena.copy_slice(&[b'A', b'B', b'C']).unwrap();
    let b = arena.copy_slice(&[]).unwrap();
    assert_eq!(vec![b'A', b'B', b'C'], arena.read(&a).unwrap());
    assert_eq!(Vec::<u8>::new(), arena.read(&b).unwrap());
}

#[test]
fn copy_str_01() {
    let mut arena = Arena::new();
    let a = arena.copy_str("Hello there! こんにちは！").unwrap();
    let b = arena.copy_str("").unwrap();
    assert_eq!("Hello there! こんにちは！", String::from_utf8(arena.read(&a).unwrap()).unwrap());
    assert_eq!("", String::from_utf8(arena.read(&b).unwrap()).unwrap());
}

#[test]
fn alloc_align_01() {
    let mut arena = Arena::new();
    let a = arena.alloc_align(b'A', 64).unwrap();
    let b = arena.alloc_align(b'B', 64).unwrap();
    assert_eq!(vec![b'A'], arena.read(&a).unwrap());
    assert_eq!(vec![b'B'], arena.read(&b).unwrap());
    assert_eq!(0, a.address() % 64);
    assert_eq!(0, b.address() % 64);
}

#[test]
fn alloc_array_align_01() {
    let mut arena = Arena::new();
    let a = arena.alloc_array_align(b'A', 3, 64).unwrap();
    let b = arena.alloc_array_align(b'B', 3, 64).unwrap();
    let c = arena.alloc_array_align(b'C', 0, 64).unwrap();
    assert_eq!(vec![b'A', b'A', b'A'], arena.read(&a).unwrap());
    assert_eq!(vec![b'B', b'B', b'B'], arena.read(&b).unwrap());
    assert_eq!(Vec::<u8>::new(), arena.read(&c).unwrap());
    assert_eq!(0, a.address() % 64);
    assert_eq!(0, b.address() % 64);
}

#[test]
fn copy_slice_align_01() {
    let mut arena = Arena::new();
    let a = arena.copy_slice_align(&[b'A', b'B', b'C'], 64).unwrap();
    let b = arena.copy_slice_align(&[b'D', b'E', b'F'], 64).unwrap();
    let c = arena.copy_slice_align(&[], 64).unwrap();
    assert_eq!(vec![b'A', b'B', b'C'], arena.read(&a).unwrap());
    assert_eq!(vec![b'D', b'E', b'F'], arena.read(&b).unwrap());
    assert_eq!(Vec::<u8>::new(), arena.read(&c).unwrap());
    assert_eq!(0, a.address() % 64);
    assert_eq!(0, b.address() % 64);
}

#[test]
fn alloc_uninit_01() {
    let mut arena = Arena::new();
    let _a = arena.alloc_uninit::<char>().unwrap();
    let _b = arena.alloc_uninit::<char>().unwrap();
}

#[test]
fn alloc_array_uninit_01() {
    let mut arena = Arena::new();
    let a = arena.alloc_array_uninit::<char>(3).unwrap();
    let b = arena.alloc_array_uninit::<char>(0).unwrap();
    assert_eq!(3, a.len());
    assert_eq!(0, b.len());
}

#[test]
fn alloc_align_uninit_01() {
    let mut arena = Arena::new();
    let a = arena.alloc_align_uninit::<char>(64).unwrap();
    let b = arena.alloc_align_uninit::<char>(64).unwrap();
    assert_eq!(0, a.address() % 64);
    assert_eq!(0, b.address() % 64);
}

#[test]
fn alloc_array_align_uninit_01() {
    let mut arena = Arena::new();
    let a = arena.alloc_array_align_uninit::<char>(3, 64).unwrap();
    let b = arena.alloc_array_align_uninit::<char>(3, 64).unwrap();
    let c = arena.alloc_array_align_uninit::<char>(0, 64).unwrap();
    assert_eq!(3, a.len());
    assert_eq!(3, b.len());
    assert_eq!(0, c.len());
    assert_eq!(0, a.address() % 64);
    assert_eq!(0, b.address() % 64);
}

#[test]
fn lots_of_allocs_01() {
    // To force multiple blocks.
    let mut arena = Arena::new().with_block_size(64);

    for _ in 0..512 {
        let a = arena.alloc_value(b'A').unwrap();
        assert_eq!(vec![b'A'], arena.read(&a).unwrap());
    }
}

#[test]
fn big_alloc_01() {
    // To make sure larger-than-block-size allocations succeed.
    let mut arena = Arena::new().with_block_size(64);
    let a = arena.alloc_value(b'A').unwrap();
    let b = arena.alloc_value(b'B').unwrap();
    let c = arena.alloc_array(b'C', 8 * 32).unwrap();
    let d = arena.alloc_value(b'D').unwrap();
    let e = arena.alloc_value(b'E').unwrap();

    assert_eq!(vec![b'A'], arena.read(&a).unwrap());
    assert_eq!(vec![b'B'], arena.read(&b).unwrap());
    assert_eq!(vec![b'C'; 8 * 32], arena.read(&c).unwrap());
    assert_eq!(vec![b'D'], arena.read(&d).unwrap());
    assert_eq!(vec![b'E'], arena.read(&e).unwrap());
}

#[test]
fn alloc_align_malformed_01() {
    assert_eq!(Err(ArenaError::InvalidAlignment), Arena::new().alloc_align(b'A', 6));
}

#[test]
fn alloc_align_malformed_02() {
    assert_eq!(Err(ArenaError::InvalidAlignment), Arena::new().alloc_align(b'A', 0));
}

#[test]
fn zero_sized_types_07() {
    assert_eq!(Err(ArenaError::UnsupportedType), Arena::new().alloc_uninit::<()>());
}

#[test]
fn zero_sized_types_08() {
    assert_eq!(Err(ArenaError::UnsupportedType), Arena::new().alloc_array_uninit::<()>(0));
}

#[test]
fn zero_sized_types_09() {
    assert_eq!(Err(ArenaError::UnsupportedType), Arena::new().alloc_align_uninit::<()>(4));
}

#[test]
fn zero_sized_types_10() {
    assert_eq!(Err(ArenaError::UnsupportedType), Arena::new().alloc_array_align_uninit::<()>(0, 4));
}
