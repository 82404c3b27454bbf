use kioku::{alignment_offset, min_alignment, repeat_layout, Arena, ArenaError, GrowthStrategy, Layout, Span};

fn overlaps(a: &Span, b: &Span) -> bool {
    a.size() > 0
        && b.size() > 0
        && a.address() < b.address() + b.size()
        && b.address() < a.address() + a.size()
}

#[test]
fn single_bytes_fill_consecutive_blocks() {
    let mut arena = Arena::new().with_block_size(64);
    let mut spans = Vec::new();
    for i in 0..512usize {
        let s = arena.alloc_value((i % 251) as u8).unwrap();
        assert_eq!(i, s.address());
        assert_eq!(i / 64, s.block());
        spans.push(s);
    }
    assert_eq!((512, 512, 8), arena.stats());
    for (i, s) in spans.iter().enumerate() {
        assert_eq!(i, s.address());
        assert_eq!(vec![(i % 251) as u8], arena.read(s).unwrap());
    }
}

#[test]
fn oversized_request_gets_standalone_block() {
    let mut arena = Arena::new().with_block_size(64);
    let a = arena.alloc_uninit::<u32>().unwrap();
    let b = arena.alloc_uninit::<u32>().unwrap();
    assert_eq!((0, 0, 0), (a.block(), a.offset(), a.address()));
    assert_eq!((0, 4, 4), (b.block(), b.offset(), b.address()));

    let c = arena.alloc_array_uninit::<u64>(32).unwrap();
    assert_eq!(256, c.size());
    assert_eq!(32, c.len());
    assert_eq!((1, 0, 64), (c.block(), c.offset(), c.address()));
    assert_eq!((64 + 263, 264, 2), arena.stats());

    // The standalone block is frozen: the next small item goes to the head.
    let d = arena.alloc_uninit::<u32>().unwrap();
    assert_ne!(c.block(), d.block());
    assert_eq!((0, 8), (d.block(), d.offset()));

    // Once the head is full, a new shared block is made; the standalone one
    // is never used again.
    arena.alloc_array_uninit::<u8>(52).unwrap();
    let e = arena.alloc_uninit::<u32>().unwrap();
    assert_eq!((2, 1, 328), (e.block(), e.offset(), e.address()));
    assert_eq!((327 + 64, 264 + 4 + 52 + 4, 3), arena.stats());
}

#[test]
fn requested_alignment_is_kept() {
    let mut arena = Arena::new();
    for _ in 0..40 {
        let s = arena.alloc_align_uninit::<u32>(64).unwrap();
        assert_eq!(0, s.address() % 64);
        assert_eq!(4, s.size());
    }
    assert_eq!(Err(ArenaError::InvalidAlignment), arena.alloc_align_uninit::<u32>(6));
    assert_eq!(Err(ArenaError::InvalidAlignment), arena.alloc_align_uninit::<u32>(0));
}

#[test]
fn every_alignment_is_kept() {
    let mut arena = Arena::new().with_block_size(100);
    let mut align = 1usize;
    for i in 0..40usize {
        let s = arena.alloc_array_align(7, 3 + i % 5, align).unwrap();
        assert_eq!(0, s.address() % align);
        align = if align >= 256 { 1 } else { align * 2 };
    }
}

#[test]
fn clear_empties_the_arena() {
    let mut arena = Arena::new().with_block_size(64);
    let a = arena.alloc_array(1, 100).unwrap();
    arena.alloc_value(2).unwrap();
    arena.clear();
    assert_eq!((0, 0, 0), arena.stats());
    assert_eq!(None, arena.read(&a));
    assert!(!arena.write(&a, &[0u8; 100]));

    let b = arena.alloc_value(3).unwrap();
    assert_eq!((0, 0, 0), (b.block(), b.offset(), b.address()));
    assert_eq!((64, 1, 1), arena.stats());
}

#[test]
fn zero_sized_types_are_refused_for_every_count() {
    let mut arena = Arena::new();
    assert_eq!(Err(ArenaError::UnsupportedType), arena.alloc_array_uninit::<()>(5));
    assert_eq!(Err(ArenaError::UnsupportedType), arena.alloc_array_align_uninit::<()>(7, 64));
    assert_eq!(Err(ArenaError::UnsupportedType), arena.alloc_align_uninit::<()>(6));
    assert_eq!((0, 0, 0), arena.stats());
}

#[test]
fn empty_array_grants_nothing() {
    let mut arena = Arena::new();
    let a = arena.alloc_array_uninit::<u64>(0).unwrap();
    assert_eq!((0, 0), (a.size(), a.len()));
    assert_eq!((1024, 0, 1), arena.stats());

    arena.alloc_uninit::<u16>().unwrap();
    let b = arena.alloc_array_align_uninit::<u32>(0, 16).unwrap();
    assert_eq!((0, 0), (b.size(), b.len()));
    assert_eq!((1024, 2, 1), arena.stats());
    assert_eq!(Vec::<u8>::new(), arena.read(&b).unwrap());
}

#[test]
fn spans_never_overlap() {
    let mut arena = Arena::new().with_block_size(48);
    let mut spans = Vec::new();
    for i in 0..60usize {
        let s = match i % 4 {
            0 => arena.alloc_array(1, i).unwrap(),
            1 => arena.alloc_align_uninit::<u64>(32).unwrap(),
            2 => arena.alloc_array_uninit::<u16>(i % 7).unwrap(),
            _ => arena.copy_slice(&[9u8; 70]).unwrap(),
        };
        spans.push(s);
    }
    for (j, a) in spans.iter().enumerate() {
        for b in spans.iter().skip(j + 1) {
            assert!(!overlaps(a, b));
        }
    }
}

#[test]
fn occupied_covers_allocated() {
    let mut arena = Arena::new().with_block_size(32).with_max_waste_percentage(5);
    for i in 0..50usize {
        arena.alloc_array_align(0, (i * 7) % 45, 1 << (i % 6)).unwrap();
        let (occupied, allocated, _) = arena.stats();
        assert!(occupied >= allocated);
    }
}

#[test]
fn fresh_memory_reads_as_zeros() {
    let mut arena = Arena::new();
    let a = arena.alloc_array_uninit::<u32>(4).unwrap();
    assert_eq!(vec![0u8; 16], arena.read(&a).unwrap());
}

#[test]
fn percentage_growth_doubles() {
    let mut arena = Arena::new()
        .with_block_size(16)
        .with_growth_strategy(GrowthStrategy::Percentage(100))
        .with_max_waste_percentage(100);
    arena.alloc_array(0, 16).unwrap();
    assert_eq!(16, arena.stats().0);
    arena.alloc_array(0, 15).unwrap();
    assert_eq!(32, arena.stats().0);
    arena.alloc_array(0, 30).unwrap();
    assert_eq!(64, arena.stats().0);
    arena.alloc_array(0, 60).unwrap();
    assert_eq!((128, 121, 4), arena.stats());
}

#[test]
fn percentage_growth_rounds_down_to_block_size() {
    let mut arena = Arena::new()
        .with_block_size(8)
        .with_growth_strategy(GrowthStrategy::Percentage(75))
        .with_max_waste_percentage(100);
    arena.alloc_array(0, 8).unwrap();
    assert_eq!(8, arena.stats().0);
    arena.alloc_array(0, 7).unwrap();
    assert_eq!(16, arena.stats().0);
    arena.alloc_array(0, 7).unwrap();
    assert_eq!(24, arena.stats().0);
    // 24 * 75 / 100 = 18, rounded down to 16.
    arena.alloc_array(0, 7).unwrap();
    assert_eq!(40, arena.stats().0);
}

#[test]
fn waste_bound_makes_standalone_block() {
    let mut arena = Arena::new().with_block_size(100).with_max_waste_percentage(10);
    arena.alloc_array(0, 50).unwrap();
    let b = arena.alloc_array(0, 60).unwrap();
    assert_eq!((1, 0, 100), (b.block(), b.offset(), b.address()));
    assert_eq!((160, 110, 2), arena.stats());
    let c = arena.alloc_array(0, 10).unwrap();
    assert_eq!((0, 50), (c.block(), c.offset()));
}

#[test]
fn waste_is_the_smaller_of_head_and_arena() {
    let mut arena = Arena::new().with_block_size(100).with_max_waste_percentage(10);
    arena.alloc_array(0, 50).unwrap();
    let b = arena.copy_slice_align(&[5u8; 60], 64).unwrap();
    assert_eq!((1, 28, 128), (b.block(), b.offset(), b.address()));
    assert_eq!((223, 110, 2), arena.stats());
    arena.alloc_array(0, 48).unwrap();
    // Head waste is 2 percent, arena waste 29 percent: a shared block.
    let d = arena.alloc_array(0, 10).unwrap();
    assert_eq!((2, 0, 223), (d.block(), d.offset(), d.address()));
    let e = arena.alloc_value(0).unwrap();
    assert_eq!((2, 10), (e.block(), e.offset()));
    assert_eq!((323, 169, 3), arena.stats());
}

#[test]
fn overflow_is_refused_and_changes_nothing() {
    let mut arena = Arena::new();
    assert_eq!(Err(ArenaError::Overflow), arena.alloc_array_uninit::<u64>(usize::MAX));
    let huge = Layout::from_size_align(usize::MAX, 1).unwrap();
    assert_eq!(Err(ArenaError::Overflow), arena.alloc_raw(&huge));
    assert_eq!((0, 0, 0), arena.stats());
}

#[test]
fn alloc_raw_places_by_layout() {
    let mut arena = Arena::new();
    let a = arena.alloc_raw(&Layout::from_size_align(3, 1).unwrap()).unwrap();
    let b = arena.alloc_raw(&Layout::from_size_align(8, 8).unwrap()).unwrap();
    assert_eq!((0, 3), (a.address(), a.size()));
    assert_eq!((8, 8, 8), (b.address(), b.size(), b.len()));
    assert_eq!((1024, 11, 1), arena.stats());
}

#[test]
fn write_then_read() {
    let mut arena = Arena::new();
    let a = arena.alloc_array_uninit::<u8>(3).unwrap();
    assert!(arena.write(&a, &[1, 2, 3]));
    assert_eq!(vec![1, 2, 3], arena.read(&a).unwrap());
    assert!(!arena.write(&a, &[1, 2]));
    assert_eq!(vec![1, 2, 3], arena.read(&a).unwrap());
}

#[test]
fn alignment_offset_values() {
    assert_eq!(3, alignment_offset(5, 4));
    assert_eq!(0, alignment_offset(8, 4));
    assert_eq!(0, alignment_offset(0, 64));
    assert_eq!(63, alignment_offset(65, 64));
    assert_eq!(1, alignment_offset(1023, 1024));
}

#[test]
fn repeat_layout_values() {
    let l = repeat_layout(&Layout::from_size_align(6, 4).unwrap(), 3).unwrap();
    assert_eq!((24, 4), (l.size(), l.align()));
    let l = repeat_layout(&Layout::from_size_align(5, 8).unwrap(), 0).unwrap();
    assert_eq!((0, 8), (l.size(), l.align()));
    let wide = Layout::from_size_align(usize::MAX, 2).unwrap();
    assert_eq!(Err(ArenaError::Overflow), repeat_layout(&wide, 0).map(|l| l.size()));
    let big = Layout::from_size_align(8, 8).unwrap();
    assert_eq!(Err(ArenaError::Overflow), repeat_layout(&big, usize::MAX).map(|l| l.size()));
}

#[test]
fn min_alignment_values() {
    let l = min_alignment(&Layout::from_size_align(4, 4).unwrap(), 64).unwrap();
    assert_eq!((4, 64), (l.size(), l.align()));
    let l = min_alignment(&Layout::from_size_align(8, 8).unwrap(), 2).unwrap();
    assert_eq!((8, 8), (l.size(), l.align()));
    let r = min_alignment(&Layout::from_size_align(8, 8).unwrap(), 6);
    assert_eq!(Err(ArenaError::InvalidAlignment), r.map(|l| l.size()));
}

#[test]
fn layout_values() {
    let l = Layout::new::<u64>();
    assert_eq!((8, std::mem::align_of::<u64>()), (l.size(), l.align()));
    assert_eq!(Err(ArenaError::InvalidAlignment), Layout::from_size_align(4, 3).map(|l| l.size()));
    assert_eq!(Err(ArenaError::InvalidAlignment), Layout::from_size_align(4, 0).map(|l| l.size()));
}

#[test]
fn default_growth_is_constant() {
    assert_eq!(GrowthStrategy::Constant, GrowthStrategy::default());
}
