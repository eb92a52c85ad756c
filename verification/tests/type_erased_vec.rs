use packed_ecs::data_structures::type_erased_vec::round_up_to_power_of_two;
use packed_ecs::data_structures::type_erased_vec::ElementLayout;
use packed_ecs::data_structures::type_erased_vec::TypeErasedVec;

#[test]
fn new_buffer_records_the_layout_and_holds_nothing() {
    let buffer = TypeErasedVec::new::<u32>();
    assert_eq!(buffer.len(), 0);
    assert!(buffer.is_empty());
    assert_eq!(buffer.capacity(), 0);
    assert_eq!(buffer.layout(), ElementLayout { size: 4, align: 4 });
    assert!(buffer.as_slice().is_empty());
}

#[test]
fn layout_of_a_type() {
    assert_eq!(ElementLayout::of::<u8>(), ElementLayout { size: 1, align: 1 });
    assert_eq!(ElementLayout::of::<u64>().size, 8);
    assert_eq!(ElementLayout::of::<()>().size, 0);
    assert_eq!(ElementLayout::of::<[u16; 3]>(), ElementLayout { size: 6, align: 2 });
}

#[test]
fn powers_of_two() {
    assert_eq!(round_up_to_power_of_two(0), 1);
    assert_eq!(round_up_to_power_of_two(1), 1);
    assert_eq!(round_up_to_power_of_two(2), 2);
    assert_eq!(round_up_to_power_of_two(3), 4);
    assert_eq!(round_up_to_power_of_two(4), 4);
    assert_eq!(round_up_to_power_of_two(5), 8);
    assert_eq!(round_up_to_power_of_two(1000), 1024);
    assert_eq!(round_up_to_power_of_two(1025), 2048);
    for n in 0..300usize {
        assert_eq!(round_up_to_power_of_two(n), n.next_power_of_two());
    }
}

#[test]
fn reserve_rounds_the_capacity_up() {
    let mut buffer = TypeErasedVec::with_layout(ElementLayout { size: 3, align: 1 });
    buffer.reserve(5);
    assert_eq!(buffer.capacity(), 8);
    assert_eq!(buffer.len(), 0);
    buffer.reserve(8);
    assert_eq!(buffer.capacity(), 8);
    buffer.reserve(9);
    assert_eq!(buffer.capacity(), 16);
    buffer.reserve(0);
    assert_eq!(buffer.capacity(), 16);
}

#[test]
fn reserve_of_nothing_on_an_empty_buffer() {
    let mut buffer = TypeErasedVec::new::<u16>();
    buffer.reserve(0);
    assert_eq!(buffer.capacity(), 0);
}

#[test]
fn push_and_get_records() {
    let mut buffer = TypeErasedVec::new::<u32>();
    for v in [1u32, 0x0102_0304, u32::MAX] {
        buffer.push(&v.to_le_bytes());
    }
    assert_eq!(buffer.len(), 3);
    assert!(!buffer.is_empty());
    assert_eq!(buffer.capacity(), 4);
    assert_eq!(buffer.get(0), &1u32.to_le_bytes());
    assert_eq!(buffer.get(1), &[4u8, 3, 2, 1]);
    assert_eq!(buffer.get(2), &[255u8; 4]);
    assert_eq!(buffer.as_slice().len(), 12);
    assert_eq!(buffer.iter(), buffer.as_slice().to_vec());
}

#[test]
fn capacity_doubles_as_records_arrive() {
    let mut buffer = TypeErasedVec::new::<u8>();
    let mut seen = Vec::new();
    for v in 0..9u8 {
        buffer.push(&[v]);
        seen.push(buffer.capacity());
    }
    assert_eq!(seen, vec![1, 2, 4, 4, 8, 8, 8, 8, 16]);
    assert_eq!(buffer.as_slice(), &[0u8, 1, 2, 3, 4, 5, 6, 7, 8]);
}

#[test]
fn emplace_appends_a_zeroed_record() {
    let mut buffer = TypeErasedVec::new::<u16>();
    buffer.push(&[7, 7]);
    buffer.push(&[9, 9]);
    buffer.remove_swap_with_last(1);
    // the slot that is taken again does not show what was there
    assert_eq!(buffer.emplace(), 1);
    assert_eq!(buffer.get(1), &[0u8, 0]);
    assert_eq!(buffer.get(0), &[7u8, 7]);
    assert_eq!(buffer.len(), 2);
}

#[test]
fn write_replaces_one_record() {
    let mut buffer = TypeErasedVec::new::<u16>();
    buffer.push(&[1, 2]);
    buffer.push(&[3, 4]);
    buffer.push(&[5, 6]);
    buffer.write(1, &[8, 9]);
    assert_eq!(buffer.as_slice(), &[1u8, 2, 8, 9, 5, 6]);
}

#[test]
fn remove_swap_with_last_moves_the_last_record() {
    let mut buffer = TypeErasedVec::new::<u16>();
    buffer.push(&[1, 2]);
    buffer.push(&[3, 4]);
    buffer.push(&[5, 6]);
    buffer.remove_swap_with_last(0);
    assert_eq!(buffer.len(), 2);
    assert_eq!(buffer.get(0), &[5u8, 6]);
    assert_eq!(buffer.get(1), &[3u8, 4]);
    buffer.remove_swap_with_last(1);
    assert_eq!(buffer.as_slice(), &[5u8, 6]);
    buffer.remove_swap_with_last(0);
    assert!(buffer.is_empty());
    assert_eq!(buffer.capacity(), 4);
}

#[test]
fn clear_keeps_the_capacity() {
    let mut buffer = TypeErasedVec::new::<u32>();
    for v in 0..5u32 {
        buffer.push(&v.to_le_bytes());
    }
    let capacity = buffer.capacity();
    buffer.clear();
    assert_eq!(buffer.len(), 0);
    assert_eq!(buffer.capacity(), capacity);
    assert!(buffer.as_slice().is_empty());
    buffer.push(&9u32.to_le_bytes());
    assert_eq!(buffer.get(0), &9u32.to_le_bytes());
}

#[test]
fn records_of_size_zero() {
    let mut buffer = TypeErasedVec::new::<()>();
    buffer.push(&[]);
    buffer.push(&[]);
    assert_eq!(buffer.len(), 2);
    assert_eq!(buffer.get(1), &[0u8; 0]);
    assert!(buffer.as_slice().is_empty());
    buffer.remove_swap_with_last(0);
    assert_eq!(buffer.len(), 1);
}

#[test]
fn can_hold_tells_what_fits() {
    let buffer = TypeErasedVec::new::<u64>();
    assert!(buffer.can_hold(0));
    assert!(buffer.can_hold(1));
    assert!(buffer.can_hold(1 << 20));
    // the capacity would be a power of two beyond usize
    assert!(!buffer.can_hold(usize::MAX));
    assert!(!buffer.can_hold(usize::MAX / 2 + 2));
    // the capacity fits, its size in bytes does not
    assert!(!buffer.can_hold(usize::MAX / 8 + 1));
    assert!(buffer.can_hold(usize::MAX / 16));
    let unit = TypeErasedVec::new::<()>();
    assert!(unit.can_hold(usize::MAX / 2));
    assert!(!unit.can_hold(usize::MAX));
}
