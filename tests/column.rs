use erased_column::{Column, ItemLayout};

fn u32_layout() -> ItemLayout {
    ItemLayout::from_size_align(4, 4).unwrap()
}

fn read_u32(bytes: &[u8]) -> u32 {
    u32::from_ne_bytes([bytes[0], bytes[1], bytes[2], bytes[3]])
}

#[test]
fn can_init_column_and_create_row() {
    let value: u32 = 2;
    let mut column = Column::new(u32_layout(), 1);
    column.push(&value.to_ne_bytes());
    let row_value = read_u32(column.get(0));
    assert_eq!(value, row_value);
}

#[test]
fn can_modify_raw() {
    let value: u32 = 2;
    let mut column = Column::new(u32_layout(), 1);
    column.push(&value.to_ne_bytes());
    let modified_value: u32 = 3;
    column.replace(0, &modified_value.to_ne_bytes());
    let row_value = read_u32(column.get_mut(0));
    assert_eq!(modified_value, row_value);
}

#[test]
fn can_remove_raw() {
    let value: u32 = 2;
    let mut column = Column::new(u32_layout(), 1);
    column.push(&value.to_ne_bytes());
    column.remove(0);
    assert_eq!(0, column.len());
}

#[test]
fn push_then_read_gives_each_value_back() {
    let layout = ItemLayout::from_size_align(3, 1).unwrap();
    let mut column = Column::new(layout, 0);
    let values: Vec<[u8; 3]> = vec![[1, 2, 3], [4, 5, 6], [7, 8, 9], [0, 0, 255]];
    for (i, v) in values.iter().enumerate() {
        column.push(v);
        assert_eq!(column.get(i), &v[..]);
    }
    for (i, v) in values.iter().enumerate() {
        assert_eq!(column.get(i), &v[..]);
    }
}

#[test]
fn length_follows_pushes_and_removes() {
    let mut column = Column::new(u32_layout(), 2);
    assert!(column.is_empty());
    for k in 0..5u32 {
        assert_eq!(column.len(), k as usize);
        column.push(&k.to_ne_bytes());
        assert_eq!(column.len(), k as usize + 1);
    }
    assert!(!column.is_empty());
    column.remove(1);
    assert_eq!(column.len(), 4);
    column.remove(3);
    assert_eq!(column.len(), 3);
}

#[test]
fn swap_remove_moves_last_into_place() {
    let mut column = Column::new(u32_layout(), 3);
    for v in [0xAu32, 0xB, 0xC] {
        column.push(&v.to_ne_bytes());
    }
    column.remove(0);
    assert_eq!(column.len(), 2);
    assert_eq!(read_u32(column.get(0)), 0xC);
    assert_eq!(read_u32(column.get(1)), 0xB);
}

#[test]
fn remove_last_only_shortens() {
    let mut column = Column::new(u32_layout(), 3);
    for v in [1u32, 2, 3] {
        column.push(&v.to_ne_bytes());
    }
    column.remove(2);
    assert_eq!(column.len(), 2);
    assert_eq!(read_u32(column.get(0)), 1);
    assert_eq!(read_u32(column.get(1)), 2);
    assert_eq!(column.capacity(), 3);
}

#[test]
fn reserve_within_room_changes_nothing() {
    let mut column = Column::new(u32_layout(), 4);
    column.push(&7u32.to_ne_bytes());
    let before = column.get_ptr().as_ptr();
    column.reserve(3);
    assert_eq!(column.capacity(), 4);
    assert_eq!(column.get_ptr().as_ptr(), before);
    assert_eq!(read_u32(column.get(0)), 7);
}

#[test]
fn reserve_grows_to_exactly_what_is_asked() {
    let mut column = Column::new(u32_layout(), 2);
    column.push(&1u32.to_ne_bytes());
    column.reserve(5);
    assert_eq!(column.capacity(), 6);
    assert_eq!(column.len(), 1);
    assert_eq!(read_u32(column.get(0)), 1);
}

#[test]
fn growth_keeps_earlier_elements() {
    let mut column = Column::new(u32_layout(), 3);
    let cap = column.capacity();
    for v in 0..cap as u32 {
        column.push(&(v * 100).to_ne_bytes());
    }
    assert_eq!(column.capacity(), cap);
    column.push(&999u32.to_ne_bytes());
    assert_eq!(column.capacity(), cap + 1);
    for v in 0..cap as u32 {
        assert_eq!(read_u32(column.get(v as usize)), v * 100);
    }
    assert_eq!(read_u32(column.get(cap)), 999);
}

#[test]
fn zero_size_layout_is_unbounded() {
    let layout = ItemLayout::from_size_align(0, 8).unwrap();
    let mut column = Column::new(layout, 0);
    assert_eq!(column.capacity(), usize::MAX);
    for _ in 0..1000 {
        column.push(&[]);
    }
    assert_eq!(column.len(), 1000);
    assert_eq!(column.capacity(), usize::MAX);
    assert!(column.get(999).is_empty());
    assert!(column.get_ptr().is_empty());
}

#[test]
fn replace_touches_one_element() {
    let mut column = Column::new(u32_layout(), 3);
    for v in [1u32, 2, 3] {
        column.push(&v.to_ne_bytes());
    }
    column.replace(1, &42u32.to_ne_bytes());
    assert_eq!(column.len(), 3);
    assert_eq!(column.capacity(), 3);
    assert_eq!(read_u32(column.get(0)), 1);
    assert_eq!(read_u32(column.get(1)), 42);
    assert_eq!(read_u32(column.get(2)), 3);
}

#[test]
fn initialize_unchecked_overwrites_a_live_slot() {
    let mut column = Column::new(u32_layout(), 2);
    column.push(&5u32.to_ne_bytes());
    column.push(&6u32.to_ne_bytes());
    column.initialize_unchecked(0, &8u32.to_ne_bytes());
    assert_eq!(read_u32(column.get(0)), 8);
    assert_eq!(read_u32(column.get(1)), 6);
}

#[test]
fn four_byte_integers_scenario() {
    let mut column = Column::new(u32_layout(), 2);
    for v in [10u32, 20, 30] {
        column.push(&v.to_ne_bytes());
    }
    assert_eq!(column.len(), 3);
    assert_eq!(column.capacity(), 3);
    assert_eq!(read_u32(column.get(0)), 10);
    assert_eq!(read_u32(column.get(1)), 20);
    assert_eq!(read_u32(column.get(2)), 30);
    column.remove(0);
    assert_eq!(column.len(), 2);
    assert_eq!(read_u32(column.get(0)), 30);
    assert_eq!(read_u32(column.get(1)), 20);
}

#[test]
fn get_mut_writes_through() {
    let mut column = Column::new(u32_layout(), 2);
    column.push(&1u32.to_ne_bytes());
    column.push(&2u32.to_ne_bytes());
    column.get_mut(1).copy_from_slice(&77u32.to_ne_bytes());
    assert_eq!(read_u32(column.get(0)), 1);
    assert_eq!(read_u32(column.get(1)), 77);
}

#[test]
fn get_ptr_lays_out_live_elements_in_order() {
    let mut column = Column::new(ItemLayout::from_size_align(2, 2).unwrap(), 4);
    column.push(&[1, 2]);
    column.push(&[3, 4]);
    assert_eq!(column.get_ptr(), &[1, 2, 3, 4][..]);
    column.get_ptr_mut()[3] = 9;
    assert_eq!(column.get(1), &[3, 9][..]);
    assert_eq!(column.get_ptr_mut().len(), 4);
}

#[test]
fn new_column_reports_its_layout_and_capacity() {
    let layout = ItemLayout::from_size_align(12, 4).unwrap();
    let column = Column::new(layout, 5);
    assert_eq!(column.layout().size(), 12);
    assert_eq!(column.layout().align(), 4);
    assert_eq!(column.capacity(), 5);
    assert_eq!(column.len(), 0);
    let empty = Column::new(layout, 0);
    assert_eq!(empty.capacity(), 0);
}

#[test]
fn layout_rejects_invalid_pairs() {
    assert!(ItemLayout::from_size_align(4, 0).is_none());
    assert!(ItemLayout::from_size_align(4, 3).is_none());
    assert!(ItemLayout::from_size_align(4, 12).is_none());
    assert!(ItemLayout::from_size_align(isize::MAX as usize, 2).is_none());
    assert!(ItemLayout::from_size_align(isize::MAX as usize - 1, 2).is_some());
    assert!(ItemLayout::from_size_align(isize::MAX as usize, 1).is_some());
    let l = ItemLayout::from_size_align(0, 1).unwrap();
    assert_eq!((l.size(), l.align()), (0, 1));
}
