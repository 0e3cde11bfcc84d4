use memscan::bytes::{load_le, store_le};
use memscan::candidates::CandidateSet;
use memscan::value::{FuzzyCondition, FuzzySearchResultItem, ValueType};

fn i32_item(address: u64, value: i32) -> FuzzySearchResultItem {
    FuzzySearchResultItem::from_bytes(address, &value.to_le_bytes(), ValueType::I32)
}

#[test]
fn sizes_and_signs() {
    assert_eq!(ValueType::I8.size(), 1);
    assert_eq!(ValueType::U8.size(), 1);
    assert_eq!(ValueType::I16.size(), 2);
    assert_eq!(ValueType::U16.size(), 2);
    assert_eq!(ValueType::I32.size(), 4);
    assert_eq!(ValueType::U32.size(), 4);
    assert_eq!(ValueType::I64.size(), 8);
    assert_eq!(ValueType::U64.size(), 8);
    assert!(ValueType::I64.is_signed());
    assert!(!ValueType::U64.is_signed());
}

#[test]
fn tags_round_trip() {
    let all = [
        ValueType::I8,
        ValueType::I16,
        ValueType::I32,
        ValueType::I64,
        ValueType::U8,
        ValueType::U16,
        ValueType::U32,
        ValueType::U64,
    ];
    for (expected, value_type) in all.iter().enumerate() {
        assert_eq!(value_type.tag(), expected as u8);
        assert_eq!(ValueType::of_tag(value_type.tag()), *value_type);
    }
    assert_eq!(ValueType::of_tag(200), ValueType::U64);
}

#[test]
fn little_endian_store_and_load() {
    let mut storage = vec![0xEEu8; 8];
    store_le(&mut storage, 2, 0x0A0B_0C0D, 4);
    assert_eq!(storage, vec![0xEE, 0xEE, 0x0D, 0x0C, 0x0B, 0x0A, 0xEE, 0xEE]);
    assert_eq!(load_le(&storage, 2, 4), 0x0A0B_0C0D);
    assert_eq!(load_le(&storage, 2, 2), 0x0C0D);
    assert_eq!(load_le(&storage, 0, 0), 0);
    store_le(&mut storage, 0, 0x1122_3344_5566_7788, 8);
    assert_eq!(load_le(&storage, 0, 8), 0x1122_3344_5566_7788);
    store_le(&mut storage, 7, 0x1FF, 1);
    assert_eq!(storage[7], 0xFF);
}

#[test]
fn decoding_is_little_endian_and_signed_where_asked() {
    assert_eq!(FuzzySearchResultItem::from_bytes(8, &[0xFF], ValueType::I8).value, -1);
    assert_eq!(FuzzySearchResultItem::from_bytes(8, &[0xFF], ValueType::U8).value, 255);
    assert_eq!(FuzzySearchResultItem::from_bytes(8, &[0x80], ValueType::I8).value, -128);
    assert_eq!(FuzzySearchResultItem::from_bytes(8, &[0x7F], ValueType::I8).value, 127);
    assert_eq!(FuzzySearchResultItem::from_bytes(8, &[0x34, 0x12], ValueType::U16).value, 0x1234);
    assert_eq!(FuzzySearchResultItem::from_bytes(8, &[0x00, 0x80], ValueType::I16).value, -32768);
    assert_eq!(
        FuzzySearchResultItem::from_bytes(8, &[0x78, 0x56, 0x34, 0x12], ValueType::I32).value,
        0x1234_5678
    );
    assert_eq!(
        FuzzySearchResultItem::from_bytes(8, &[0xFE, 0xFF, 0xFF, 0xFF], ValueType::I32).value,
        -2
    );
    assert_eq!(
        FuzzySearchResultItem::from_bytes(8, &[0xFE, 0xFF, 0xFF, 0xFF], ValueType::U32).value,
        0xFFFF_FFFE
    );
    assert_eq!(FuzzySearchResultItem::from_bytes(8, &[0xFF; 8], ValueType::I64).value, -1);
    assert_eq!(
        FuzzySearchResultItem::from_bytes(8, &[0xFF; 8], ValueType::U64).value,
        u64::MAX as i128
    );
    assert_eq!(
        FuzzySearchResultItem::from_bytes(8, &i64::MIN.to_le_bytes(), ValueType::I64).value,
        i64::MIN as i128
    );
    let item = FuzzySearchResultItem::from_bytes(0x1000, &[1, 0, 0, 0], ValueType::I32);
    assert_eq!(item.address, 0x1000);
    assert_eq!(item.value_type, ValueType::I32);
    assert_eq!(item.value, 1);
}

#[test]
fn conditions_compare_recorded_and_current_value() {
    let item = i32_item(0x10, 10);
    let ten = 10i32.to_le_bytes();
    let twelve = 12i32.to_le_bytes();
    let seven = 7i32.to_le_bytes();
    let minus = (-3i32).to_le_bytes();
    assert!(item.matches_condition(&ten, FuzzyCondition::Unchanged));
    assert!(!item.matches_condition(&twelve, FuzzyCondition::Unchanged));
    assert!(item.matches_condition(&twelve, FuzzyCondition::Changed));
    assert!(!item.matches_condition(&ten, FuzzyCondition::Changed));
    assert!(item.matches_condition(&twelve, FuzzyCondition::Increased));
    assert!(!item.matches_condition(&ten, FuzzyCondition::Increased));
    assert!(!item.matches_condition(&seven, FuzzyCondition::Increased));
    assert!(item.matches_condition(&seven, FuzzyCondition::Decreased));
    assert!(item.matches_condition(&minus, FuzzyCondition::Decreased));
    assert!(!item.matches_condition(&ten, FuzzyCondition::Decreased));
    assert!(item.matches_condition(&twelve, FuzzyCondition::IncreasedBy(2)));
    assert!(!item.matches_condition(&twelve, FuzzyCondition::IncreasedBy(3)));
    assert!(item.matches_condition(&seven, FuzzyCondition::DecreasedBy(3)));
    assert!(item.matches_condition(&minus, FuzzyCondition::DecreasedBy(13)));
    assert!(!item.matches_condition(&seven, FuzzyCondition::DecreasedBy(2)));
    assert!(item.matches_condition(&twelve, FuzzyCondition::GreaterThan(11)));
    assert!(!item.matches_condition(&twelve, FuzzyCondition::GreaterThan(12)));
    assert!(item.matches_condition(&seven, FuzzyCondition::LessThan(8)));
    assert!(!item.matches_condition(&seven, FuzzyCondition::LessThan(7)));
    assert!(item.matches_condition(&seven, FuzzyCondition::InRange(7, 7)));
    assert!(item.matches_condition(&seven, FuzzyCondition::InRange(-1, 9)));
    assert!(!item.matches_condition(&seven, FuzzyCondition::InRange(8, 9)));
    assert!(!item.matches_condition(&seven, FuzzyCondition::InRange(9, 1)));
}

#[test]
fn bytes_of_another_length_match_nothing() {
    let item = i32_item(0x10, 10);
    assert!(!item.matches_condition(&[10, 0], FuzzyCondition::Unchanged));
    assert!(!item.matches_condition(&[11, 0], FuzzyCondition::Changed));
    assert!(!item.matches_condition(&[], FuzzyCondition::Changed));
    assert!(!item.matches_condition(&[10, 0, 0, 0, 0, 0, 0, 0], FuzzyCondition::Unchanged));
}

#[test]
fn unsigned_extremes_compare_without_wrapping() {
    let low = FuzzySearchResultItem::from_bytes(0, &0u64.to_le_bytes(), ValueType::U64);
    let top = u64::MAX.to_le_bytes();
    assert!(low.matches_condition(&top, FuzzyCondition::Increased));
    assert!(low.matches_condition(&top, FuzzyCondition::IncreasedBy(u64::MAX as i128)));
    assert!(!low.matches_condition(&top, FuzzyCondition::IncreasedBy(-1)));
    let high = FuzzySearchResultItem::from_bytes(0, &top, ValueType::U64);
    assert!(high.matches_condition(&0u64.to_le_bytes(), FuzzyCondition::DecreasedBy(u64::MAX as i128)));
}

#[test]
fn candidate_set_orders_by_address() {
    let mut set = CandidateSet::new();
    assert!(set.is_empty());
    assert_eq!(set.len(), 0);
    assert!(set.to_vec().is_empty());
    for address in [0x3000u64, 0x1000, 0x2000, 0x1004, 0x0FFC] {
        set.insert(i32_item(address, address as i32));
    }
    assert!(!set.is_empty());
    assert_eq!(set.len(), 5);
    let items = set.to_vec();
    let addresses: Vec<u64> = items.iter().map(|item| item.address).collect();
    assert_eq!(addresses, vec![0x0FFC, 0x1000, 0x1004, 0x2000, 0x3000]);
    for item in &items {
        assert_eq!(item.value, item.address as i128);
        assert_eq!(item.value_type, ValueType::I32);
    }
}

#[test]
fn candidate_set_keeps_one_item_per_address() {
    let mut set = CandidateSet::new();
    set.insert(i32_item(0x1000, 1));
    set.insert(i32_item(0x1000, 2));
    set.insert(FuzzySearchResultItem::from_bytes(0x2000, &[9], ValueType::U8));
    assert_eq!(set.len(), 2);
    let items = set.to_vec();
    assert_eq!(items[0], i32_item(0x1000, 2));
    assert_eq!(items[1].value_type, ValueType::U8);
    assert_eq!(items[1].value, 9);
}

#[test]
fn candidate_set_holds_many_items_in_order() {
    let mut set = CandidateSet::new();
    let mut address: u64 = 40_000;
    while address > 0 {
        address -= 4;
        set.insert(i32_item(address, -(address as i32)));
    }
    assert_eq!(set.len(), 10_000);
    let items = set.to_vec();
    for (i, item) in items.iter().enumerate() {
        assert_eq!(item.address, 4 * i as u64);
        assert_eq!(item.value, -(4 * i as i128));
    }
}
