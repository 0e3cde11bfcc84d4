use memscan::cluster::{cluster_addresses, AddressBatch, BATCH_MAX_GAP, BATCH_MAX_SIZE};
use memscan::value::{FuzzySearchResultItem, ValueType};

fn items_at(addresses: &[u64], value_type: ValueType) -> Vec<FuzzySearchResultItem> {
    addresses
        .iter()
        .map(|address| FuzzySearchResultItem { address: *address, value: 0, value_type })
        .collect()
}

fn offsets(batch: &AddressBatch) -> Vec<usize> {
    batch.items.iter().map(|item| item.offset).collect()
}

fn indices(batch: &AddressBatch) -> Vec<usize> {
    batch.items.iter().map(|item| item.item_index).collect()
}

#[test]
fn constants() {
    assert_eq!(BATCH_MAX_GAP, 4096);
    assert_eq!(BATCH_MAX_SIZE, 65536);
}

#[test]
fn single_item_batch() {
    let batch = AddressBatch::new(0x4000, 8, 3);
    assert_eq!(batch.start_addr, 0x4000);
    assert_eq!(batch.total_size, 8);
    assert_eq!(batch.items.len(), 1);
    assert_eq!(batch.items[0].offset, 0);
    assert_eq!(batch.items[0].item_index, 3);
    assert_eq!(batch.items[0].value_size, 8);
}

#[test]
fn no_items_no_batches() {
    assert!(cluster_addresses(&[]).is_empty());
}

#[test]
fn merge_and_split() {
    let items = items_at(&[0x1000, 0x1004, 0x1008, 0x2008, 0x12008], ValueType::I32);
    let batches = cluster_addresses(&items);
    assert_eq!(batches.len(), 2);
    assert_eq!(batches[0].start_addr, 0x1000);
    assert_eq!(batches[0].total_size, 0x100C);
    assert_eq!(offsets(&batches[0]), vec![0, 4, 8, 0x1008]);
    assert_eq!(indices(&batches[0]), vec![0, 1, 2, 3]);
    assert!(batches[0].items.iter().all(|item| item.value_size == 4));
    assert_eq!(batches[1].start_addr, 0x12008);
    assert_eq!(batches[1].total_size, 4);
    assert_eq!(offsets(&batches[1]), vec![0]);
    assert_eq!(indices(&batches[1]), vec![4]);
}

#[test]
fn gap_of_exactly_one_page_still_merges() {
    let items = items_at(&[0x1000, 0x1004 + 4096], ValueType::I32);
    let batches = cluster_addresses(&items);
    assert_eq!(batches.len(), 1);
    assert_eq!(batches[0].total_size, 4096 + 8);
    let items = items_at(&[0x1000, 0x1004 + 4097], ValueType::I32);
    let batches = cluster_addresses(&items);
    assert_eq!(batches.len(), 2);
    assert_eq!(batches[1].start_addr, 0x1004 + 4097);
}

#[test]
fn batch_is_split_at_the_size_cap() {
    let addresses: Vec<u64> = (0..20_000u64).map(|i| 0x10_0000 + 4 * i).collect();
    let items = items_at(&addresses, ValueType::I32);
    let batches = cluster_addresses(&items);
    assert_eq!(batches.len(), 2);
    assert_eq!(batches[0].total_size, 65536);
    assert_eq!(batches[0].items.len(), 16384);
    assert_eq!(batches[1].start_addr, 0x10_0000 + 65536);
    assert_eq!(batches[1].items.len(), 20_000 - 16384);
    assert_eq!(batches[1].items[0].item_index, 16384);
    assert_eq!(batches[1].total_size, 4 * (20_000 - 16384));
}

#[test]
fn every_batch_spans_its_items() {
    let addresses: Vec<u64> = (0..3000u64).map(|i| 0x8000 + 8 * i * (1 + i % 700)).collect();
    let items = items_at(&addresses, ValueType::U64);
    let batches = cluster_addresses(&items);
    let mut next = 0usize;
    for (b, batch) in batches.iter().enumerate() {
        assert_eq!(batch.start_addr, items[batch.items[0].item_index].address);
        let mut reach = 0usize;
        for item in &batch.items {
            assert_eq!(item.item_index, next);
            assert_eq!(item.offset as u64, items[next].address - batch.start_addr);
            assert_eq!(item.value_size, 8);
            reach = reach.max(item.offset + item.value_size);
            next += 1;
        }
        assert_eq!(reach, batch.total_size);
        assert!(batch.total_size <= BATCH_MAX_SIZE);
        if b + 1 < batches.len() {
            let following = &items[next];
            let gap = following.address.saturating_sub(batch.start_addr + batch.total_size as u64);
            let merged = following.address + 8 - batch.start_addr;
            assert!(gap > BATCH_MAX_GAP || merged > BATCH_MAX_SIZE as u64);
        }
    }
    assert_eq!(next, items.len());
}

#[test]
fn adjacent_values_have_no_gap() {
    let items = items_at(&[0x10, 0x11, 0x12], ValueType::U8);
    let batches = cluster_addresses(&items);
    assert_eq!(batches.len(), 1);
    assert_eq!(batches[0].total_size, 3);
    assert_eq!(offsets(&batches[0]), vec![0, 1, 2]);
}

#[test]
fn a_value_inside_an_earlier_one_is_clustered_by_its_address() {
    let items = vec![
        FuzzySearchResultItem { address: 0x1000, value: 0, value_type: ValueType::U64 },
        FuzzySearchResultItem { address: 0x1001, value: 0, value_type: ValueType::U8 },
        FuzzySearchResultItem { address: 0x1004, value: 0, value_type: ValueType::I32 },
    ];
    let batches = cluster_addresses(&items);
    assert_eq!(batches.len(), 1);
    assert_eq!(batches[0].start_addr, 0x1000);
    assert_eq!(offsets(&batches[0]), vec![0, 1, 4]);
    assert_eq!(batches[0].items.iter().map(|item| item.value_size).collect::<Vec<usize>>(), vec![8, 1, 4]);
    assert_eq!(batches[0].total_size, 8);
}
