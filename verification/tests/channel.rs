use memscan::shared_buffer::offsets;
use memscan::shared_buffer::{SearchErrorCode, SearchStatus, SharedBuffer, SHARED_BUFFER_SIZE};

fn attached() -> SharedBuffer {
    let mut channel = SharedBuffer::new();
    assert!(channel.set(Some(vec![0xAAu8; 32])));
    channel
}

fn bytes_of(channel: &SharedBuffer) -> Vec<u8> {
    channel.bytes().expect("storage is attached")
}

#[test]
fn test_shared_buffer_layout() {
    assert_eq!(offsets::STATUS, 0);
    assert_eq!(offsets::PROGRESS, 4);
    assert_eq!(offsets::REGIONS_DONE, 8);
    assert_eq!(offsets::FOUND_COUNT, 12);
    assert_eq!(offsets::HEARTBEAT, 20);
    assert_eq!(offsets::CANCEL_FLAG, 24);
    assert_eq!(offsets::ERROR_CODE, 28);
    assert_eq!(SHARED_BUFFER_SIZE, 32);
}

#[test]
fn test_search_status_conversion() {
    assert_eq!(SearchStatus::from(0), SearchStatus::Idle);
    assert_eq!(SearchStatus::from(1), SearchStatus::Searching);
    assert_eq!(SearchStatus::from(2), SearchStatus::Completed);
    assert_eq!(SearchStatus::from(3), SearchStatus::Cancelled);
    assert_eq!(SearchStatus::from(4), SearchStatus::Error);
    assert_eq!(SearchStatus::from(99), SearchStatus::Idle);
}

#[test]
fn status_codes_round_trip() {
    let all = [
        SearchStatus::Idle,
        SearchStatus::Searching,
        SearchStatus::Completed,
        SearchStatus::Cancelled,
        SearchStatus::Error,
    ];
    for (expected, status) in all.iter().enumerate() {
        assert_eq!(status.code(), expected as i32);
        assert_eq!(SearchStatus::from(status.code()), *status);
    }
    assert_eq!(SearchStatus::from(-1), SearchStatus::Idle);
}

#[test]
fn error_codes_are_numbered_in_order() {
    assert_eq!(SearchErrorCode::NoError.code(), 0);
    assert_eq!(SearchErrorCode::NotInitialized.code(), 1);
    assert_eq!(SearchErrorCode::InvalidQuery.code(), 2);
    assert_eq!(SearchErrorCode::MemoryReadFailed.code(), 3);
    assert_eq!(SearchErrorCode::InternalError.code(), 4);
    assert_eq!(SearchErrorCode::AlreadySearching.code(), 5);
}

#[test]
fn new_channel_is_unset_and_ignores_writes() {
    let mut channel = SharedBuffer::new();
    assert!(!channel.is_set());
    channel.write_status(SearchStatus::Searching);
    channel.write_progress(50);
    channel.update_progress(1, 2, 3);
    channel.tick_heartbeat();
    channel.reset();
    assert!(channel.bytes().is_none());
    assert!(!channel.is_cancel_requested());
    let other = SharedBuffer::default();
    assert!(!other.is_set());
}

#[test]
fn attach_rejects_short_or_missing_storage() {
    let mut channel = SharedBuffer::new();
    assert!(!channel.set(Some(vec![0u8; 16])));
    assert!(!channel.is_set());
    channel.write_status(SearchStatus::Completed);
    channel.write_found_count(7);
    assert!(channel.bytes().is_none());
    assert!(!channel.is_cancel_requested());
    assert!(!channel.set(None));
    assert!(!channel.set(Some(vec![0u8; 31])));
    assert!(!channel.is_set());
}

#[test]
fn failed_attach_keeps_the_earlier_storage() {
    let mut channel = attached();
    channel.write_progress(42);
    assert!(!channel.set(Some(vec![0u8; 8])));
    assert!(channel.is_set());
    assert_eq!(bytes_of(&channel)[4..8], [42, 0, 0, 0]);
}

#[test]
fn attach_zeroes_scanner_fields_and_keeps_cancel_flag() {
    let mut storage = vec![0xFFu8; 40];
    storage[24..28].copy_from_slice(&[1, 0, 0, 0]);
    let mut channel = SharedBuffer::new();
    assert!(channel.set(Some(storage)));
    let bytes = bytes_of(&channel);
    assert_eq!(bytes.len(), 40);
    assert!(bytes[0..24].iter().all(|b| *b == 0));
    assert_eq!(bytes[24..28], [1, 0, 0, 0]);
    assert!(bytes[28..32].iter().all(|b| *b == 0));
    assert!(bytes[32..40].iter().all(|b| *b == 0xFF));
    assert!(channel.is_cancel_requested());
}

#[test]
fn fields_land_at_their_offsets_little_endian() {
    let mut channel = attached();
    channel.write_status(SearchStatus::Cancelled);
    channel.write_progress(77);
    channel.write_regions_done(0x0102_0304);
    channel.write_found_count(0x1122_3344_5566_7788);
    channel.write_heartbeat(-2);
    channel.write_error_code(SearchErrorCode::AlreadySearching);
    let bytes = bytes_of(&channel);
    assert_eq!(bytes[0..4], [3, 0, 0, 0]);
    assert_eq!(bytes[4..8], [77, 0, 0, 0]);
    assert_eq!(bytes[8..12], [0x04, 0x03, 0x02, 0x01]);
    assert_eq!(bytes[12..20], [0x88, 0x77, 0x66, 0x55, 0x44, 0x33, 0x22, 0x11]);
    assert_eq!(bytes[20..24], [0xFE, 0xFF, 0xFF, 0xFF]);
    assert_eq!(bytes[24..28], [0xAA, 0xAA, 0xAA, 0xAA]);
    assert_eq!(bytes[28..32], [5, 0, 0, 0]);
}

#[test]
fn negative_found_count_is_twos_complement() {
    let mut channel = attached();
    channel.write_found_count(-1);
    assert_eq!(bytes_of(&channel)[12..20], [0xFF; 8]);
}

#[test]
fn progress_is_clamped() {
    let mut channel = attached();
    channel.write_progress(-5);
    assert_eq!(bytes_of(&channel)[4..8], [0, 0, 0, 0]);
    channel.write_progress(250);
    assert_eq!(bytes_of(&channel)[4..8], [100, 0, 0, 0]);
    channel.write_progress(100);
    assert_eq!(bytes_of(&channel)[4..8], [100, 0, 0, 0]);
    channel.write_progress(0);
    assert_eq!(bytes_of(&channel)[4..8], [0, 0, 0, 0]);
}

#[test]
fn update_progress_writes_three_fields() {
    let mut channel = attached();
    channel.update_progress(101, 9, 1024);
    let bytes = bytes_of(&channel);
    assert_eq!(bytes[0..4], [0, 0, 0, 0]);
    assert_eq!(bytes[4..8], [100, 0, 0, 0]);
    assert_eq!(bytes[8..12], [9, 0, 0, 0]);
    assert_eq!(bytes[12..20], [0, 4, 0, 0, 0, 0, 0, 0]);
    assert_eq!(bytes[20..24], [0, 0, 0, 0]);
}

#[test]
fn cancel_flag_is_read_and_cleared() {
    let mut channel = SharedBuffer::new();
    assert!(channel.set(Some(vec![0u8; 32])));
    assert!(!channel.is_cancel_requested());
    channel.write_cancel_flag(1);
    assert!(channel.is_cancel_requested());
    assert_eq!(bytes_of(&channel)[24..28], [1, 0, 0, 0]);
    channel.reset();
    assert!(channel.is_cancel_requested());
    channel.clear_cancel_flag();
    assert!(!channel.is_cancel_requested());
    channel.write_cancel_flag(0x0100_0000);
    assert!(channel.is_cancel_requested());
}

#[test]
fn heartbeat_tick_touches_only_the_heartbeat() {
    let mut channel = attached();
    channel.update_progress(10, 1, 5);
    let before = bytes_of(&channel);
    let mut changed = false;
    for _ in 0..64 {
        channel.tick_heartbeat();
        let after = bytes_of(&channel);
        assert_eq!(after[0..20], before[0..20]);
        assert_eq!(after[24..32], before[24..32]);
        if after[20..24] != before[20..24] {
            changed = true;
        }
    }
    assert!(changed);
}

#[test]
fn detach_returns_storage_and_silences_writes() {
    let mut channel = attached();
    channel.write_status(SearchStatus::Searching);
    let storage = channel.clear().expect("storage was attached");
    assert_eq!(storage[0..4], [1, 0, 0, 0]);
    assert!(!channel.is_set());
    channel.write_status(SearchStatus::Error);
    assert!(channel.bytes().is_none());
    assert!(channel.clear().is_none());
}

#[test]
fn reset_zeroes_after_writes() {
    let mut channel = attached();
    channel.write_status(SearchStatus::Error);
    channel.write_error_code(SearchErrorCode::MemoryReadFailed);
    channel.update_progress(55, 3, 99);
    channel.write_heartbeat(12345);
    channel.reset();
    let bytes = bytes_of(&channel);
    assert!(bytes[0..24].iter().all(|b| *b == 0));
    assert_eq!(bytes[24..28], [0xAA; 4]);
    assert!(bytes[28..32].iter().all(|b| *b == 0));
}

#[test]
fn a_field_that_would_pass_the_end_is_not_written() {
    let mut channel = SharedBuffer::new();
    assert!(channel.set(Some(vec![0u8; 34])));
    channel.write_i32(30, 0x0403_0201);
    assert_eq!(bytes_of(&channel)[30..34], [1, 2, 3, 4]);
    channel.write_i32(31, -1);
    channel.write_i32(34, -1);
    channel.write_i32(usize::MAX, -1);
    channel.write_i64(27, -1);
    channel.write_i64(usize::MAX - 3, -1);
    let bytes = bytes_of(&channel);
    assert!(bytes[0..30].iter().all(|b| *b == 0));
    assert_eq!(bytes[30..34], [1, 2, 3, 4]);
    channel.write_i64(26, 0x0807_0605_0403_0201);
    assert_eq!(bytes_of(&channel)[26..34], [1, 2, 3, 4, 5, 6, 7, 8]);
    assert_eq!(channel.read_i32(30), 0x0807_0605);
    assert_eq!(channel.read_i32(31), 0);
    assert_eq!(channel.read_i32(usize::MAX), 0);
    let mut unset = SharedBuffer::new();
    unset.write_i32(0, 5);
    unset.write_i64(0, 5);
    unset.clear_cancel_flag();
    assert_eq!(unset.read_i32(0), 0);
    assert!(unset.bytes().is_none());
}
