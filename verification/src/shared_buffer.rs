//! The progress channel: a fixed-layout block of bytes that the scanner
//! writes and an observer polls.
//!
//! Layout, all fields little-endian:
//!
//! | offset | size | field        | written by |
//! |--------|------|--------------|------------|
//! | 0      | 4    | status       | scanner    |
//! | 4      | 4    | progress     | scanner    |
//! | 8      | 4    | regions done | scanner    |
//! | 12     | 8    | found count  | scanner    |
//! | 20     | 4    | heartbeat    | scanner    |
//! | 24     | 4    | cancel flag  | observer   |
//! | 28     | 4    | error code   | scanner    |

use crate::bytes::{
    le_bytes, le_value, lemma_le_bytes_len, lemma_le_value_bound, lemma_pow256_values, load_le, store_le,
    with_field,
};
use vstd::prelude::*;

pub mod offsets;

verus! {

/// Number of bytes that the channel's fields occupy.
pub const SHARED_BUFFER_SIZE: usize = 32;

/// What the scanner is doing, as the observer sees it.
#[derive(Debug, Clone, Copy, PartialEq, Eq, Structural)]
pub enum SearchStatus {
    /// No search in progress.
    Idle,
    /// A search is running.
    Searching,
    /// The search ran to its end.
    Completed,
    /// The search was cancelled.
    Cancelled,
    /// The search failed.
    Error,
}

impl SearchStatus {
    /// The number that stands for this status in the channel.
    pub open spec fn code_spec(self) -> i32 {
        match self {
            SearchStatus::Idle => 0i32,
            SearchStatus::Searching => 1i32,
            SearchStatus::Completed => 2i32,
            SearchStatus::Cancelled => 3i32,
            SearchStatus::Error => 4i32,
        }
    }

    /// The status that a number read from the channel stands for; a number
    /// that stands for none reads as `Idle`.
    pub open spec fn of_code(value: i32) -> SearchStatus {
        if value == 1 {
            SearchStatus::Searching
        } else if value == 2 {
            SearchStatus::Completed
        } else if value == 3 {
            SearchStatus::Cancelled
        } else if value == 4 {
            SearchStatus::Error
        } else {
            SearchStatus::Idle
        }
    }

    /// The number that stands for this status in the channel.
    pub fn code(self) -> (c: i32)
        ensures
            c == self.code_spec(),
    {
        match self {
            SearchStatus::Idle => 0,
            SearchStatus::Searching => 1,
            SearchStatus::Completed => 2,
            SearchStatus::Cancelled => 3,
            SearchStatus::Error => 4,
        }
    }

    /// Reading back the number of a status gives that status.
    pub proof fn lemma_code_round_trip(self)
        ensures
            SearchStatus::of_code(self.code_spec()) == self,
    {
    }
}

impl From<i32> for SearchStatus {
    fn from(value: i32) -> (status: SearchStatus) {
        match value {
            1 => SearchStatus::Searching,
            2 => SearchStatus::Completed,
            3 => SearchStatus::Cancelled,
            4 => SearchStatus::Error,
            _ => SearchStatus::Idle,
        }
    }
}

impl vstd::std_specs::convert::FromSpecImpl<i32> for SearchStatus {
    open spec fn obeys_from_spec() -> bool {
        true
    }

    open spec fn from_spec(value: i32) -> SearchStatus {
        SearchStatus::of_code(value)
    }
}

/// Why a search failed.
#[derive(Debug, Clone, Copy, PartialEq, Eq, Structural)]
pub enum SearchErrorCode {
    NoError,
    NotInitialized,
    InvalidQuery,
    MemoryReadFailed,
    InternalError,
    AlreadySearching,
}

impl SearchErrorCode {
    /// The number that stands for this error in the channel.
    pub open spec fn code_spec(self) -> i32 {
        match self {
            SearchErrorCode::NoError => 0i32,
            SearchErrorCode::NotInitialized => 1i32,
            SearchErrorCode::InvalidQuery => 2i32,
            SearchErrorCode::MemoryReadFailed => 3i32,
            SearchErrorCode::InternalError => 4i32,
            SearchErrorCode::AlreadySearching => 5i32,
        }
    }

    /// The number that stands for this error in the channel.
    pub fn code(self) -> (c: i32)
        ensures
            c == self.code_spec(),
    {
        match self {
            SearchErrorCode::NoError => 0,
            SearchErrorCode::NotInitialized => 1,
            SearchErrorCode::InvalidQuery => 2,
            SearchErrorCode::MemoryReadFailed => 3,
            SearchErrorCode::InternalError => 4,
            SearchErrorCode::AlreadySearching => 5,
        }
    }
}

/// The four bytes that spell `value` in the channel.
pub open spec fn i32_field(value: i32) -> Seq<u8> {
    le_bytes((value as u32) as u64, 4)
}

/// The eight bytes that spell `value` in the channel.
pub open spec fn i64_field(value: i64) -> Seq<u8> {
    le_bytes(value as u64, 8)
}

/// `bytes` after a write of `enc` at `offset`: a write that would pass the
/// end of `bytes` changes nothing.
pub open spec fn stored(bytes: Seq<u8>, offset: int, enc: Seq<u8>) -> Seq<u8> {
    if offset + enc.len() <= bytes.len() {
        with_field(bytes, offset, enc)
    } else {
        bytes
    }
}

/// A write keeps the length of the bytes and every byte outside the field;
/// one that would pass the end keeps all of them.
pub proof fn lemma_write_stays_in_its_field(bytes: Seq<u8>, offset: int, enc: Seq<u8>)
    requires
        0 <= offset,
    ensures
        stored(bytes, offset, enc).len() == bytes.len(),
        forall|i: int|
            0 <= i < bytes.len() && !(offset <= i < offset + enc.len()) ==> #[trigger] stored(bytes, offset, enc)[i]
                == bytes[i],
        offset + enc.len() > bytes.len() ==> stored(bytes, offset, enc) == bytes,
        offset + enc.len() <= bytes.len() ==> stored(bytes, offset, enc).subrange(offset, offset + enc.len())
            == enc,
{
    if offset + enc.len() <= bytes.len() {
        assert(stored(bytes, offset, enc).subrange(offset, offset + enc.len()) =~= enc);
    }
}

/// `progress` brought into the range from 0 to 100.
pub open spec fn clamp_progress(progress: i32) -> i32 {
    if progress < 0 {
        0i32
    } else if progress > 100 {
        100i32
    } else {
        progress
    }
}

/// `bytes` with every field that the scanner owns set to zero. The cancel
/// flag and what lies behind the fields stay.
pub open spec fn reset_bytes(bytes: Seq<u8>) -> Seq<u8> {
    Seq::new(
        bytes.len(),
        |i: int|
            if 0 <= i < 24 || 28 <= i < 32 {
                0u8
            } else {
                bytes[i]
            },
    )
}

/// `bytes` after the three writes of a progress update.
pub open spec fn progress_bytes(bytes: Seq<u8>, progress: i32, regions_done: i32, found_count: i64) -> Seq<u8> {
    stored(
        stored(
            stored(bytes, 4, i32_field(clamp_progress(progress))),
            8,
            i32_field(regions_done),
        ),
        12,
        i64_field(found_count),
    )
}

/// The number that the four bytes of `bytes` at `offset` spell.
pub open spec fn i32_at(bytes: Seq<u8>, offset: int) -> i32 {
    (le_value(bytes.subrange(offset, offset + 4)) as u32) as i32
}

/// Whether `bytes` holds a cancel flag that is nonzero.
pub open spec fn cancel_flag_raised(bytes: Seq<u8>) -> bool {
    bytes.len() >= 28 && i32_at(bytes, 24) != 0
}

/// A number drawn by `rand::random`. Nothing is claimed of it: each call
/// may return any `i32`.
#[verifier::external_body]
fn random_i32() -> (value: i32) {
    rand::random()
}

/// The scanner's end of the progress channel. While storage is attached the
/// scanner's writes land in it; without storage every write does nothing.
#[derive(Debug)]
pub struct SharedBuffer {
    storage: Option<Vec<u8>>,
}

impl SharedBuffer {
    /// The attached bytes, if any.
    pub closed spec fn view(self) -> Option<Seq<u8>> {
        match self.storage {
            Some(bytes) => Some(bytes@),
            None => None,
        }
    }

    /// A channel with no storage attached.
    pub fn new() -> (channel: SharedBuffer)
        ensures
            channel@ == None::<Seq<u8>>,
    {
        SharedBuffer { storage: None }
    }

    /// Attaches `storage` and zeroes the scanner's fields in it. Fails, and
    /// leaves the channel as it was, when there is no storage or it is
    /// shorter than the layout.
    pub fn set(&mut self, storage: Option<Vec<u8>>) -> (attached: bool)
        ensures
            attached == (storage matches Some(bytes) && bytes.len() >= SHARED_BUFFER_SIZE),
            attached ==> final(self)@ == Some(reset_bytes(storage->0@)),
            !attached ==> final(self)@ == old(self)@,
    {
        match storage {
            Some(bytes) => {
                if bytes.len() < SHARED_BUFFER_SIZE {
                    return false;
                }
                self.storage = Some(bytes);
                self.reset();
                true
            },
            None => false,
        }
    }

    /// Detaches the storage and hands it back. Later writes do nothing.
    pub fn clear(&mut self) -> (storage: Option<Vec<u8>>)
        ensures
            final(self)@ == None::<Seq<u8>>,
            storage.is_some() == old(self)@.is_some(),
            storage matches Some(bytes) ==> old(self)@ == Some(bytes@),
    {
        self.storage.take()
    }

    /// Whether storage that holds every field of the layout is attached.
    pub fn is_set(&self) -> (attached: bool)
        ensures
            attached == (self@ matches Some(bytes) && bytes.len() >= SHARED_BUFFER_SIZE),
    {
        match &self.storage {
            Some(bytes) => bytes.len() >= SHARED_BUFFER_SIZE,
            None => false,
        }
    }

    /// A copy of the attached bytes, as the observer reads them.
    pub fn bytes(&self) -> (copy: Option<Vec<u8>>)
        ensures
            copy.is_some() == self@.is_some(),
            copy matches Some(bytes) ==> self@ == Some(bytes@),
    {
        match &self.storage {
            Some(bytes) => {
                let mut copy: Vec<u8> = Vec::new();
                let mut i: usize = 0;
                while i < bytes.len()
                    invariant
                        i <= bytes.len(),
                        copy@ == bytes@.subrange(0, i as int),
                    decreases bytes.len() - i,
                {
                    copy.push(bytes[i]);
                    assert(bytes@.subrange(0, i + 1) =~= bytes@.subrange(0, i as int).push(bytes@[i as int]));
                    i = i + 1;
                }
                assert(copy@ =~= bytes@);
                Some(copy)
            },
            None => None,
        }
    }

    /// Zeroes every field that the scanner owns.
    pub fn reset(&mut self)
        ensures
            final(self)@ == match old(self)@ {
                Some(bytes) => if bytes.len() >= SHARED_BUFFER_SIZE {
                    Some(reset_bytes(bytes))
                } else {
                    Some(bytes)
                },
                None => None,
            },
    {
        if !self.is_set() {
            return ;
        }
        proof {
            reveal_with_fuel(le_bytes, 9);
        }
        self.write_status(SearchStatus::Idle);
        self.write_progress(0);
        self.write_regions_done(0);
        self.write_found_count(0);
        self.write_heartbeat(0);
        self.write_error_code(SearchErrorCode::NoError);
        assert(self@->0 =~= reset_bytes(old(self)@->0));
    }

    /// Publishes the status.
    pub fn write_status(&mut self, status: SearchStatus)
        ensures
            final(self)@ == match old(self)@ {
                Some(bytes) => Some(stored(bytes, 0, i32_field(status.code_spec()))),
                None => None,
            },
    {
        self.write_i32(offsets::STATUS, status.code());
    }

    /// Publishes the progress, brought into the range from 0 to 100.
    pub fn write_progress(&mut self, progress: i32)
        ensures
            final(self)@ == match old(self)@ {
                Some(bytes) => Some(stored(bytes, 4, i32_field(clamp_progress(progress)))),
                None => None,
            },
    {
        let clamped: i32 = if progress < 0 {
            0
        } else if progress > 100 {
            100
        } else {
            progress
        };
        self.write_i32(offsets::PROGRESS, clamped);
    }

    /// Publishes the number of regions done.
    pub fn write_regions_done(&mut self, count: i32)
        ensures
            final(self)@ == match old(self)@ {
                Some(bytes) => Some(stored(bytes, 8, i32_field(count))),
                None => None,
            },
    {
        self.write_i32(offsets::REGIONS_DONE, count);
    }

    /// Publishes the number of results found.
    pub fn write_found_count(&mut self, count: i64)
        ensures
            final(self)@ == match old(self)@ {
                Some(bytes) => Some(stored(bytes, 12, i64_field(count))),
                None => None,
            },
    {
        self.write_i64(offsets::FOUND_COUNT, count);
    }

    /// Publishes a heartbeat value.
    pub fn write_heartbeat(&mut self, value: i32)
        ensures
            final(self)@ == match old(self)@ {
                Some(bytes) => Some(stored(bytes, 20, i32_field(value))),
                None => None,
            },
    {
        self.write_i32(offsets::HEARTBEAT, value);
    }

    /// Publishes the error code.
    pub fn write_error_code(&mut self, code: SearchErrorCode)
        ensures
            final(self)@ == match old(self)@ {
                Some(bytes) => Some(stored(bytes, 28, i32_field(code.code_spec()))),
                None => None,
            },
    {
        self.write_i32(offsets::ERROR_CODE, code.code());
    }

    /// Whether the observer has asked for cancellation. Without storage
    /// nobody has.
    pub fn is_cancel_requested(&self) -> (requested: bool)
        ensures
            requested == (self@ matches Some(bytes) && cancel_flag_raised(bytes)),
    {
        self.read_i32(offsets::CANCEL_FLAG) != 0
    }

    /// The observer's write: stores `value` as the cancel flag.
    pub fn write_cancel_flag(&mut self, value: i32)
        ensures
            final(self)@ == match old(self)@ {
                Some(bytes) => Some(stored(bytes, 24, i32_field(value))),
                None => None,
            },
    {
        self.write_i32(offsets::CANCEL_FLAG, value);
    }

    /// Lowers the cancel flag.
    pub fn clear_cancel_flag(&mut self)
        ensures
            final(self)@ == match old(self)@ {
                Some(bytes) => Some(stored(bytes, 24, i32_field(0))),
                None => None,
            },
            !(final(self)@ matches Some(bytes) && cancel_flag_raised(bytes)),
    {
        self.write_i32(offsets::CANCEL_FLAG, 0);
        proof {
            if self@.is_some() && self@->0.len() >= 28 {
                reveal_with_fuel(le_bytes, 5);
                reveal_with_fuel(le_value, 5);
                let field = self@->0.subrange(24, 28);
                assert(field =~= seq![0u8, 0u8, 0u8, 0u8]);
                assert(le_value(field) == 0);
            }
        }
    }

    /// Publishes progress, regions done and results found, one after the
    /// other.
    pub fn update_progress(&mut self, progress: i32, regions_done: i32, found_count: i64)
        ensures
            final(self)@ == match old(self)@ {
                Some(bytes) => Some(progress_bytes(bytes, progress, regions_done, found_count)),
                None => None,
            },
    {
        self.write_progress(progress);
        self.write_regions_done(regions_done);
        self.write_found_count(found_count);
    }

    /// Publishes a heartbeat drawn at random. Whatever is drawn, only the
    /// heartbeat field changes.
    pub fn tick_heartbeat(&mut self)
        ensures
            old(self)@ is None ==> final(self)@ is None,
            old(self)@ matches Some(bytes) ==> exists|value: i32|
                final(self)@ == Some(stored(bytes, 20, #[trigger] i32_field(value))),
    {
        let heartbeat: i32 = random_i32();
        self.write_heartbeat(heartbeat);
    }

    /// Stores `value` in the four bytes at `offset`. Without storage, or
    /// where the four bytes would pass its end, nothing is written.
    pub fn write_i32(&mut self, offset: usize, value: i32)
        ensures
            final(self)@ == match old(self)@ {
                Some(bytes) => Some(stored(bytes, offset as int, i32_field(value))),
                None => None,
            },
    {
        proof {
            lemma_le_bytes_len((value as u32) as u64, 4);
        }
        match &mut self.storage {
            Some(bytes) => {
                if offset > bytes.len() || bytes.len() - offset < 4 {
                    return ;
                }
                store_le(bytes, offset, #[verifier::truncate] (value as u32) as u64, 4);
            },
            None => {},
        }
    }

    /// The number in the four bytes at `offset`; 0 without storage, or
    /// where the four bytes would pass its end.
    pub fn read_i32(&self, offset: usize) -> (value: i32)
        ensures
            value == match self@ {
                Some(bytes) => if offset + 4 <= bytes.len() {
                    i32_at(bytes, offset as int)
                } else {
                    0i32
                },
                None => 0i32,
            },
    {
        match &self.storage {
            Some(bytes) => {
                if offset > bytes.len() || bytes.len() - offset < 4 {
                    return 0;
                }
                let raw: u64 = load_le(bytes.as_slice(), offset, 4);
                proof {
                    lemma_le_value_bound(bytes@.subrange(offset as int, offset + 4));
                    lemma_pow256_values();
                }
                #[verifier::truncate]
                ((raw as u32) as i32)
            },
            None => 0,
        }
    }

    /// Stores `value` in the eight bytes at `offset`. Without storage, or
    /// where the eight bytes would pass its end, nothing is written.
    pub fn write_i64(&mut self, offset: usize, value: i64)
        ensures
            final(self)@ == match old(self)@ {
                Some(bytes) => Some(stored(bytes, offset as int, i64_field(value))),
                None => None,
            },
    {
        proof {
            lemma_le_bytes_len(value as u64, 8);
        }
        match &mut self.storage {
            Some(bytes) => {
                if offset > bytes.len() || bytes.len() - offset < 8 {
                    return ;
                }
                store_le(bytes, offset, #[verifier::truncate] (value as u64), 8);
            },
            None => {},
        }
    }
}

impl Default for SharedBuffer {
    fn default() -> (channel: SharedBuffer)
        ensures
            channel@ == None::<Seq<u8>>,
    {
        SharedBuffer::new()
    }
}

} // verus!
