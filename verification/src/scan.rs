//! The two scans: the initial scan, which records every aligned value of an
//! address range, and the refinement, which reads the candidates again and
//! keeps those of which a condition holds.
//!
//! Memory is read through functions that the caller hands in; what a scan
//! promises holds whatever those functions return.

use crate::candidates::{has_address, strictly_ascending, CandidateSet};
use crate::cluster::{cluster_addresses, clusterable, clustering, item_end, AddressBatch, BatchItemRef};
use crate::extract::{aligned, in_read_page, item_at, scan_buffer_parallel, PageStatusBitmap};
use crate::shared_buffer::SearchErrorCode;
use crate::value::{FuzzyCondition, FuzzySearchResultItem, ValueType};
use rayon::iter::{IntoParallelRefIterator, ParallelIterator};
use vstd::prelude::*;
use vstd::slice::slice_subrange;

verus! {

/// Why a scan gave up.
#[derive(Debug, Clone, Copy, PartialEq, Eq, Structural)]
pub enum ScanError {
    /// The memory reader could not be reached.
    DriverUnavailable,
}

impl ScanError {
    /// The code under which the error is published.
    pub fn code(self) -> (code: SearchErrorCode)
        ensures
            code == SearchErrorCode::InternalError,
    {
        SearchErrorCode::InternalError
    }
}

/// What reading one chunk gave.
#[derive(Debug)]
pub enum ChunkOutcome {
    /// The bytes of the chunk, and which of its pages were read.
    Read(Vec<u8>, PageStatusBitmap),
    /// The chunk could not be read.
    Failed,
    /// The memory reader could not be reached.
    Unavailable,
}

/// What reading a run of bytes gave.
#[derive(Debug)]
pub enum ReadOutcome {
    /// The bytes.
    Read(Vec<u8>),
    /// The bytes could not be read.
    Failed,
    /// The memory reader could not be reached.
    Unavailable,
}

/// The counts that a scan keeps for its observer.
#[derive(Debug, Clone, Copy, PartialEq, Eq, Structural)]
pub struct ScanCounters {
    /// Bytes covered by an initial scan, or candidates read by a
    /// refinement.
    pub processed: usize,
    /// Items found.
    pub found: usize,
}

/// Whether every item of `set` is a baseline item of a scan for
/// `value_type` over the range from `start` up to `end`: kept under its own
/// address, of that type, aligned to the type's size, and inside the range
/// with all its bytes.
pub open spec fn baseline(set: Map<u64, FuzzySearchResultItem>, value_type: ValueType, start: u64, end: u64) -> bool {
    forall|address: u64| #[trigger]
        set.dom().contains(address) ==> {
            &&& set[address].address == address
            &&& set[address].value_type == value_type
            &&& aligned(address as int, value_type.size_spec() as int)
            &&& start <= address
            &&& address + value_type.size_spec() <= end
        }
}

/// Whether `after` is as absorbing asks at `address`: when an item is taken
/// there, `after` holds it; when none is, `after` is as `before`.
pub open spec fn absorbed_at(
    before: Map<u64, FuzzySearchResultItem>,
    after: Map<u64, FuzzySearchResultItem>,
    taken: bool,
    address: u64,
    item: FuzzySearchResultItem,
) -> bool {
    if taken {
        after.contains_pair(address, item)
    } else {
        after.dom().contains(address) == before.dom().contains(address) && (before.dom().contains(address)
            ==> after[address] == before[address])
    }
}

/// Whether `after` is `before` with a chunk absorbed: at every address
/// that a read page of the chunk yields, `after` holds the item that the
/// chunk holds there; at every other address `after` is as `before`.
pub open spec fn chunk_absorbed(
    before: Map<u64, FuzzySearchResultItem>,
    after: Map<u64, FuzzySearchResultItem>,
    chunk: Seq<u8>,
    chunk_addr: u64,
    start: u64,
    end: u64,
    value_type: ValueType,
    page_size: usize,
    pages: Seq<bool>,
) -> bool {
    forall|address: u64| #[trigger]
        absorbed_at(
            before,
            after,
            in_read_page(
                chunk.len() as int,
                chunk_addr as int,
                start as int,
                end as int,
                value_type.size_spec() as int,
                page_size as int,
                pages,
                address as int,
            ),
            address,
            item_at(chunk, chunk_addr, address, value_type),
        )
}

/// Puts the items of one chunk into `results`, and says whether any page of
/// the chunk was read.
pub fn absorb_chunk(
    results: &mut CandidateSet,
    buffer: &[u8],
    chunk_addr: u64,
    start: u64,
    end: u64,
    value_type: ValueType,
    page_size: usize,
    page_status: &PageStatusBitmap,
) -> (any_read: bool)
    requires
        chunk_addr + buffer.len() <= u64::MAX,
    ensures
        any_read == (crate::extract::count_read(page_status.flags()) > 0),
        chunk_absorbed(
            old(results)@,
            final(results)@,
            buffer@,
            chunk_addr,
            start,
            end,
            value_type,
            page_size,
            page_status.flags(),
        ),
{
    let any_read: bool = page_status.success_count() > 0;
    let items = scan_buffer_parallel(buffer, chunk_addr, start, end, value_type, page_size, page_status);
    let mut m: usize = 0;
    while m < items.len()
        invariant
            m <= items.len(),
            strictly_ascending(items@),
            forall|i: int|
                0 <= i < items.len() ==> (#[trigger] items[i]) == item_at(
                    buffer@,
                    chunk_addr,
                    items[i].address,
                    value_type,
                ),
            forall|address: u64| #[trigger]
                absorbed_at(
                    old(results)@,
                    results@,
                    has_address(items@.subrange(0, m as int), address),
                    address,
                    item_at(buffer@, chunk_addr, address, value_type),
                ),
        decreases items.len() - m,
    {
        let ghost before = results@;
        let ghost prefix = items@.subrange(0, m as int);
        let ghost longer = items@.subrange(0, m + 1);
        let item: FuzzySearchResultItem = items[m];
        results.insert(item);
        proof {
            assert(longer[m as int] == item);
            assert forall|address: u64| #[trigger]
                absorbed_at(
                    old(results)@,
                    results@,
                    has_address(longer, address),
                    address,
                    item_at(buffer@, chunk_addr, address, value_type),
                ) by {
                let here = item_at(buffer@, chunk_addr, address, value_type);
                assert(absorbed_at(old(results)@, before, has_address(prefix, address), address, here));
                if address == item.address {
                    assert(has_address(longer, address));
                    assert(results@.contains_pair(address, item));
                } else if has_address(prefix, address) {
                    let i = choose|i: int| 0 <= i < prefix.len() && #[trigger] prefix[i].address == address;
                    assert(longer[i] == prefix[i]);
                    assert(has_address(longer, address));
                    assert(results@.contains_pair(address, here));
                } else {
                    assert(!has_address(longer, address)) by {
                        if has_address(longer, address) {
                            let i = choose|i: int|
                                0 <= i < longer.len() && #[trigger] longer[i].address == address;
                            if i < m {
                                assert(prefix[i] == longer[i]);
                            }
                        }
                    }
                    assert(results@.dom().contains(address) == before.dom().contains(address));
                }
            }
        }
        m = m + 1;
    }
    proof {
        assert(items@.subrange(0, m as int) =~= items@);
        assert forall|address: u64| #[trigger]
            absorbed_at(
                old(results)@,
                results@,
                in_read_page(
                    buffer.len() as int,
                    chunk_addr as int,
                    start as int,
                    end as int,
                    value_type.size_spec() as int,
                    page_size as int,
                    page_status.flags(),
                    address as int,
                ),
                address,
                item_at(buffer@, chunk_addr, address, value_type),
            ) by {
            let here = item_at(buffer@, chunk_addr, address, value_type);
            assert(absorbed_at(old(results)@, results@, has_address(items@, address), address, here));
            if has_address(items@, address) {
                let i = choose|i: int| 0 <= i < items.len() && #[trigger] items[i].address == address;
                assert(in_read_page(
                    buffer.len() as int,
                    chunk_addr as int,
                    start as int,
                    end as int,
                    value_type.size_spec() as int,
                    page_size as int,
                    page_status.flags(),
                    items[i].address as int,
                ));
            }
        }
    }
    any_read
}

/// Absorbing a chunk keeps a baseline a baseline, and drops no address.
pub proof fn lemma_absorbing_keeps_baseline(
    before: Map<u64, FuzzySearchResultItem>,
    after: Map<u64, FuzzySearchResultItem>,
    chunk: Seq<u8>,
    chunk_addr: u64,
    start: u64,
    end: u64,
    value_type: ValueType,
    page_size: usize,
    pages: Seq<bool>,
)
    requires
        baseline(before, value_type, start, end),
        chunk_absorbed(before, after, chunk, chunk_addr, start, end, value_type, page_size, pages),
    ensures
        baseline(after, value_type, start, end),
        before.dom().subset_of(after.dom()),
{
    assert forall|address: u64| #[trigger] after.dom().contains(address) implies {
        &&& after[address].address == address
        &&& after[address].value_type == value_type
        &&& aligned(address as int, value_type.size_spec() as int)
        &&& start <= address
        &&& address + value_type.size_spec() <= end
    } by {
        let taken = in_read_page(
            chunk.len() as int,
            chunk_addr as int,
            start as int,
            end as int,
            value_type.size_spec() as int,
            page_size as int,
            pages,
            address as int,
        );
        assert(absorbed_at(
            before,
            after,
            in_read_page(
                chunk.len() as int,
                chunk_addr as int,
                start as int,
                end as int,
                value_type.size_spec() as int,
                page_size as int,
                pages,
                address as int,
            ),
            address,
            item_at(chunk, chunk_addr, address, value_type),
        ));
        if !taken {
            assert(before.dom().contains(address));
        }
    }
    assert forall|address: u64| before.dom().contains(address) implies after.dom().contains(address) by {
        let taken = in_read_page(
            chunk.len() as int,
            chunk_addr as int,
            start as int,
            end as int,
            value_type.size_spec() as int,
            page_size as int,
            pages,
            address as int,
        );
        assert(absorbed_at(
            before,
            after,
            in_read_page(
                chunk.len() as int,
                chunk_addr as int,
                start as int,
                end as int,
                value_type.size_spec() as int,
                page_size as int,
                pages,
                address as int,
            ),
            address,
            item_at(chunk, chunk_addr, address, value_type),
        ));
    }
}

/// A set that only gained addresses has not shrunk: a scan that stops
/// early returns no more items than one that goes on.
pub proof fn lemma_partial_is_no_larger(
    partial: Map<u64, FuzzySearchResultItem>,
    complete: Map<u64, FuzzySearchResultItem>,
)
    requires
        partial.dom().subset_of(complete.dom()),
        complete.dom().finite(),
    ensures
        partial.dom().finite(),
        partial.len() <= complete.len(),
{
    vstd::set_lib::lemma_len_subset(partial.dom(), complete.dom());
}

/// Whether the reader can have given `item` at `address`: some chunk that
/// it can return, as long as was asked for, holds the item there on a page
/// that was read.
pub open spec fn chunk_gave<R: Fn(u64, usize) -> ChunkOutcome>(
    read_chunk: R,
    value_type: ValueType,
    start: u64,
    end: u64,
    page_size: usize,
    address: u64,
    item: FuzzySearchResultItem,
) -> bool {
    exists|addr: u64, len: usize, bytes: Vec<u8>, pages: PageStatusBitmap| #[trigger]
        call_ensures(read_chunk, (addr, len), ChunkOutcome::Read(bytes, pages)) && bytes@.len() == len
            && in_read_page(
            len as int,
            addr as int,
            start as int,
            end as int,
            value_type.size_spec() as int,
            page_size as int,
            pages.flags(),
            address as int,
        ) && item == item_at(bytes@, addr, address, value_type)
}

/// Whether every item of `set` is one that the reader can have given at the
/// item's address.
pub open spec fn scanned<R: Fn(u64, usize) -> ChunkOutcome>(
    set: Map<u64, FuzzySearchResultItem>,
    read_chunk: R,
    value_type: ValueType,
    start: u64,
    end: u64,
    page_size: usize,
) -> bool {
    forall|address: u64| #[trigger]
        set.dom().contains(address) ==> chunk_gave(
            read_chunk,
            value_type,
            start,
            end,
            page_size,
            address,
            set[address],
        )
}

/// The page boundary at or below `start`.
pub open spec fn page_floor(start: u64, page_size: usize) -> int {
    start - start % (page_size as u64)
}

/// One read of a scan: the address and the length asked for, and what the
/// reader gave.
pub type ChunkVisit = (u64, usize, ChunkOutcome);

/// Length of the chunk at `addr`: `chunk_size`, or what is left up to `end`.
pub open spec fn chunk_len_at(addr: u64, end: u64, chunk_size: usize) -> int {
    if end - addr <= chunk_size {
        end - addr
    } else {
        chunk_size as int
    }
}

/// Whether `after` is `before` after the read `visit`: the outcome is one
/// that the reader can give; a chunk that was read, and is as long as was
/// asked for, is absorbed; after any other outcome the set is as before.
pub open spec fn visit_absorbed<R: Fn(u64, usize) -> ChunkOutcome>(
    read_chunk: R,
    visit: ChunkVisit,
    before: Map<u64, FuzzySearchResultItem>,
    after: Map<u64, FuzzySearchResultItem>,
    value_type: ValueType,
    start: u64,
    end: u64,
    page_size: usize,
) -> bool {
    &&& call_ensures(read_chunk, (visit.0, visit.1), visit.2)
    &&& match visit.2 {
        ChunkOutcome::Read(bytes, pages) => if bytes@.len() == visit.1 {
            chunk_absorbed(before, after, bytes@, visit.0, start, end, value_type, page_size, pages.flags())
        } else {
            after == before
        },
        _ => after == before,
    }
}

/// Whether read `k` of `visits` is in its place: the first read begins at
/// the page boundary at or below `start`, each later one where the one
/// before it ended; each begins before `end` and is as long as a chunk
/// there is; only the last read can find the reader out of reach; and
/// `sets[k + 1]` is `sets[k]` after the read.
pub open spec fn visit_in_trace<R: Fn(u64, usize) -> ChunkOutcome>(
    read_chunk: R,
    visits: Seq<ChunkVisit>,
    sets: Seq<Map<u64, FuzzySearchResultItem>>,
    k: int,
    value_type: ValueType,
    start: u64,
    end: u64,
    chunk_size: usize,
    page_size: usize,
) -> bool {
    &&& visits[k].0 < end
    &&& visits[k].1 == chunk_len_at(visits[k].0, end, chunk_size)
    &&& k == 0 ==> visits[k].0 == page_floor(start, page_size)
    &&& k > 0 ==> visits[k].0 == visits[k - 1].0 + visits[k - 1].1
    &&& k < visits.len() - 1 ==> !(visits[k].2 is Unavailable)
    &&& visit_absorbed(read_chunk, visits[k], sets[k], sets[k + 1], value_type, start, end, page_size)
}

/// Whether `visits` and `sets` trace a scan: the scan begins with the empty
/// set, and every read is in its place.
pub open spec fn scan_trace<R: Fn(u64, usize) -> ChunkOutcome>(
    read_chunk: R,
    visits: Seq<ChunkVisit>,
    sets: Seq<Map<u64, FuzzySearchResultItem>>,
    value_type: ValueType,
    start: u64,
    end: u64,
    chunk_size: usize,
    page_size: usize,
) -> bool {
    &&& sets.len() == visits.len() + 1
    &&& sets[0] == Map::<u64, FuzzySearchResultItem>::empty()
    &&& forall|k: int|
        0 <= k < visits.len() ==> #[trigger] visit_in_trace(
            read_chunk,
            visits,
            sets,
            k,
            value_type,
            start,
            end,
            chunk_size,
            page_size,
        )
}

/// The address at which the read after `visits` begins.
pub open spec fn next_chunk(visits: Seq<ChunkVisit>, start: u64, page_size: usize) -> int {
    if visits.len() == 0 {
        page_floor(start, page_size)
    } else {
        visits.last().0 + visits.last().1
    }
}

/// Whether a scan with the trace `visits` and `sets` ends with `result`.
/// A scan of a range with `start >= end` reads nothing. Before each read
/// the cancellation query, where there is one, said no. A scan that returns
/// a set returns the last set of the trace, found the reader in reach every
/// time, and either reached `end` or was told to stop by the query; a scan
/// that gives up found the reader out of reach at its last read.
pub open spec fn scan_ends<F: Fn() -> bool>(
    result: Result<CandidateSet, ScanError>,
    visits: Seq<ChunkVisit>,
    sets: Seq<Map<u64, FuzzySearchResultItem>>,
    start: u64,
    end: u64,
    page_size: usize,
    check_cancelled: Option<&F>,
) -> bool {
    &&& start >= end ==> visits.len() == 0
    &&& visits.len() > 0 ==> (check_cancelled matches Some(check) ==> call_ensures(*check, (), false))
    &&& match result {
        Ok(set) => {
            &&& set@ == sets.last()
            &&& visits.len() > 0 ==> !(visits.last().2 is Unavailable)
            &&& start >= end || next_chunk(visits, start, page_size) >= end || (check_cancelled matches Some(
                check,
            ) && call_ensures(*check, (), true))
        },
        Err(_) => visits.len() > 0 && visits.last().2 is Unavailable,
    }
}

/// Whether `result` is the end of some scan that reads through
/// `read_chunk`.
pub open spec fn scan_result<R: Fn(u64, usize) -> ChunkOutcome, F: Fn() -> bool>(
    result: Result<CandidateSet, ScanError>,
    read_chunk: R,
    check_cancelled: Option<&F>,
    value_type: ValueType,
    start: u64,
    end: u64,
    chunk_size: usize,
    page_size: usize,
) -> bool {
    exists|visits: Seq<ChunkVisit>, sets: Seq<Map<u64, FuzzySearchResultItem>>| #[trigger]
        scan_trace(read_chunk, visits, sets, value_type, start, end, chunk_size, page_size) && scan_ends(
            result,
            visits,
            sets,
            start,
            end,
            page_size,
            check_cancelled,
        )
}

/// Number of bytes that a scan of the range covers: from the page boundary
/// at or below `start` up to `end`; none where `start >= end`.
pub open spec fn scan_span(start: u64, end: u64, page_size: usize) -> int {
    if start < end {
        end - page_floor(start, page_size)
    } else {
        0
    }
}

/// A trace whose reads all found the reader in reach grows by a read that
/// is in its place.
proof fn lemma_trace_grows<R: Fn(u64, usize) -> ChunkOutcome>(
    read_chunk: R,
    visits: Seq<ChunkVisit>,
    sets: Seq<Map<u64, FuzzySearchResultItem>>,
    visit: ChunkVisit,
    after: Map<u64, FuzzySearchResultItem>,
    value_type: ValueType,
    start: u64,
    end: u64,
    chunk_size: usize,
    page_size: usize,
)
    requires
        scan_trace(read_chunk, visits, sets, value_type, start, end, chunk_size, page_size),
        forall|k: int| 0 <= k < visits.len() ==> !((#[trigger] visits[k]).2 is Unavailable),
        visit.0 == next_chunk(visits, start, page_size),
        visit.0 < end,
        visit.1 == chunk_len_at(visit.0, end, chunk_size),
        visit_absorbed(read_chunk, visit, sets.last(), after, value_type, start, end, page_size),
    ensures
        scan_trace(read_chunk, visits.push(visit), sets.push(after), value_type, start, end, chunk_size, page_size),
{
    let longer = visits.push(visit);
    let more = sets.push(after);
    assert forall|k: int| 0 <= k < longer.len() implies #[trigger] visit_in_trace(
        read_chunk,
        longer,
        more,
        k,
        value_type,
        start,
        end,
        chunk_size,
        page_size,
    ) by {
        if k < visits.len() {
            assert(visit_in_trace(read_chunk, visits, sets, k, value_type, start, end, chunk_size, page_size));
            assert(longer[k] == visits[k]);
            assert(more[k] == sets[k] && more[k + 1] == sets[k + 1]);
            if k > 0 {
                assert(longer[k - 1] == visits[k - 1]);
            }
        } else {
            assert(longer[k] == visit);
            assert(more[k] == sets.last() && more[k + 1] == after);
            if k > 0 {
                assert(longer[k - 1] == visits.last());
            }
        }
    }
}

/// Along the trace of a scan no address is lost: the set at an earlier
/// point lies within the set at every later point. A scan that is told to
/// stop returns a set of its trace, so it holds no address that the same
/// scan, going on over the same reads, would not hold, and no more items.
pub proof fn lemma_trace_sets_grow<R: Fn(u64, usize) -> ChunkOutcome>(
    read_chunk: R,
    visits: Seq<ChunkVisit>,
    sets: Seq<Map<u64, FuzzySearchResultItem>>,
    earlier: int,
    later: int,
    value_type: ValueType,
    start: u64,
    end: u64,
    chunk_size: usize,
    page_size: usize,
)
    requires
        scan_trace(read_chunk, visits, sets, value_type, start, end, chunk_size, page_size),
        0 <= earlier <= later < sets.len(),
    ensures
        sets[earlier].dom().subset_of(sets[later].dom()),
        sets[later].dom().finite() ==> sets[earlier].dom().finite() && sets[earlier].len() <= sets[later].len(),
    decreases later - earlier,
{
    if earlier < later {
        lemma_trace_sets_grow(
            read_chunk,
            visits,
            sets,
            earlier,
            later - 1,
            value_type,
            start,
            end,
            chunk_size,
            page_size,
        );
        assert(visit_in_trace(read_chunk, visits, sets, later - 1, value_type, start, end, chunk_size, page_size));
        let before = sets[later - 1];
        let after = sets[later];
        assert forall|address: u64| before.dom().contains(address) implies after.dom().contains(address) by {
            match visits[later - 1].2 {
                ChunkOutcome::Read(bytes, pages) => {
                    if bytes@.len() == visits[later - 1].1 {
                        assert(absorbed_at(
                            before,
                            after,
                            in_read_page(
                                bytes@.len() as int,
                                visits[later - 1].0 as int,
                                start as int,
                                end as int,
                                value_type.size_spec() as int,
                                page_size as int,
                                pages.flags(),
                                address as int,
                            ),
                            address,
                            item_at(bytes@, visits[later - 1].0, address, value_type),
                        ));
                    }
                },
                _ => {},
            }
        }
        if sets[later].dom().finite() {
            vstd::set_lib::lemma_len_subset(before.dom(), after.dom());
        }
    }
    if sets[later].dom().finite() {
        vstd::set_lib::lemma_len_subset(sets[earlier].dom(), sets[later].dom());
    }
}

/// Records the value at every aligned address of the range from `start` up
/// to `end`, chunk by chunk from the page boundary at or below `start`.
///
/// A range with `start >= end` is empty: the scan reads nothing, asks
/// nothing and finds nothing. Before each chunk the scan asks
/// `check_cancelled`; when that says yes, the scan ends with what it has. A chunk that cannot be read, or that
/// comes back with another number of bytes than asked for, is passed over.
/// The scan gives up only when the reader reports that it cannot be
/// reached.
pub fn fuzzy_initial_scan<R, F>(
    value_type: ValueType,
    start: u64,
    end: u64,
    chunk_size: usize,
    page_size: usize,
    counters: &mut ScanCounters,
    read_chunk: &R,
    check_cancelled: Option<&F>,
) -> (result: Result<CandidateSet, ScanError>) where
    R: Fn(u64, usize) -> ChunkOutcome,
    F: Fn() -> bool,

    requires
        chunk_size > 0,
        page_size > 0,
        forall|addr: u64, len: usize| call_requires(*read_chunk, (addr, len)),
        check_cancelled matches Some(check) ==> call_requires(*check, ()),
    ensures
        result matches Ok(set) ==> baseline(set@, value_type, start, end) && scanned(
            set@,
            *read_chunk,
            value_type,
            start,
            end,
            page_size,
        ),
        scan_result(result, *read_chunk, check_cancelled, value_type, start, end, chunk_size, page_size),
        result is Err ==> exists|addr: u64, len: usize|
            call_ensures(*read_chunk, (addr, len), ChunkOutcome::Unavailable),
        result is Err ==> final(counters).found == old(counters).found,
        result matches Ok(set) ==> final(counters).found == set@.len() || final(counters).found == old(counters).found,
        start >= end ==> (result matches Ok(set) && set@.dom() == Set::<u64>::empty() && final(counters).found
            == 0 && final(counters).processed == old(counters).processed),
        old(counters).processed + scan_span(start, end, page_size) <= usize::MAX ==> old(counters).processed
            <= final(counters).processed <= old(counters).processed + scan_span(start, end, page_size),
        (result is Ok && (check_cancelled matches Some(check) ==> !call_ensures(*check, (), true)))
            ==> (result matches Ok(set) && final(counters).found == set@.len()),
        (result is Ok && (check_cancelled matches Some(check) ==> !call_ensures(*check, (), true))
            && old(counters).processed + scan_span(start, end, page_size) <= usize::MAX)
            ==> final(counters).processed == old(counters).processed + scan_span(start, end, page_size),
{
    let mut results = CandidateSet::new();
    let ghost mut visits: Seq<ChunkVisit> = Seq::empty();
    let ghost mut sets: Seq<Map<u64, FuzzySearchResultItem>> = seq![results@];
    if start >= end {
        counters.found = 0;
        let nothing = Ok(results);
        assert(scan_trace(*read_chunk, visits, sets, value_type, start, end, chunk_size, page_size) && scan_ends(
            nothing,
            visits,
            sets,
            start,
            end,
            page_size,
            check_cancelled,
        ));
        return nothing;
    }
    proof {
        vstd::arithmetic::div_mod::lemma_mod_decreases(start as nat, page_size as nat);
    }
    let floor: u64 = start - start % (page_size as u64);
    let mut current: u64 = floor;
    while current < end
        invariant
            chunk_size > 0,
            start < end,
            visits.len() > 0 ==> (check_cancelled matches Some(check) ==> call_ensures(*check, (), false)),
            scan_trace(*read_chunk, visits, sets, value_type, start, end, chunk_size, page_size),
            sets.last() == results@,
            current == next_chunk(visits, start, page_size),
            forall|k: int| 0 <= k < visits.len() ==> !((#[trigger] visits[k]).2 is Unavailable),
            page_size > 0,
            floor == page_floor(start, page_size),
            floor <= current,
            current <= end || current == floor,
            forall|addr: u64, len: usize| call_requires(*read_chunk, (addr, len)),
            check_cancelled matches Some(check) ==> call_requires(*check, ()),
            baseline(results@, value_type, start, end),
            scanned(results@, *read_chunk, value_type, start, end, page_size),
            counters.found == old(counters).found,
            current == floor ==> results@.dom() =~= Set::<u64>::empty() && *counters == *old(counters),
            old(counters).processed + (end - floor) <= usize::MAX ==> counters.processed == old(counters).processed
                + (current - floor),
        decreases end - current,
    {
        if let Some(check) = check_cancelled {
            let asked: bool = check();
            if asked {
                let stopped = Ok(results);
                assert(scan_trace(*read_chunk, visits, sets, value_type, start, end, chunk_size, page_size)
                    && scan_ends(stopped, visits, sets, start, end, page_size, check_cancelled));
                return stopped;
            }
            assert(call_ensures(*check, (), false));
        }
        let chunk_len: usize = if end - current <= chunk_size as u64 {
            (end - current) as usize
        } else {
            chunk_size
        };
        let chunk_end: u64 = current + chunk_len as u64;
        let outcome = read_chunk(current, chunk_len);
        let ghost visit: ChunkVisit = (current, chunk_len, outcome);
        let ghost visits_before = visits;
        let ghost sets_before = sets;
        let ghost set_before = results@;
        match outcome {
            ChunkOutcome::Read(bytes, page_status) => {
                if bytes.len() == chunk_len {
                    let ghost before = results@;
                    absorb_chunk(
                        &mut results,
                        bytes.as_slice(),
                        current,
                        start,
                        end,
                        value_type,
                        page_size,
                        &page_status,
                    );
                    proof {
                        lemma_absorbing_keeps_baseline(
                            before,
                            results@,
                            bytes@,
                            current,
                            start,
                            end,
                            value_type,
                            page_size,
                            page_status.flags(),
                        );
                        assert(call_ensures(
                            *read_chunk,
                            (current, chunk_len),
                            ChunkOutcome::Read(bytes, page_status),
                        ));
                        assert forall|address: u64| #[trigger] results@.dom().contains(address) implies chunk_gave(
                            *read_chunk,
                            value_type,
                            start,
                            end,
                            page_size,
                            address,
                            results@[address],
                        ) by {
                            assert(absorbed_at(
                                before,
                                results@,
                                in_read_page(
                                    bytes@.len() as int,
                                    current as int,
                                    start as int,
                                    end as int,
                                    value_type.size_spec() as int,
                                    page_size as int,
                                    page_status.flags(),
                                    address as int,
                                ),
                                address,
                                item_at(bytes@, current, address, value_type),
                            ));
                            if !in_read_page(
                                bytes@.len() as int,
                                current as int,
                                start as int,
                                end as int,
                                value_type.size_spec() as int,
                                page_size as int,
                                page_status.flags(),
                                address as int,
                            ) {
                                assert(before.dom().contains(address));
                            }
                        }
                    }
                }
            },
            ChunkOutcome::Failed => {},
            ChunkOutcome::Unavailable => {
                proof {
                    visits = visits_before.push(visit);
                    sets = sets_before.push(set_before);
                    lemma_trace_grows(
                        *read_chunk,
                        visits_before,
                        sets_before,
                        visit,
                        set_before,
                        value_type,
                        start,
                        end,
                        chunk_size,
                        page_size,
                    );
                }
                let gave_up = Err(ScanError::DriverUnavailable);
                assert(scan_trace(*read_chunk, visits, sets, value_type, start, end, chunk_size, page_size)
                    && scan_ends(gave_up, visits, sets, start, end, page_size, check_cancelled));
                return gave_up;
            },
        }
        proof {
            visits = visits_before.push(visit);
            sets = sets_before.push(results@);
            lemma_trace_grows(
                *read_chunk,
                visits_before,
                sets_before,
                visit,
                results@,
                value_type,
                start,
                end,
                chunk_size,
                page_size,
            );
        }
        counters.processed = counters.processed.wrapping_add(chunk_len);
        current = chunk_end;
    }
    counters.found = results.len();
    let done = Ok(results);
    assert(scan_trace(*read_chunk, visits, sets, value_type, start, end, chunk_size, page_size) && scan_ends(
        done,
        visits,
        sets,
        start,
        end,
        page_size,
        check_cancelled,
    ));
    done
}

/// Whether `pairs` pairs candidates of `items` with bytes read for them:
/// pair `k` holds candidate `picked[k]` with as many bytes as its value has,
/// and the picked indices ascend, so that no candidate is paired twice.
pub open spec fn pairs_pick(
    pairs: Seq<(FuzzySearchResultItem, Vec<u8>)>,
    items: Seq<FuzzySearchResultItem>,
    picked: Seq<int>,
) -> bool {
    &&& picked.len() == pairs.len()
    &&& forall|k: int|
        0 <= k < pairs.len() ==> {
            &&& 0 <= #[trigger] picked[k] < items.len()
            &&& pairs[k].0 == items[picked[k]]
            &&& pairs[k].1@.len() == pairs[k].0.value_type.size_spec()
        }
    &&& forall|k: int, l: int| 0 <= k < l < picked.len() ==> picked[k] < picked[l]
}

/// Whether the reader can have given `bytes` for the value at `address`:
/// some run of bytes that it can return, as long as was asked for, covers
/// the value and holds `bytes` there.
pub open spec fn read_gave<R: Fn(u64, usize) -> ReadOutcome>(read: R, address: u64, bytes: Seq<u8>) -> bool {
    exists|addr: u64, len: usize, data: Vec<u8>| #[trigger]
        call_ensures(read, (addr, len), ReadOutcome::Read(data)) && data@.len() == len && addr <= address
            && address + bytes.len() <= addr + len && bytes == data@.subrange(
            address - addr,
            address - addr + bytes.len(),
        )
}

/// Whether the bytes of every pair are bytes that the reader can have given
/// for the pair's candidate.
pub open spec fn pairs_read<R: Fn(u64, usize) -> ReadOutcome>(
    pairs: Seq<(FuzzySearchResultItem, Vec<u8>)>,
    read: R,
) -> bool {
    forall|k: int| 0 <= k < pairs.len() ==> read_gave(read, (#[trigger] pairs[k]).0.address, pairs[k].1@)
}

/// The pairs of a batch whose bytes were read in one piece: for each item
/// of the batch, in order, the candidate with its bytes out of `bytes`.
pub fn extract_batch(batch: &AddressBatch, items: &[FuzzySearchResultItem], bytes: &[u8]) -> (pairs: Vec<
    (FuzzySearchResultItem, Vec<u8>),
>)
    requires
        clusterable(items@),
        batch.is_run_of(items@),
        bytes.len() == batch.total_size,
    ensures
        pairs.len() == batch.items.len(),
        forall|k: int|
            0 <= k < pairs.len() ==> {
                &&& (#[trigger] pairs[k]).0 == items[batch.first_index() + k]
                &&& pairs[k].1@ == bytes@.subrange(
                    batch.items[k].offset as int,
                    batch.items[k].offset + batch.items[k].value_size,
                )
            },
{
    let mut pairs: Vec<(FuzzySearchResultItem, Vec<u8>)> = Vec::new();
    let mut k: usize = 0;
    proof {
        crate::cluster::lemma_batch_spans_its_items(*batch, items@);
    }
    while k < batch.items.len()
        invariant
            k <= batch.items.len(),
            batch.is_run_of(items@),
            bytes.len() == batch.total_size,
            forall|j: int|
                0 <= j < batch.items@.len() ==> (#[trigger] batch.items@[j]).offset
                    + batch.items@[j].value_size <= batch.total_size,
            pairs.len() == k,
            forall|j: int|
                0 <= j < k ==> {
                    &&& (#[trigger] pairs[j]).0 == items[batch.first_index() + j]
                    &&& pairs[j].1@ == bytes@.subrange(
                        batch.items[j].offset as int,
                        batch.items[j].offset + batch.items[j].value_size,
                    )
                },
        decreases batch.items.len() - k,
    {
        let item_ref: BatchItemRef = batch.items[k];
        assert(item_ref.item_index == batch.first_index() + k);
        let value_bytes = vstd::slice::slice_to_vec(
            slice_subrange(bytes, item_ref.offset, item_ref.offset + item_ref.value_size),
        );
        pairs.push((items[item_ref.item_index], value_bytes));
        k = k + 1;
    }
    pairs
}

/// What became of one batch of a read.
#[derive(Debug)]
pub enum BatchOutcome {
    /// Cancellation was asked for before the batch was read.
    Skipped,
    /// The memory reader could not be reached.
    Unavailable,
    /// The candidates of the batch that could be read, with their bytes.
    Read(Vec<(FuzzySearchResultItem, Vec<u8>)>),
}

/// A candidate with the bytes read for it, as plain values.
pub type PairView = (FuzzySearchResultItem, Seq<u8>);

/// The pairs as plain values.
pub open spec fn pair_views(pairs: Seq<(FuzzySearchResultItem, Vec<u8>)>) -> Seq<PairView> {
    pairs.map_values(|pair: (FuzzySearchResultItem, Vec<u8>)| (pair.0, pair.1@))
}

/// Whether a read of the value of `item` alone can fail: the reader can
/// give something else than as many bytes as the value has.
pub open spec fn single_read_can_fail<R: Fn(u64, usize) -> ReadOutcome>(read: R, item: FuzzySearchResultItem) -> bool {
    exists|len: usize, outcome: ReadOutcome| #[trigger]
        call_ensures(read, (item.address, len), outcome) && len == item.value_type.size_spec() && !(
        outcome matches ReadOutcome::Read(bytes) && bytes@.len() == len)
}

/// Whether the read of `batch` in one piece can fail: the reader can give
/// something else than as many bytes as the batch spans.
pub open spec fn whole_read_can_fail<R: Fn(u64, usize) -> ReadOutcome>(read: R, batch: AddressBatch) -> bool {
    exists|outcome: ReadOutcome| #[trigger]
        call_ensures(read, (batch.start_addr, batch.total_size), outcome) && !(
        outcome matches ReadOutcome::Read(bytes) && bytes@.len() == batch.total_size)
}

/// Whether the picks leave out no candidate from `low` up to `high` but
/// one whose read alone can fail.
pub open spec fn picks_cover_singles<R: Fn(u64, usize) -> ReadOutcome>(
    picked: Seq<int>,
    low: int,
    high: int,
    items: Seq<FuzzySearchResultItem>,
    read: R,
) -> bool {
    forall|i: int| low <= i < high ==> #[trigger] picked.contains(i) || single_read_can_fail(read, items[i])
}

/// Whether the picks leave out no candidate of `batch` but one for which
/// both reads can fail: that of the batch in one piece, and that of the
/// candidate alone.
pub open spec fn picks_cover_batch<R: Fn(u64, usize) -> ReadOutcome>(
    picked: Seq<int>,
    batch: AddressBatch,
    items: Seq<FuzzySearchResultItem>,
    read: R,
) -> bool {
    forall|i: int|
        batch.first_index() <= i < batch.end_index() ==> #[trigger] picked.contains(i) || (
        whole_read_can_fail(read, batch) && single_read_can_fail(read, items[i]))
}

/// Whether `pairs` pairs candidates of `batch`, each at most once and in
/// the order of the batch, with bytes read for them, and leaves out none
/// but one for which both reads can fail.
pub open spec fn pairs_of_batch<R: Fn(u64, usize) -> ReadOutcome>(
    pairs: Seq<(FuzzySearchResultItem, Vec<u8>)>,
    batch: AddressBatch,
    items: Seq<FuzzySearchResultItem>,
    read: R,
) -> bool {
    exists|picked: Seq<int>| #[trigger]
        pairs_pick(pairs, items, picked) && picks_within(picked, batch.first_index(), batch.end_index())
            && picks_cover_batch(picked, batch, items, read)
}

/// Whether every pick lies from `low` up to `high`.
pub open spec fn picks_within(picked: Seq<int>, low: int, high: int) -> bool {
    forall|k: int| 0 <= k < picked.len() ==> low <= #[trigger] picked[k] < high
}

/// Whether `pairs` is `batch` cut out of `bytes`: one pair for each
/// candidate of the batch, in order, with the bytes at its offset.
pub open spec fn cut_pairs(
    pairs: Seq<(FuzzySearchResultItem, Vec<u8>)>,
    batch: AddressBatch,
    items: Seq<FuzzySearchResultItem>,
    bytes: Seq<u8>,
) -> bool {
    &&& pairs.len() == batch.items@.len()
    &&& forall|k: int|
        0 <= k < pairs.len() ==> {
            &&& (#[trigger] pairs[k]).0 == items[batch.first_index() + k]
            &&& pairs[k].1@ == bytes.subrange(
                batch.items@[k].offset as int,
                batch.items@[k].offset + batch.items@[k].value_size,
            )
        }
}

/// Whether `pairs` is what the read of `batch` in one piece decides: some
/// outcome that the reader can give for the batch finds the reader in
/// reach, and where it is as many bytes as the batch spans, `pairs` is the
/// batch cut out of them.
pub open spec fn whole_read_decides<R: Fn(u64, usize) -> ReadOutcome>(
    pairs: Seq<(FuzzySearchResultItem, Vec<u8>)>,
    batch: AddressBatch,
    items: Seq<FuzzySearchResultItem>,
    read: R,
) -> bool {
    exists|whole: ReadOutcome| #[trigger]
        call_ensures(read, (batch.start_addr, batch.total_size), whole) && match whole {
            ReadOutcome::Read(bytes) => bytes@.len() == batch.total_size ==> cut_pairs(pairs, batch, items, bytes@),
            ReadOutcome::Failed => true,
            ReadOutcome::Unavailable => false,
        }
}

/// Whether `outcome` is one that reading `batch` can have, given what the
/// reader and the cancellation query may return. A batch is skipped only
/// when the query can say yes, and read only when it can say no. The read
/// gives up when the reader is out of reach for the batch. A batch that
/// was read in one piece yields every candidate with its bytes out of that
/// piece; else its candidates were read one by one.
pub open spec fn outcome_of_batch<R: Fn(u64, usize) -> ReadOutcome, F: Fn() -> bool>(
    outcome: BatchOutcome,
    batch: AddressBatch,
    items: Seq<FuzzySearchResultItem>,
    read: R,
    check_cancelled: Option<&F>,
) -> bool {
    match outcome {
        BatchOutcome::Skipped => check_cancelled matches Some(check) && call_ensures(*check, (), true),
        BatchOutcome::Unavailable => {
            &&& check_cancelled matches Some(check) ==> call_ensures(*check, (), false)
            &&& call_ensures(read, (batch.start_addr, batch.total_size), ReadOutcome::Unavailable)
        },
        BatchOutcome::Read(pairs) => {
            &&& check_cancelled matches Some(check) ==> call_ensures(*check, (), false)
            &&& whole_read_decides(pairs@, batch, items, read)
            &&& pairs_of_batch(pairs@, batch, items, read)
            &&& pairs_read(pairs@, read)
        },
    }
}

/// Reads the current bytes of the candidates of one batch.
///
/// When `check_cancelled` says yes, the batch is skipped. Else the batch is
/// read in one piece, and every candidate gets its bytes out of that piece;
/// when that read fails, or gives another number of bytes than asked for,
/// the candidates are read one by one, and a candidate that cannot be read
/// is left out.
pub fn read_one_batch<R, F>(
    batch: &AddressBatch,
    items: &[FuzzySearchResultItem],
    read: &R,
    check_cancelled: Option<&F>,
) -> (outcome: BatchOutcome) where R: Fn(u64, usize) -> ReadOutcome, F: Fn() -> bool
    requires
        clusterable(items@),
        batch.is_run_of(items@),
        forall|addr: u64, len: usize| call_requires(*read, (addr, len)),
        check_cancelled matches Some(check) ==> call_requires(*check, ()),
    ensures
        outcome_of_batch(outcome, *batch, items@, *read, check_cancelled),
{
    if let Some(check) = check_cancelled {
        let asked: bool = check();
        if asked {
            return BatchOutcome::Skipped;
        }
    }
    let ghost first = batch.first_index();
    let mut whole: Option<Vec<u8>> = None;
    let outcome = read(batch.start_addr, batch.total_size);
    let ghost whole_gave = outcome;
    match outcome {
        ReadOutcome::Read(bytes) => {
            if bytes.len() == batch.total_size {
                assert(call_ensures(*read, (batch.start_addr, batch.total_size), ReadOutcome::Read(bytes)));
                whole = Some(bytes);
            }
        },
        ReadOutcome::Failed => {},
        ReadOutcome::Unavailable => {
            return BatchOutcome::Unavailable;
        },
    }
    match whole {
        Some(bytes) => {
            let pairs = extract_batch(batch, items, bytes.as_slice());
            proof {
                crate::cluster::lemma_batch_spans_its_items(*batch, items@);
                let picked = Seq::new(pairs.len() as nat, |j: int| first + j);
                assert forall|j: int| 0 <= j < pairs.len() implies {
                    &&& 0 <= #[trigger] picked[j] < items.len()
                    &&& pairs[j].0 == items[picked[j]]
                    &&& pairs[j].1@.len() == pairs[j].0.value_type.size_spec()
                } by {
                    assert(batch.items[j].value_size == items[first + j].value_type.size_spec());
                    assert(batch.items@[j].offset + batch.items@[j].value_size <= batch.total_size);
                }
                assert forall|i: int| batch.first_index() <= i < batch.end_index() implies #[trigger] picked.contains(
                    i,
                ) || (whole_read_can_fail(*read, *batch) && single_read_can_fail(*read, items@[i])) by {
                    assert(picked[i - first] == i);
                }
                assert(pairs_pick(pairs@, items@, picked) && picks_within(
                    picked,
                    batch.first_index(),
                    batch.end_index(),
                ) && picks_cover_batch(picked, *batch, items@, *read));
                assert(cut_pairs(pairs@, *batch, items@, bytes@));
                assert(call_ensures(*read, (batch.start_addr, batch.total_size), whole_gave));
                assert(whole_read_decides(pairs@, *batch, items@, *read));
                assert forall|j: int| 0 <= j < pairs.len() implies read_gave(
                    *read,
                    (#[trigger] pairs[j]).0.address,
                    pairs[j].1@,
                ) by {
                    assert(batch.items[j].value_size == items[first + j].value_type.size_spec());
                    assert(batch.items[j].offset == items[first + j].address - batch.start_addr);
                    assert(batch.items@[j].offset + batch.items@[j].value_size <= batch.total_size);
                    assert(call_ensures(*read, (batch.start_addr, batch.total_size), ReadOutcome::Read(bytes)));
                }
            }
            BatchOutcome::Read(pairs)
        },
        None => {
            let mut pairs: Vec<(FuzzySearchResultItem, Vec<u8>)> = Vec::new();
            let ghost mut picked: Seq<int> = Seq::empty();
            let mut k: usize = 0;
            while k < batch.items.len()
                invariant
                    k <= batch.items.len(),
                    clusterable(items@),
                    batch.is_run_of(items@),
                    first == batch.first_index(),
                    forall|addr: u64, len: usize| call_requires(*read, (addr, len)),
                    pairs_pick(pairs@, items@, picked),
                    picks_within(picked, first, first + k),
                    picks_cover_singles(picked, first, first + k, items@, *read),
                    pairs_read(pairs@, *read),
                decreases batch.items.len() - k,
            {
                let item_ref: BatchItemRef = batch.items[k];
                assert(item_ref.item_index == first + k);
                let candidate: FuzzySearchResultItem = items[item_ref.item_index];
                let single = read(candidate.address, item_ref.value_size);
                let ghost gave = single;
                let ghost picks_at_start = picked;
                let ghost pairs_at_start = pairs@;
                match single {
                    ReadOutcome::Read(bytes) => {
                        if bytes.len() == item_ref.value_size {
                            let ghost pairs_before = pairs@;
                            let ghost picks_before = picked;
                            let ghost data = bytes;
                            pairs.push((candidate, bytes));
                            proof {
                                picked = picked.push(first + k);
                                assert(call_ensures(
                                    *read,
                                    (candidate.address, item_ref.value_size),
                                    ReadOutcome::Read(data),
                                ));
                                assert(item_end(candidate) <= u64::MAX);
                                assert(data@ =~= data@.subrange(0, data@.len() as int));
                                assert(read_gave(*read, candidate.address, data@));
                                assert forall|j: int| 0 <= j < pairs.len() implies read_gave(
                                    *read,
                                    (#[trigger] pairs[j]).0.address,
                                    pairs[j].1@,
                                ) by {
                                    if j < pairs_before.len() {
                                        assert(pairs[j] == pairs_before[j]);
                                    }
                                }
                                assert forall|j: int| 0 <= j < pairs.len() implies {
                                    &&& 0 <= #[trigger] picked[j] < items.len()
                                    &&& pairs[j].0 == items[picked[j]]
                                    &&& pairs[j].1@.len() == pairs[j].0.value_type.size_spec()
                                } by {
                                    if j < pairs_before.len() {
                                        assert(picked[j] == picks_before[j]);
                                        assert(pairs[j] == pairs_before[j]);
                                    }
                                }
                                assert forall|j: int, l: int| 0 <= j < l < picked.len() implies picked[j]
                                    < picked[l] by {
                                    if l < picks_before.len() {
                                        assert(picked[j] == picks_before[j] && picked[l] == picks_before[l]);
                                    } else {
                                        assert(picked[j] == picks_before[j]);
                                    }
                                }
                            }
                        }
                    },
                    _ => {},
                }
                proof {
                    assert forall|i: int| first <= i < first + k + 1 implies #[trigger] picked.contains(i)
                        || single_read_can_fail(*read, items@[i]) by {
                        if i < first + k {
                            if picks_at_start.contains(i) {
                                let j = choose|j: int| 0 <= j < picks_at_start.len() && picks_at_start[j] == i;
                                assert(picked[j] == i);
                            }
                        } else if pairs@.len() > pairs_at_start.len() {
                            assert(picked[picked.len() - 1] == i);
                        } else {
                            assert(call_ensures(*read, (candidate.address, item_ref.value_size), gave));
                            assert(item_ref.value_size == items@[i].value_type.size_spec());
                            assert(single_read_can_fail(*read, items@[i]));
                        }
                    }
                }
                k = k + 1;
            }
            proof {
                assert(call_ensures(*read, (batch.start_addr, batch.total_size), whole_gave));
                assert(whole_read_can_fail(*read, *batch));
                assert(whole_read_decides(pairs@, *batch, items@, *read));
                assert(pairs_pick(pairs@, items@, picked) && picks_within(
                    picked,
                    batch.first_index(),
                    batch.end_index(),
                ) && picks_cover_batch(picked, *batch, items@, *read));
            }
            BatchOutcome::Read(pairs)
        },
    }
}

/// `par_iter`, `map` and `collect` of rayon, with `read_one_batch` as the
/// function that is mapped: one outcome per batch, in the order of the
/// batches, each of them what `read_one_batch` returns for that batch.
#[verifier::external_body]
fn read_batches_in_parallel<R, F>(
    batches: &[AddressBatch],
    items: &[FuzzySearchResultItem],
    read: &R,
    check_cancelled: Option<&F>,
) -> (outcomes: Vec<BatchOutcome>) where
    R: Fn(u64, usize) -> ReadOutcome + Sync,
    F: Fn() -> bool + Sync,

    requires
        clusterable(items@),
        forall|b: int| 0 <= b < batches.len() ==> (#[trigger] batches[b]).is_run_of(items@),
        forall|addr: u64, len: usize| call_requires(*read, (addr, len)),
        check_cancelled matches Some(check) ==> call_requires(*check, ()),
    ensures
        outcomes.len() == batches.len(),
        forall|b: int|
            0 <= b < batches.len() ==> call_ensures(
                read_one_batch::<R, F>,
                (&batches[b], items, read, check_cancelled),
                #[trigger] outcomes[b],
            ),
{
    batches.par_iter().map(|batch| read_one_batch(batch, items, read, check_cancelled)).collect()
}

/// The pairs of an outcome, as plain values: those of a batch that was
/// read, none of any other.
pub open spec fn outcome_pairs(outcome: BatchOutcome) -> Seq<PairView> {
    match outcome {
        BatchOutcome::Read(pairs) => pair_views(pairs@),
        _ => Seq::empty(),
    }
}

/// The pairs of the first `n` outcomes, one outcome behind the other.
pub open spec fn gathered(outcomes: Seq<BatchOutcome>, n: nat) -> Seq<PairView>
    decreases n,
{
    if n == 0 {
        Seq::empty()
    } else {
        gathered(outcomes, (n - 1) as nat) + outcome_pairs(outcomes[n - 1])
    }
}

/// Number of candidates in those of the first `n` batches that were read.
pub open spec fn candidates_read(outcomes: Seq<BatchOutcome>, batches: Seq<AddressBatch>, n: nat) -> nat
    decreases n,
{
    if n == 0 {
        0
    } else {
        candidates_read(outcomes, batches, (n - 1) as nat) + if outcomes[n - 1] is Read {
            batches[n - 1].items@.len()
        } else {
            0nat
        }
    }
}

/// Whether outcome `k` is the first that found the reader out of reach.
pub open spec fn first_unavailable(outcomes: Seq<BatchOutcome>, k: int) -> bool {
    &&& 0 <= k < outcomes.len()
    &&& outcomes[k] is Unavailable
    &&& forall|j: int| 0 <= j < k ==> !((#[trigger] outcomes[j]) is Unavailable)
}

/// Whether some outcome found the reader out of reach.
pub open spec fn has_unavailable(outcomes: Seq<BatchOutcome>) -> bool {
    exists|k: int| 0 <= k < outcomes.len() && (#[trigger] outcomes[k]) is Unavailable
}

/// Whether a count went from `before` to `after` by `added`, where that
/// does not pass the largest count.
pub open spec fn counted(before: usize, after: usize, added: nat) -> bool {
    before + added <= usize::MAX ==> after == before + added
}

/// Gathers the outcomes of the batches of a read, in the order of the
/// batches: the pairs of the batches that were read, one batch behind the
/// other. For each such batch the number of its candidates is added to the
/// processed count and `update_progress` is told the counts. The first
/// outcome that found the reader out of reach ends the gathering with an
/// error.
pub fn gather_batches<P>(
    outcomes: &Vec<BatchOutcome>,
    batches: &[AddressBatch],
    counters: &mut ScanCounters,
    update_progress: &P,
) -> (result: Result<Vec<(FuzzySearchResultItem, Vec<u8>)>, ScanError>) where P: Fn(usize, usize)
    requires
        outcomes.len() == batches.len(),
        forall|processed: usize, found: usize| call_requires(*update_progress, (processed, found)),
    ensures
        result is Err <==> has_unavailable(outcomes@),
        result matches Ok(pairs) ==> pair_views(pairs@) == gathered(outcomes@, outcomes.len() as nat),
        result is Ok ==> counted(
            old(counters).processed,
            final(counters).processed,
            candidates_read(outcomes@, batches@, outcomes.len() as nat),
        ),
        result is Err ==> exists|k: int| #[trigger]
            first_unavailable(outcomes@, k) && counted(
                old(counters).processed,
                final(counters).processed,
                candidates_read(outcomes@, batches@, k as nat),
            ),
        final(counters).found == old(counters).found,
{
    let mut pairs: Vec<(FuzzySearchResultItem, Vec<u8>)> = Vec::new();
    let mut b: usize = 0;
    assert(pair_views(pairs@) =~= gathered(outcomes@, 0));
    while b < outcomes.len()
        invariant
            b <= outcomes.len(),
            outcomes.len() == batches.len(),
            forall|processed: usize, found: usize| call_requires(*update_progress, (processed, found)),
            pair_views(pairs@) == gathered(outcomes@, b as nat),
            forall|j: int| 0 <= j < b ==> !((#[trigger] outcomes[j]) is Unavailable),
            counted(old(counters).processed, counters.processed, candidates_read(outcomes@, batches@, b as nat)),
            counters.found == old(counters).found,
        decreases outcomes.len() - b,
    {
        let ghost before = pairs@;
        match &outcomes[b] {
            BatchOutcome::Skipped => {},
            BatchOutcome::Unavailable => {
                assert(first_unavailable(outcomes@, b as int));
                return Err(ScanError::DriverUnavailable);
            },
            BatchOutcome::Read(found) => {
                let mut m: usize = 0;
                while m < found.len()
                    invariant
                        m <= found.len(),
                        pair_views(pairs@) == pair_views(before) + pair_views(found@).subrange(0, m as int),
                    decreases found.len() - m,
                {
                    let ghost so_far = pairs@;
                    let copy = vstd::slice::slice_to_vec(found[m].1.as_slice());
                    pairs.push((found[m].0, copy));
                    assert(pair_views(pairs@) =~= pair_views(so_far).push((found[m as int].0, found[m as int].1@)));
                    assert(pair_views(found@).subrange(0, m + 1) =~= pair_views(found@).subrange(0, m as int).push(
                        (found[m as int].0, found[m as int].1@),
                    ));
                    assert(pair_views(pairs@) =~= pair_views(before) + pair_views(found@).subrange(0, m + 1));
                    m = m + 1;
                }
                assert(pair_views(found@).subrange(0, m as int) =~= pair_views(found@));
                counters.processed = counters.processed.wrapping_add(batch_len(&batches[b]));
                update_progress(counters.processed, counters.found);
            },
        }
        assert(pair_views(pairs@) =~= gathered(outcomes@, (b + 1) as nat)) by {
            assert(pair_views(before) + Seq::<PairView>::empty() =~= pair_views(before));
        }
        b = b + 1;
    }
    assert(!has_unavailable(outcomes@));
    Ok(pairs)
}

/// Number of candidates in `batch`.
fn batch_len(batch: &AddressBatch) -> (n: usize)
    ensures
        n == batch.items@.len(),
{
    batch.items.len()
}

/// Whether `pair` is pair `j` of `outcome`.
pub open spec fn pair_in_outcome(outcome: BatchOutcome, j: int, pair: PairView) -> bool {
    outcome matches BatchOutcome::Read(found) && 0 <= j < found@.len() && pair == (found@[j].0, found@[j].1@)
}

/// Every gathered pair is a pair of one of the outcomes.
pub proof fn lemma_gathered_sound(outcomes: Seq<BatchOutcome>, n: nat, k: int)
    requires
        n <= outcomes.len(),
        0 <= k < gathered(outcomes, n).len(),
    ensures
        exists|b: int, j: int| 0 <= b < n && #[trigger] pair_in_outcome(outcomes[b], j, gathered(outcomes, n)[k]),
    decreases n,
{
    if n > 0 {
        let front = gathered(outcomes, (n - 1) as nat);
        if k < front.len() {
            lemma_gathered_sound(outcomes, (n - 1) as nat, k);
            let (b, j) = choose|b: int, j: int|
                0 <= b < n - 1 && #[trigger] pair_in_outcome(outcomes[b], j, front[k]);
            assert(pair_in_outcome(outcomes[b], j, gathered(outcomes, n)[k]));
        } else {
            assert(pair_in_outcome(outcomes[n - 1], k - front.len(), gathered(outcomes, n)[k]));
        }
    }
}

/// Every pair of an outcome is gathered.
pub proof fn lemma_gathered_complete(outcomes: Seq<BatchOutcome>, n: nat, b: int, j: int, pair: PairView)
    requires
        n <= outcomes.len(),
        0 <= b < n,
        pair_in_outcome(outcomes[b], j, pair),
    ensures
        gathered(outcomes, n).contains(pair),
    decreases n,
{
    let front = gathered(outcomes, (n - 1) as nat);
    if b < n - 1 {
        lemma_gathered_complete(outcomes, (n - 1) as nat, b, j, pair);
        let k = choose|k: int| 0 <= k < front.len() && front[k] == pair;
        assert(gathered(outcomes, n)[k] == pair);
    } else {
        assert(gathered(outcomes, n)[front.len() + j] == pair);
    }
}

/// The index from which on the batches from `n` on take their candidates.
pub open spec fn batches_reach(batches: Seq<AddressBatch>, items: Seq<FuzzySearchResultItem>, n: nat) -> int {
    if n < batches.len() {
        batches[n as int].first_index()
    } else {
        items.len() as int
    }
}

/// The first `n` batches hold the candidates before the next batch: as
/// many candidates were read as those batches hold when all were read, and
/// fewer or as many else; none when all were skipped.
pub proof fn lemma_candidates_read_bound(
    outcomes: Seq<BatchOutcome>,
    batches: Seq<AddressBatch>,
    items: Seq<FuzzySearchResultItem>,
    n: nat,
)
    requires
        clustering(batches, items),
        outcomes.len() == batches.len(),
        n <= batches.len(),
    ensures
        candidates_read(outcomes, batches, n) <= batches_reach(batches, items, n),
        (forall|c: int| 0 <= c < n ==> (#[trigger] outcomes[c]) is Read) ==> candidates_read(outcomes, batches, n)
            == batches_reach(batches, items, n),
        (forall|c: int| 0 <= c < n ==> (#[trigger] outcomes[c]) is Skipped) ==> candidates_read(outcomes, batches, n)
            == 0 && gathered(outcomes, n) == Seq::<PairView>::empty(),
    decreases n,
{
    if n > 0 {
        lemma_candidates_read_bound(outcomes, batches, items, (n - 1) as nat);
        assert(batches[n - 1].is_run_of(items));
        if n < batches.len() {
            assert(crate::cluster::splits_after(batches, n - 1, items));
        } else {
            assert(batches.last() == batches[n - 1]);
        }
        if forall|c: int| 0 <= c < n ==> (#[trigger] outcomes[c]) is Skipped {
            assert(outcomes[n - 1] is Skipped);
            assert(gathered(outcomes, n) =~= Seq::<PairView>::empty());
        }
        if forall|c: int| 0 <= c < n ==> (#[trigger] outcomes[c]) is Read {
            assert(outcomes[n - 1] is Read);
        }
    }
}

/// Every candidate below the reach of the first `n` batches is in one of
/// them.
pub proof fn lemma_batch_of(batches: Seq<AddressBatch>, items: Seq<FuzzySearchResultItem>, n: nat, i: int)
    requires
        clustering(batches, items),
        n <= batches.len(),
        0 <= i < batches_reach(batches, items, n),
    ensures
        exists|b: int| 0 <= b < n && (#[trigger] batches[b]).first_index() <= i < batches[b].end_index(),
    decreases n,
{
    if n == 0 {
        assert(batches.len() > 0 ==> batches[0].first_index() == 0);
    } else {
        assert(batches[n - 1].is_run_of(items));
        if n < batches.len() {
            assert(crate::cluster::splits_after(batches, n - 1, items));
        } else {
            assert(batches.last() == batches[n - 1]);
        }
        if i < batches[n - 1].first_index() {
            lemma_batch_of(batches, items, (n - 1) as nat, i);
        }
    }
}

/// Whether the read of no batch in one piece can fail.
pub open spec fn no_whole_read_fails<R: Fn(u64, usize) -> ReadOutcome>(read: R, batches: Seq<AddressBatch>) -> bool {
    forall|b: int| 0 <= b < batches.len() ==> !whole_read_can_fail(read, #[trigger] batches[b])
}

/// Where every batch was read, and the read of no batch in one piece can
/// fail, the first `n` outcomes gather to the candidates of the first `n`
/// batches, one pair for each candidate, in the order of the candidates.
pub proof fn lemma_gathered_whole<R: Fn(u64, usize) -> ReadOutcome, F: Fn() -> bool>(
    outcomes: Seq<BatchOutcome>,
    batches: Seq<AddressBatch>,
    items: Seq<FuzzySearchResultItem>,
    read: R,
    check_cancelled: Option<&F>,
    n: nat,
)
    requires
        clustering(batches, items),
        outcomes_of(outcomes, batches, items, read, check_cancelled),
        no_whole_read_fails(read, batches),
        n <= batches.len(),
        forall|c: int| 0 <= c < n ==> (#[trigger] outcomes[c]) is Read,
    ensures
        gathered(outcomes, n).len() == batches_reach(batches, items, n),
        forall|i: int| 0 <= i < gathered(outcomes, n).len() ==> (#[trigger] gathered(outcomes, n)[i]).0 == items[i],
    decreases n,
{
    if n == 0 {
        assert(batches.len() > 0 ==> batches[0].first_index() == 0);
    } else {
        lemma_gathered_whole(outcomes, batches, items, read, check_cancelled, (n - 1) as nat);
        let batch = batches[n - 1];
        assert(batch.is_run_of(items));
        if n < batches.len() {
            assert(crate::cluster::splits_after(batches, n - 1, items));
        } else {
            assert(batches.last() == batch);
        }
        assert(outcome_of_batch(outcomes[n - 1], batch, items, read, check_cancelled));
        assert(outcomes[n - 1] is Read);
        let found = outcomes[n - 1]->Read_0;
        assert(!whole_read_can_fail(read, batch));
        let whole = choose|whole: ReadOutcome| #[trigger]
            call_ensures(read, (batch.start_addr, batch.total_size), whole) && match whole {
                ReadOutcome::Read(bytes) => bytes@.len() == batch.total_size ==> cut_pairs(
                    found@,
                    batch,
                    items,
                    bytes@,
                ),
                ReadOutcome::Failed => true,
                ReadOutcome::Unavailable => false,
            };
        assert(whole matches ReadOutcome::Read(bytes) && bytes@.len() == batch.total_size);
        let front = gathered(outcomes, (n - 1) as nat);
        let all = gathered(outcomes, n);
        assert(pair_views(found@).len() == found@.len());
        assert forall|i: int| 0 <= i < all.len() implies (#[trigger] all[i]).0 == items[i] by {
            if i >= front.len() {
                assert(all[i] == pair_views(found@)[i - front.len()]);
                assert(found@[i - front.len()].0 == items[batch.first_index() + (i - front.len())]);
            } else {
                assert(all[i] == front[i]);
            }
        }
    }
}

/// Whether `pair` holds a candidate of `items` with as many bytes as its
/// value has, bytes that the reader can have given for it.
pub open spec fn pair_sound<R: Fn(u64, usize) -> ReadOutcome>(
    pair: PairView,
    items: Seq<FuzzySearchResultItem>,
    read: R,
) -> bool {
    &&& exists|i: int| 0 <= i < items.len() && #[trigger] items[i] == pair.0
    &&& pair.1.len() == pair.0.value_type.size_spec()
    &&& read_gave(read, pair.0.address, pair.1)
}

/// Whether every pair is sound.
pub open spec fn pairs_sound<R: Fn(u64, usize) -> ReadOutcome>(
    pairs: Seq<PairView>,
    items: Seq<FuzzySearchResultItem>,
    read: R,
) -> bool {
    forall|k: int| 0 <= k < pairs.len() ==> pair_sound(#[trigger] pairs[k], items, read)
}

/// Whether some pair holds `item`.
pub open spec fn paired(pairs: Seq<PairView>, item: FuzzySearchResultItem) -> bool {
    exists|k: int| 0 <= k < pairs.len() && (#[trigger] pairs[k]).0 == item
}

/// Whether candidate `i` may be left out of a read: for its batch both
/// reads can fail, that of the batch in one piece and that of the
/// candidate alone.
pub open spec fn excused<R: Fn(u64, usize) -> ReadOutcome>(
    read: R,
    batches: Seq<AddressBatch>,
    items: Seq<FuzzySearchResultItem>,
    i: int,
) -> bool {
    exists|b: int|
        0 <= b < batches.len() && (#[trigger] batches[b]).first_index() <= i < batches[b].end_index()
            && whole_read_can_fail(read, batches[b]) && single_read_can_fail(read, items[i])
}

/// Whether `outcomes` holds, for each batch, an outcome that reading the
/// batch can have.
pub open spec fn outcomes_of<R: Fn(u64, usize) -> ReadOutcome, F: Fn() -> bool>(
    outcomes: Seq<BatchOutcome>,
    batches: Seq<AddressBatch>,
    items: Seq<FuzzySearchResultItem>,
    read: R,
    check_cancelled: Option<&F>,
) -> bool {
    &&& outcomes.len() == batches.len()
    &&& forall|b: int|
        0 <= b < batches.len() ==> outcome_of_batch(#[trigger] outcomes[b], batches[b], items, read, check_cancelled)
}

/// Whether `result` is what some outcomes of the batches gather to: an
/// error exactly when one of them found the reader out of reach, else the
/// pairs of the batches that were read, in the order of the batches.
pub open spec fn batch_read_result<R: Fn(u64, usize) -> ReadOutcome, F: Fn() -> bool>(
    result: Result<Vec<(FuzzySearchResultItem, Vec<u8>)>, ScanError>,
    before: ScanCounters,
    after: ScanCounters,
    batches: Seq<AddressBatch>,
    items: Seq<FuzzySearchResultItem>,
    read: R,
    check_cancelled: Option<&F>,
) -> bool {
    exists|outcomes: Seq<BatchOutcome>| #[trigger]
        outcomes_of(outcomes, batches, items, read, check_cancelled) && (result is Err <==> has_unavailable(
            outcomes,
        )) && (result matches Ok(pairs) ==> pair_views(pairs@) == gathered(outcomes, outcomes.len()) && counted(
            before.processed,
            after.processed,
            candidates_read(outcomes, batches, outcomes.len()),
        ))
}

/// Reads the current bytes of the candidates, batch by batch, the batches
/// side by side.
///
/// Each batch asks `check_cancelled` before it starts and is read as
/// `read_one_batch` says; with a query that stays at yes once it has said
/// so, the batches that start after the yes are skipped. The outcomes are
/// gathered as `gather_batches` says.
pub fn parallel_batch_read<R, P, F>(
    batches: &[AddressBatch],
    items: &[FuzzySearchResultItem],
    counters: &mut ScanCounters,
    read: &R,
    update_progress: &P,
    check_cancelled: Option<&F>,
) -> (result: Result<Vec<(FuzzySearchResultItem, Vec<u8>)>, ScanError>) where
    R: Fn(u64, usize) -> ReadOutcome + Sync,
    P: Fn(usize, usize),
    F: Fn() -> bool + Sync,

    requires
        clusterable(items@),
        clustering(batches@, items@),
        forall|addr: u64, len: usize| call_requires(*read, (addr, len)),
        forall|processed: usize, found: usize| call_requires(*update_progress, (processed, found)),
        check_cancelled matches Some(check) ==> call_requires(*check, ()),
    ensures
        batch_read_result(result, *old(counters), *final(counters), batches@, items@, *read, check_cancelled),
        result matches Ok(pairs) ==> pairs_sound(pair_views(pairs@), items@, *read),
        (result matches Ok(pairs) && (check_cancelled matches Some(check) ==> !call_ensures(*check, (), true)))
            ==> (result matches Ok(pairs) && forall|i: int|
            0 <= i < items.len() ==> paired(pair_views(pairs@), #[trigger] items@[i]) || excused(
                *read,
                batches@,
                items@,
                i,
            )),
        (result matches Ok(pairs) && (check_cancelled matches Some(check) ==> !call_ensures(*check, (), true))
            && no_whole_read_fails(*read, batches@)) ==> (result matches Ok(pairs) && pairs.len() == items.len()
            && forall|i: int| 0 <= i < items.len() ==> (#[trigger] pairs[i]).0 == items[i]),
        batches.len() == 0 ==> (result matches Ok(pairs) && pairs.len() == 0),
        (check_cancelled matches Some(check) && !call_ensures(*check, (), false)) ==> (result matches Ok(pairs)
            && pairs.len() == 0 && final(counters).processed == old(counters).processed),
        result is Err ==> exists|addr: u64, len: usize|
            call_ensures(*read, (addr, len), ReadOutcome::Unavailable),
        final(counters).found == old(counters).found,
        old(counters).processed + items.len() <= usize::MAX ==> old(counters).processed
            <= final(counters).processed <= old(counters).processed + items.len(),
        (result is Ok && (check_cancelled matches Some(check) ==> !call_ensures(*check, (), true))
            && old(counters).processed + items.len() <= usize::MAX) ==> final(counters).processed
            == old(counters).processed + items.len(),
{
    let outcomes = read_batches_in_parallel(batches, items, read, check_cancelled);
    let result = gather_batches(&outcomes, batches, counters, update_progress);
    proof {
        let os = outcomes@;
        let n = os.len() as nat;
        assert(outcomes_of(os, batches@, items@, *read, check_cancelled)) by {
            assert forall|b: int| 0 <= b < batches.len() implies outcome_of_batch(
                #[trigger] os[b],
                batches[b],
                items@,
                *read,
                check_cancelled,
            ) by {
                assert(batches[b].is_run_of(items@));
            }
        }
        lemma_candidates_read_bound(os, batches@, items@, n);
        if result is Err {
            let k = choose|k: int| #[trigger]
                first_unavailable(os, k) && counted(
                    old(counters).processed,
                    counters.processed,
                    candidates_read(os, batches@, k as nat),
                );
            lemma_candidates_read_bound(os, batches@, items@, k as nat);
            assert(batches[k].is_run_of(items@));
            assert(outcome_of_batch(os[k], batches[k], items@, *read, check_cancelled));
        }
        if check_cancelled matches Some(check) && !call_ensures(*check, (), false) {
            assert forall|c: int| 0 <= c < n implies (#[trigger] os[c]) is Skipped by {
                assert(outcome_of_batch(os[c], batches[c], items@, *read, check_cancelled));
            }
        }
        if result is Ok {
            let pairs = result->Ok_0;
            let views = pair_views(pairs@);
            assert(views.len() == pairs@.len());
            if batches.len() == 0 {
                assert(gathered(os, 0) =~= Seq::<PairView>::empty());
            }
            assert forall|k: int| 0 <= k < views.len() implies pair_sound(#[trigger] views[k], items@, *read) by {
                lemma_gathered_sound(os, n, k);
                let (b, j) = choose|b: int, j: int| 0 <= b < n && #[trigger] pair_in_outcome(os[b], j, views[k]);
                assert(outcome_of_batch(os[b], batches[b], items@, *read, check_cancelled));
                let found = os[b]->Read_0;
                let picked = choose|picked: Seq<int>| #[trigger]
                    pairs_pick(found@, items@, picked) && picks_within(
                        picked,
                        batches[b].first_index(),
                        batches[b].end_index(),
                    ) && picks_cover_batch(picked, batches[b], items@, *read);
                assert(found@[j].0 == items@[picked[j]]);
                assert(read_gave(*read, found@[j].0.address, found@[j].1@));
            }
            if check_cancelled matches Some(check) ==> !call_ensures(*check, (), true) {
                assert forall|c: int| 0 <= c < n implies (#[trigger] os[c]) is Read by {
                    assert(outcome_of_batch(os[c], batches[c], items@, *read, check_cancelled));
                }
                if no_whole_read_fails(*read, batches@) {
                    lemma_gathered_whole(os, batches@, items@, *read, check_cancelled, n);
                    assert forall|i: int| 0 <= i < items.len() implies (#[trigger] pairs[i]).0 == items[i] by {
                        assert(views[i].0 == items[i]);
                    }
                }
                assert forall|i: int| 0 <= i < items.len() implies paired(views, #[trigger] items@[i]) || excused(
                    *read,
                    batches@,
                    items@,
                    i,
                ) by {
                    lemma_batch_of(batches@, items@, n, i);
                    let b = choose|b: int|
                        0 <= b < n && (#[trigger] batches[b]).first_index() <= i < batches[b].end_index();
                    assert(outcome_of_batch(os[b], batches[b], items@, *read, check_cancelled));
                    let found = os[b]->Read_0;
                    let picked = choose|picked: Seq<int>| #[trigger]
                        pairs_pick(found@, items@, picked) && picks_within(
                            picked,
                            batches[b].first_index(),
                            batches[b].end_index(),
                        ) && picks_cover_batch(picked, batches[b], items@, *read);
                    if picked.contains(i) {
                        let j = choose|j: int| 0 <= j < picked.len() && picked[j] == i;
                        assert(found@[j].0 == items@[picked[j]]);
                        let pair = (found@[j].0, found@[j].1@);
                        assert(pair_in_outcome(os[b], j, pair));
                        lemma_gathered_complete(os, n, b, j, pair);
                        let k = choose|k: int| 0 <= k < views.len() && views[k] == pair;
                        assert(views[k].0 == items@[i]);
                    } else {
                        assert(excused(*read, batches@, items@, i));
                    }
                }
            }
        }
    }
    result
}

/// Whether `kept` is what a refinement keeps of `candidate` when `bytes`
/// were read at its address: the condition holds of the recorded value and
/// the value read, and `kept` is the item at the same address, of the same
/// type, with the value read.
pub open spec fn survivor_of(
    candidate: FuzzySearchResultItem,
    bytes: Seq<u8>,
    condition: FuzzyCondition,
    kept: FuzzySearchResultItem,
) -> bool {
    &&& candidate.matches_spec(bytes, condition)
    &&& kept == FuzzySearchResultItem::from_bytes_spec(candidate.address, bytes, candidate.value_type)
}

/// Whether every item of `set` is kept of some candidate of `items` at the
/// same address, judged by bytes that the reader can have given for it.
pub open spec fn refined<R: Fn(u64, usize) -> ReadOutcome>(
    set: Map<u64, FuzzySearchResultItem>,
    items: Seq<FuzzySearchResultItem>,
    condition: FuzzyCondition,
    read: R,
) -> bool {
    forall|address: u64| #[trigger]
        set.dom().contains(address) ==> exists|i: int, bytes: Seq<u8>|
            0 <= i < items.len() && items[i].address == address && #[trigger] survivor_of(
                items[i],
                bytes,
                condition,
                set[address],
            ) && read_gave(read, address, bytes)
}

/// Whether `set` accounts for candidate `i`: the set holds an item at its
/// address, or the candidate may be left out of the read, or the reader can
/// give bytes for it of which the condition does not hold.
pub open spec fn accounted<R: Fn(u64, usize) -> ReadOutcome>(
    set: Map<u64, FuzzySearchResultItem>,
    batches: Seq<AddressBatch>,
    items: Seq<FuzzySearchResultItem>,
    i: int,
    condition: FuzzyCondition,
    read: R,
) -> bool {
    ||| set.dom().contains(items[i].address)
    ||| excused(read, batches, items, i)
    ||| exists|bytes: Seq<u8>| #[trigger]
        read_gave(read, items[i].address, bytes) && !items[i].matches_spec(bytes, condition)
}

/// Whether `set` accounts for every candidate, the candidates clustered
/// into batches.
pub open spec fn all_accounted<R: Fn(u64, usize) -> ReadOutcome>(
    set: Map<u64, FuzzySearchResultItem>,
    items: Seq<FuzzySearchResultItem>,
    condition: FuzzyCondition,
    read: R,
) -> bool {
    exists|batches: Seq<AddressBatch>| #[trigger]
        clustering(batches, items) && forall|i: int|
            0 <= i < items.len() ==> #[trigger] accounted(set, batches, items, i, condition, read)
}

/// What a refinement keeps of one candidate: the item with the value read
/// now when the condition holds, nothing when it does not.
pub fn refine_pair(candidate: &FuzzySearchResultItem, current: &[u8], condition: FuzzyCondition) -> (kept: Option<
    FuzzySearchResultItem,
>)
    ensures
        kept == if candidate.matches_spec(current@, condition) {
            Some(FuzzySearchResultItem::from_bytes_spec(candidate.address, current@, candidate.value_type))
        } else {
            None
        },
{
    if candidate.matches_condition(current, condition) {
        Some(FuzzySearchResultItem::from_bytes(candidate.address, current, candidate.value_type))
    } else {
        None
    }
}

/// What a refinement decided of one candidate.
#[derive(Debug, Clone, Copy, PartialEq, Eq, Structural)]
pub enum Judgement {
    /// Cancellation was asked for before the candidate was judged.
    Skipped,
    /// The condition does not hold of the candidate.
    Dropped,
    /// The condition holds; the item with the value read now.
    Kept(FuzzySearchResultItem),
}

/// Whether `judgement` is one that judging `candidate` with the bytes
/// `current` can have, given what the cancellation query may return.
pub open spec fn judgement_of<F: Fn() -> bool>(
    judgement: Judgement,
    candidate: FuzzySearchResultItem,
    current: Seq<u8>,
    condition: FuzzyCondition,
    check_cancelled: Option<&F>,
) -> bool {
    match judgement {
        Judgement::Skipped => check_cancelled matches Some(check) && call_ensures(*check, (), true),
        Judgement::Dropped => {
            &&& check_cancelled matches Some(check) ==> call_ensures(*check, (), false)
            &&& !candidate.matches_spec(current, condition)
        },
        Judgement::Kept(kept) => {
            &&& check_cancelled matches Some(check) ==> call_ensures(*check, (), false)
            &&& survivor_of(candidate, current, condition, kept)
        },
    }
}

/// Judges one candidate: skipped when `check_cancelled` says yes, else kept
/// or dropped as `refine_pair` says.
pub fn judge_pair<F>(
    pair: &(FuzzySearchResultItem, Vec<u8>),
    condition: FuzzyCondition,
    check_cancelled: Option<&F>,
) -> (judgement: Judgement) where F: Fn() -> bool
    requires
        check_cancelled matches Some(check) ==> call_requires(*check, ()),
    ensures
        judgement_of(judgement, pair.0, pair.1@, condition, check_cancelled),
{
    if let Some(check) = check_cancelled {
        let asked: bool = check();
        if asked {
            return Judgement::Skipped;
        }
    }
    match refine_pair(&pair.0, pair.1.as_slice(), condition) {
        Some(kept) => Judgement::Kept(kept),
        None => Judgement::Dropped,
    }
}

/// `par_iter`, `map` and `collect` of rayon, with `judge_pair` as the
/// function that is mapped: one judgement per pair, in the order of the
/// pairs, each of them what `judge_pair` returns for that pair.
#[verifier::external_body]
fn judge_pairs_in_parallel<F>(
    pairs: &Vec<(FuzzySearchResultItem, Vec<u8>)>,
    condition: FuzzyCondition,
    check_cancelled: Option<&F>,
) -> (judgements: Vec<Judgement>) where F: Fn() -> bool + Sync
    requires
        check_cancelled matches Some(check) ==> call_requires(*check, ()),
    ensures
        judgements.len() == pairs.len(),
        forall|k: int|
            0 <= k < pairs.len() ==> call_ensures(
                judge_pair::<F>,
                (&pairs[k], condition, check_cancelled),
                #[trigger] judgements[k],
            ),
{
    pairs.par_iter().map(|pair| judge_pair(pair, condition, check_cancelled)).collect()
}

/// A refined set has no address that the candidates lack, and so no more
/// items than there are candidates.
pub proof fn lemma_refined_is_subset<R: Fn(u64, usize) -> ReadOutcome>(
    set: Map<u64, FuzzySearchResultItem>,
    items: Seq<FuzzySearchResultItem>,
    condition: FuzzyCondition,
    read: R,
)
    requires
        refined(set, items, condition, read),
    ensures
        forall|address: u64| set.dom().contains(address) ==> has_address(items, address),
        set.dom().finite(),
        set.len() <= items.len(),
{
    let addresses = items.map(|i: int, item: FuzzySearchResultItem| item.address);
    assert forall|address: u64| set.dom().contains(address) implies has_address(items, address)
        && addresses.to_set().contains(address) by {
        let (i, bytes) = choose|i: int, bytes: Seq<u8>|
            0 <= i < items.len() && items[i].address == address && #[trigger] survivor_of(
                items[i],
                bytes,
                condition,
                set[address],
            ) && read_gave(read, address, bytes);
        assert(items[i].address == address);
        assert(addresses[i] == address);
        assert(addresses.contains(address));
    }
    addresses.lemma_cardinality_of_set();
    assert forall|address: u64| set.dom().contains(address) implies addresses.to_set().contains(address) by {
        assert(has_address(items, address) && addresses.to_set().contains(address));
    }
    assert(set.dom().subset_of(addresses.to_set()));
    vstd::set_lib::lemma_len_subset(set.dom(), addresses.to_set());
}

/// The set that the first `n` judgements leave: the items kept, each under
/// its address, a later one in place of an earlier one at the same address.
pub open spec fn kept(judgements: Seq<Judgement>, n: nat) -> Map<u64, FuzzySearchResultItem>
    decreases n,
{
    if n == 0 {
        Map::empty()
    } else {
        match judgements[n - 1] {
            Judgement::Kept(item) => kept(judgements, (n - 1) as nat).insert(item.address, item),
            _ => kept(judgements, (n - 1) as nat),
        }
    }
}

/// The set of the items that the judgements kept.
pub fn collect_survivors(judgements: &Vec<Judgement>) -> (set: CandidateSet)
    ensures
        set@ == kept(judgements@, judgements.len() as nat),
{
    let mut results = CandidateSet::new();
    let mut k: usize = 0;
    assert(results@ =~= kept(judgements@, 0));
    while k < judgements.len()
        invariant
            k <= judgements.len(),
            results@ == kept(judgements@, k as nat),
        decreases judgements.len() - k,
    {
        match judgements[k] {
            Judgement::Kept(item) => {
                results.insert(item);
            },
            _ => {},
        }
        assert(results@ =~= kept(judgements@, (k + 1) as nat));
        k = k + 1;
    }
    results
}

/// Every item of the set was kept by one of the judgements, under its own
/// address.
pub proof fn lemma_kept_sound(judgements: Seq<Judgement>, n: nat, address: u64)
    requires
        n <= judgements.len(),
        kept(judgements, n).dom().contains(address),
    ensures
        kept(judgements, n)[address].address == address,
        exists|k: int| 0 <= k < n && #[trigger] judgements[k] == Judgement::Kept(kept(judgements, n)[address]),
    decreases n,
{
    if n > 0 {
        match judgements[n - 1] {
            Judgement::Kept(item) => {
                if item.address == address {
                    assert(judgements[n - 1] == Judgement::Kept(kept(judgements, n)[address]));
                } else {
                    lemma_kept_sound(judgements, (n - 1) as nat, address);
                }
            },
            _ => {
                lemma_kept_sound(judgements, (n - 1) as nat, address);
            },
        }
    }
}

/// The address of every item that a judgement kept is in the set.
pub proof fn lemma_kept_complete(judgements: Seq<Judgement>, n: nat, k: int)
    requires
        n <= judgements.len(),
        0 <= k < n,
        judgements[k] is Kept,
    ensures
        kept(judgements, n).dom().contains(judgements[k]->Kept_0.address),
    decreases n,
{
    if k < n - 1 {
        lemma_kept_complete(judgements, (n - 1) as nat, k);
    }
}

/// Judgements of which some were skipped keep no address that the
/// judgements without the skipping keep: a refinement that is cancelled
/// returns no item at an address that the same refinement, not cancelled,
/// leaves out.
pub proof fn lemma_skipping_keeps_fewer(whole: Seq<Judgement>, cut: Seq<Judgement>, n: nat)
    requires
        n <= whole.len(),
        cut.len() == whole.len(),
        forall|k: int| 0 <= k < n ==> (#[trigger] cut[k]) == whole[k] || cut[k] is Skipped,
    ensures
        kept(cut, n).dom().subset_of(kept(whole, n).dom()),
    decreases n,
{
    if n > 0 {
        lemma_skipping_keeps_fewer(whole, cut, (n - 1) as nat);
        assert(cut[n - 1] == whole[n - 1] || cut[n - 1] is Skipped);
    }
}

/// Reads the candidates again and keeps those of which `condition` holds,
/// each with the value read now.
///
/// A run without candidates returns the empty set and touches nothing.
/// The candidates are clustered and read as `parallel_batch_read` says,
/// each pair is judged as `judge_pair` says, and the items kept are
/// collected as `collect_survivors` says. At the end the number found is
/// the size of the set returned, and `update_progress` is told so.
pub fn fuzzy_refine_search<R, P, F>(
    items: &Vec<FuzzySearchResultItem>,
    condition: FuzzyCondition,
    counters: &mut ScanCounters,
    read: &R,
    update_progress: &P,
    check_cancelled: Option<&F>,
) -> (result: Result<CandidateSet, ScanError>) where
    R: Fn(u64, usize) -> ReadOutcome + Sync,
    P: Fn(usize, usize),
    F: Fn() -> bool + Sync,

    requires
        clusterable(items@),
        forall|addr: u64, len: usize| call_requires(*read, (addr, len)),
        forall|processed: usize, found: usize| call_requires(*update_progress, (processed, found)),
        check_cancelled matches Some(check) ==> call_requires(*check, ()),
    ensures
        items.len() == 0 ==> (result matches Ok(set) && set@.dom() == Set::<u64>::empty()
            && *final(counters) == *old(counters)),
        result matches Ok(set) ==> refined(set@, items@, condition, *read) && set@.len() <= items.len(),
        (result matches Ok(set) && (check_cancelled matches Some(check) ==> !call_ensures(*check, (), true)))
            ==> (result matches Ok(set) && all_accounted(set@, items@, condition, *read)),
        (check_cancelled matches Some(check) && !call_ensures(*check, (), false)) ==> (result matches Ok(set)
            && set@.dom() == Set::<u64>::empty() && final(counters).processed == old(counters).processed),
        result matches Ok(set) ==> (items.len() > 0 ==> final(counters).found == set@.len()),
        result is Err ==> final(counters).found == old(counters).found,
        result is Err ==> exists|addr: u64, len: usize|
            call_ensures(*read, (addr, len), ReadOutcome::Unavailable),
        old(counters).processed + items.len() <= usize::MAX ==> old(counters).processed
            <= final(counters).processed <= old(counters).processed + items.len(),
        (result is Ok && (check_cancelled matches Some(check) ==> !call_ensures(*check, (), true))
            && old(counters).processed + items.len() <= usize::MAX) ==> final(counters).processed
            == old(counters).processed + items.len(),
{
    if items.len() == 0 {
        let nothing = Ok(CandidateSet::new());
        assert(clustering(Seq::<AddressBatch>::empty(), items@));
        assert(all_accounted(nothing->Ok_0@, items@, condition, *read));
        return nothing;
    }
    let total_items: usize = items.len();
    let batches = cluster_addresses(items.as_slice());
    let pairs = match parallel_batch_read(
        batches.as_slice(),
        items.as_slice(),
        counters,
        read,
        update_progress,
        check_cancelled,
    ) {
        Ok(pairs) => pairs,
        Err(error) => {
            return Err(error);
        },
    };
    let judgements = judge_pairs_in_parallel(&pairs, condition, check_cancelled);
    let results = collect_survivors(&judgements);
    proof {
        let js = judgements@;
        let n = js.len() as nat;
        let views = pair_views(pairs@);
        assert forall|address: u64| #[trigger] results@.dom().contains(address) implies exists|
            i: int,
            bytes: Seq<u8>,
        |
            0 <= i < items.len() && items[i].address == address && #[trigger] survivor_of(
                items[i],
                bytes,
                condition,
                results@[address],
            ) && read_gave(*read, address, bytes) by {
            lemma_kept_sound(js, n, address);
            let k = choose|k: int| 0 <= k < n && #[trigger] js[k] == Judgement::Kept(results@[address]);
            assert(judgement_of(js[k], pairs[k].0, pairs[k].1@, condition, check_cancelled));
            assert(pair_sound(views[k], items@, *read));
            let i = choose|i: int| 0 <= i < items.len() && #[trigger] items[i] == views[k].0;
            assert(survivor_of(items[i], pairs[k].1@, condition, results@[address]));
        }
        lemma_refined_is_subset(results@, items@, condition, *read);
        if check_cancelled matches Some(check) ==> !call_ensures(*check, (), true) {
            assert forall|i: int| 0 <= i < items.len() implies #[trigger] accounted(
                results@,
                batches@,
                items@,
                i,
                condition,
                *read,
            ) by {
                assert(paired(views, items@[i]) || excused(*read, batches@, items@, i));
                if paired(views, items@[i]) {
                    let k = choose|k: int| 0 <= k < views.len() && (#[trigger] views[k]).0 == items@[i];
                    assert(judgement_of(js[k], pairs[k].0, pairs[k].1@, condition, check_cancelled));
                    assert(pair_sound(views[k], items@, *read));
                    if js[k] is Kept {
                        lemma_kept_complete(js, n, k);
                    }
                }
            }
            assert(clustering(batches@, items@));
        }
        if check_cancelled matches Some(check) && !call_ensures(*check, (), false) {
            assert(results@.dom() =~= Set::<u64>::empty());
        }
    }
    counters.found = results.len();
    update_progress(total_items, counters.found);
    Ok(results)
}

} // verus!
