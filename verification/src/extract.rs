//! Extraction of items from one chunk of memory: for each page that was
//! read, every aligned value inside the page and the search range.

use crate::candidates::{has_address, strictly_ascending};
use crate::value::{FuzzySearchResultItem, ValueType};
use rayon::iter::{IntoParallelRefIterator, ParallelIterator};
use vstd::prelude::*;
use vstd::slice::slice_subrange;

verus! {

/// One flag per page of a chunk: whether the page was read.
#[derive(Debug)]
pub struct PageStatusBitmap {
    flags: Vec<bool>,
    base_addr: u64,
}

impl PageStatusBitmap {
    /// The address of the first page, and the flags page by page.
    pub open spec fn view(self) -> (u64, Seq<bool>) {
        (self.base(), self.flags())
    }

    /// The flags, page by page.
    pub closed spec fn flags(self) -> Seq<bool> {
        self.flags@
    }

    /// Address of the first page.
    pub closed spec fn base(self) -> u64 {
        self.base_addr
    }

    /// Flags for the pages that `byte_len` bytes from `base_addr` on reach
    /// into, none of them read yet.
    pub fn new(byte_len: usize, base_addr: u64, page_size: usize) -> (bitmap: PageStatusBitmap)
        requires
            page_size > 0,
        ensures
            bitmap.base() == base_addr,
            bitmap.flags().len() == pages_for(byte_len as int, page_size as int),
            forall|i: int| 0 <= i < bitmap.flags().len() ==> !bitmap.flags()[i],
    {
        let whole: usize = byte_len / page_size;
        proof {
            vstd::arithmetic::div_mod::lemma_fundamental_div_mod(byte_len as int, page_size as int);
            assert(page_size * whole >= whole) by (nonlinear_arith)
                requires
                    page_size >= 1,
                    whole >= 0,
            ;
        }
        let pages: usize = if byte_len % page_size == 0 {
            whole
        } else {
            whole + 1
        };
        let mut flags: Vec<bool> = Vec::new();
        let mut i: usize = 0;
        while i < pages
            invariant
                i <= pages,
                flags.len() == i,
                forall|k: int| 0 <= k < i ==> !flags[k],
            decreases pages - i,
        {
            flags.push(false);
            i = i + 1;
        }
        PageStatusBitmap { flags, base_addr }
    }

    /// Records that page `index` was read. An index past the last page
    /// records nothing.
    pub fn mark_success(&mut self, index: usize)
        ensures
            final(self).base() == old(self).base(),
            final(self).flags() == if index < old(self).flags().len() {
                old(self).flags().update(index as int, true)
            } else {
                old(self).flags()
            },
    {
        if index < self.flags.len() {
            self.flags.set(index, true);
        }
    }

    /// Address of the first page.
    pub fn base_addr(&self) -> (base: u64)
        ensures
            base == self.base(),
    {
        self.base_addr
    }

    /// Number of pages.
    pub fn num_pages(&self) -> (n: usize)
        ensures
            n == self.flags().len(),
    {
        self.flags.len()
    }

    /// Whether page `index` was read; no page past the last one was.
    pub fn is_page_success(&self, index: usize) -> (read: bool)
        ensures
            read == (index < self.flags().len() && self.flags()[index as int]),
    {
        index < self.flags.len() && self.flags[index]
    }

    /// Number of pages that were read.
    pub fn success_count(&self) -> (n: usize)
        ensures
            n == count_read(self.flags()),
    {
        let mut n: usize = 0;
        let mut i: usize = 0;
        while i < self.flags.len()
            invariant
                i <= self.flags.len(),
                n <= i,
                n == count_read(self.flags@.subrange(0, i as int)),
            decreases self.flags.len() - i,
        {
            assert(self.flags@.subrange(0, i + 1).drop_last() =~= self.flags@.subrange(0, i as int));
            if self.flags[i] {
                n = n + 1;
            }
            i = i + 1;
        }
        assert(self.flags@.subrange(0, i as int) =~= self.flags@);
        n
    }
}

/// Number of pages of `page_size` bytes that `byte_len` bytes reach into.
pub open spec fn pages_for(byte_len: int, page_size: int) -> int {
    if byte_len % page_size == 0 {
        byte_len / page_size
    } else {
        byte_len / page_size + 1
    }
}

/// Number of flags that are set.
pub open spec fn count_read(flags: Seq<bool>) -> nat
    decreases flags.len(),
{
    if flags.len() == 0 {
        0
    } else {
        count_read(flags.drop_last()) + if flags.last() {
            1nat
        } else {
            0nat
        }
    }
}

/// Whether `address` is a multiple of `size`.
pub open spec fn aligned(address: int, size: int) -> bool {
    address % size == 0
}

/// Whether a value of `size` bytes at `address` is one that page `page` of
/// the chunk yields: the address is a multiple of the size, and the value
/// lies inside the page, inside the search range from `search_start` up to
/// `search_end`, and inside the `chunk_len` bytes that the chunk holds from
/// `chunk_addr` on.
pub open spec fn in_page(
    chunk_len: int,
    chunk_addr: int,
    search_start: int,
    search_end: int,
    size: int,
    page_size: int,
    page: int,
    address: int,
) -> bool {
    &&& aligned(address, size)
    &&& chunk_addr + page * page_size <= address
    &&& address + size <= chunk_addr + page * page_size + page_size
    &&& search_start <= address
    &&& address + size <= search_end
    &&& address + size <= chunk_addr + chunk_len
}

/// The item that the chunk holds at `address`.
pub open spec fn item_at(chunk: Seq<u8>, chunk_addr: u64, address: u64, value_type: ValueType) -> FuzzySearchResultItem {
    FuzzySearchResultItem::from_bytes_spec(
        address,
        chunk.subrange(address - chunk_addr, address - chunk_addr + value_type.size_spec()),
        value_type,
    )
}

/// Whether a value at `address` is one that some page of the chunk that was
/// read yields.
pub open spec fn in_read_page(
    chunk_len: int,
    chunk_addr: int,
    search_start: int,
    search_end: int,
    size: int,
    page_size: int,
    pages: Seq<bool>,
    address: int,
) -> bool {
    exists|page: int|
        0 <= page < pages.len() && pages[page] && #[trigger] in_page(
            chunk_len,
            chunk_addr,
            search_start,
            search_end,
            size,
            page_size,
            page,
            address,
        )
}

/// Whether a value at `address` is one that one of the first `upto` pages
/// listed in `pages` yields.
pub open spec fn in_listed_page(
    chunk_len: int,
    chunk_addr: int,
    search_start: int,
    search_end: int,
    size: int,
    page_size: int,
    pages: Seq<usize>,
    upto: int,
    address: int,
) -> bool {
    exists|j: int|
        0 <= j < upto && #[trigger] in_page(
            chunk_len,
            chunk_addr,
            search_start,
            search_end,
            size,
            page_size,
            pages[j] as int,
            address,
        )
}

/// Whether `items` holds an item at every address that page `page` yields.
pub open spec fn holds_page(
    items: Seq<FuzzySearchResultItem>,
    chunk_len: int,
    chunk_addr: int,
    search_start: int,
    search_end: int,
    size: int,
    page_size: int,
    page: int,
) -> bool {
    forall|address: u64|
        #[trigger] in_page(
            chunk_len,
            chunk_addr,
            search_start,
            search_end,
            size,
            page_size,
            page,
            address as int,
        ) ==> has_address(items, address)
}

/// Whether `items` holds an item at every address that a page that was
/// read yields.
pub open spec fn holds_read_pages(
    items: Seq<FuzzySearchResultItem>,
    chunk_len: int,
    chunk_addr: int,
    search_start: int,
    search_end: int,
    size: int,
    page_size: int,
    pages: Seq<bool>,
) -> bool {
    forall|address: u64|
        #[trigger] in_read_page(
            chunk_len,
            chunk_addr,
            search_start,
            search_end,
            size,
            page_size,
            pages,
            address as int,
        ) ==> has_address(items, address)
}

/// Between a multiple of a value size and the next one lies no multiple.
proof fn lemma_no_multiple_between(size: int, low: int, address: int)
    requires
        size == 1 || size == 2 || size == 4 || size == 8,
        0 <= low,
        low % size == 0,
        low < address < low + size,
    ensures
        address % size != 0,
{
    if size == 2 {
        assert(low % 2 == 0 && address == low + 1);
    } else if size == 4 {
        assert(low % 4 == 0);
    } else if size == 8 {
        assert(low % 8 == 0);
    }
}

/// Rounding up reaches the first multiple of a value size.
proof fn lemma_round_up(size: int, low: int, pad: int)
    requires
        size == 1 || size == 2 || size == 4 || size == 8,
        0 <= low,
        pad == if low % size == 0 {
            0
        } else {
            size - low % size
        },
    ensures
        (low + pad) % size == 0,
        forall|address: int| low <= address < low + pad ==> !#[trigger] aligned(address, size),
{
    if size == 2 {
        assert((low + pad) % 2 == 0);
    } else if size == 4 {
        assert((low + pad) % 4 == 0);
        assert forall|address: int| low <= address < low + pad implies !#[trigger] aligned(address, 4) by {}
    } else if size == 8 {
        assert((low + pad) % 8 == 0);
        assert forall|address: int| low <= address < low + pad implies !#[trigger] aligned(address, 8) by {}
    }
}

/// The next multiple of a value size is a multiple.
proof fn lemma_step_multiple(size: int, address: int)
    requires
        size == 1 || size == 2 || size == 4 || size == 8,
        0 <= address,
        address % size == 0,
    ensures
        (address + size) % size == 0,
{
    if size == 2 {
        assert((address + 2) % 2 == 0);
    } else if size == 4 {
        assert((address + 4) % 4 == 0);
    } else if size == 8 {
        assert((address + 8) % 8 == 0);
    }
}

/// The items of one page of a chunk: every aligned value that lies inside
/// the page, the search range and the chunk, in ascending address order.
pub fn scan_single_page(
    buffer: &[u8],
    buffer_addr: u64,
    search_start: u64,
    search_end: u64,
    value_type: ValueType,
    page_size: usize,
    page_idx: usize,
) -> (items: Vec<FuzzySearchResultItem>)
    requires
        buffer_addr + buffer.len() <= u64::MAX,
    ensures
        strictly_ascending(items@),
        forall|i: int|
            0 <= i < items.len() ==> in_page(
                buffer.len() as int,
                buffer_addr as int,
                search_start as int,
                search_end as int,
                value_type.size_spec() as int,
                page_size as int,
                page_idx as int,
                #[trigger] items[i].address as int,
            ) && items[i] == item_at(buffer@, buffer_addr, items[i].address, value_type),
        holds_page(
            items@,
            buffer.len() as int,
            buffer_addr as int,
            search_start as int,
            search_end as int,
            value_type.size_spec() as int,
            page_size as int,
            page_idx as int,
        ),
{
    let size: usize = value_type.size();
    let mut items: Vec<FuzzySearchResultItem> = Vec::new();
    if page_size == 0 {
        return items;
    }
    let rel: usize = match page_idx.checked_mul(page_size) {
        Some(rel) => rel,
        None => {
            return items;
        },
    };
    if rel >= buffer.len() {
        return items;
    }
    let page_lo: u64 = buffer_addr + rel as u64;
    let rel_hi: usize = if page_size >= buffer.len() - rel {
        buffer.len()
    } else {
        rel + page_size
    };
    let page_hi: u64 = buffer_addr + rel_hi as u64;
    let hi: u64 = if page_hi < search_end {
        page_hi
    } else {
        search_end
    };
    let lo: u64 = if page_lo > search_start {
        page_lo
    } else {
        search_start
    };
    if lo >= hi {
        return items;
    }
    let rem: u64 = lo % (size as u64);
    let pad: u64 = if rem == 0 {
        0
    } else {
        size as u64 - rem
    };
    if hi - lo < pad {
        proof {
            lemma_round_up(size as int, lo as int, pad as int);
        }
        return items;
    }
    let first: u64 = lo + pad;
    let mut addr: u64 = first;
    proof {
        lemma_round_up(size as int, lo as int, pad as int);
    }
    while hi - addr >= size as u64
        invariant
            size == value_type.size_spec(),
            size == 1 || size == 2 || size == 4 || size == 8,
            buffer_addr + buffer.len() <= u64::MAX,
            rel == page_idx * page_size,
            page_lo == buffer_addr + rel,
            lo == if page_lo > search_start {
                page_lo
            } else {
                search_start
            },
            buffer_addr + rel < hi,
            hi <= buffer_addr + buffer.len(),
            hi <= search_end,
            hi <= buffer_addr + rel + page_size,
            hi == search_end || hi == buffer_addr + buffer.len() || hi == buffer_addr + rel
                + page_size,
            lo <= first <= addr <= hi,
            addr % (size as u64) == 0,
            forall|address: int| lo <= address < first ==> !#[trigger] aligned(address, size as int),
            strictly_ascending(items@),
            forall|i: int| 0 <= i < items.len() ==> (#[trigger] items[i].address) < addr,
            forall|i: int|
                0 <= i < items.len() ==> in_page(
                    buffer.len() as int,
                    buffer_addr as int,
                    search_start as int,
                    search_end as int,
                    size as int,
                    page_size as int,
                    page_idx as int,
                    #[trigger] items[i].address as int,
                ) && items[i] == item_at(buffer@, buffer_addr, items[i].address, value_type),
            forall|address: u64|
                address < addr && #[trigger] in_page(
                    buffer.len() as int,
                    buffer_addr as int,
                    search_start as int,
                    search_end as int,
                    size as int,
                    page_size as int,
                    page_idx as int,
                    address as int,
                ) ==> has_address(items@, address),
        decreases hi - addr,
    {
        let offset: usize = (addr - buffer_addr) as usize;
        let item = FuzzySearchResultItem::from_bytes(
            addr,
            slice_subrange(buffer, offset, offset + size),
            value_type,
        );
        let ghost before = items@;
        items.push(item);
        proof {
            lemma_step_multiple(size as int, addr as int);
            assert(items[before.len() as int].address == addr);
            assert forall|address: u64|
                address < addr + size && #[trigger] in_page(
                    buffer.len() as int,
                    buffer_addr as int,
                    search_start as int,
                    search_end as int,
                    size as int,
                    page_size as int,
                    page_idx as int,
                    address as int,
                ) implies has_address(items@, address) by {
                if address < addr {
                    let i = choose|i: int| 0 <= i < before.len() && #[trigger] before[i].address == address;
                    assert(items[i].address == address);
                } else if address > addr {
                    lemma_no_multiple_between(size as int, addr as int, address as int);
                }
            }
        }
        addr = addr + size as u64;
    }
    proof {
        assert forall|address: u64|
            #[trigger] in_page(
                buffer.len() as int,
                buffer_addr as int,
                search_start as int,
                search_end as int,
                size as int,
                page_size as int,
                page_idx as int,
                address as int,
            ) implies has_address(items@, address) by {
            assert(address + size <= hi);
        }
    }
    items
}

/// `par_iter`, `map` and `collect` of rayon, with `scan_single_page` as the
/// function that is mapped: one output per page index, in the order of the
/// indices, each of them what `scan_single_page` returns for that page.
#[verifier::external_body]
fn scan_pages_in_parallel(
    pages: &Vec<usize>,
    buffer: &[u8],
    buffer_addr: u64,
    search_start: u64,
    search_end: u64,
    value_type: ValueType,
    page_size: usize,
) -> (per_page: Vec<Vec<FuzzySearchResultItem>>)
    requires
        buffer_addr + buffer.len() <= u64::MAX,
    ensures
        per_page.len() == pages.len(),
        forall|k: int|
            0 <= k < pages.len() ==> call_ensures(
                scan_single_page,
                (buffer, buffer_addr, search_start, search_end, value_type, page_size, pages[k]),
                #[trigger] per_page[k],
            ),
{
    pages.par_iter().map(
        |page| scan_single_page(buffer, buffer_addr, search_start, search_end, value_type, page_size, *page),
    ).collect()
}

/// The items of a chunk: for each page that was read, in page order, the
/// items of that page. Pages that were not read yield nothing.
pub fn scan_buffer_parallel(
    buffer: &[u8],
    buffer_addr: u64,
    region_start: u64,
    region_end: u64,
    value_type: ValueType,
    page_size: usize,
    page_status: &PageStatusBitmap,
) -> (items: Vec<FuzzySearchResultItem>)
    requires
        buffer_addr + buffer.len() <= u64::MAX,
    ensures
        strictly_ascending(items@),
        forall|i: int|
            0 <= i < items.len() ==> in_read_page(
                buffer.len() as int,
                buffer_addr as int,
                region_start as int,
                region_end as int,
                value_type.size_spec() as int,
                page_size as int,
                page_status.flags(),
                #[trigger] items[i].address as int,
            ) && items[i] == item_at(buffer@, buffer_addr, items[i].address, value_type),
        holds_read_pages(
            items@,
            buffer.len() as int,
            buffer_addr as int,
            region_start as int,
            region_end as int,
            value_type.size_spec() as int,
            page_size as int,
            page_status.flags(),
        ),
{
    let num_pages: usize = page_status.num_pages();
    let mut pages: Vec<usize> = Vec::new();
    let mut p: usize = 0;
    while p < num_pages
        invariant
            p <= num_pages,
            num_pages == page_status.flags().len(),
            forall|k: int| 0 <= k < pages.len() ==> (#[trigger] pages[k]) < p && page_status.flags()[pages[k] as int],
            forall|k: int, l: int| 0 <= k < l < pages.len() ==> pages[k] < pages[l],
            forall|q: int|
                0 <= q < p && page_status.flags()[q] ==> exists|k: int|
                    0 <= k < pages.len() && #[trigger] pages[k] == q,
        decreases num_pages - p,
    {
        if page_status.is_page_success(p) {
            let ghost before = pages@;
            pages.push(p);
            proof {
                assert forall|q: int| 0 <= q < p + 1 && page_status.flags()[q] implies exists|k: int|
                    0 <= k < pages.len() && #[trigger] pages[k] == q by {
                    if q < p {
                        let k = choose|k: int| 0 <= k < before.len() && #[trigger] before[k] == q;
                        assert(pages[k] == q);
                    } else {
                        assert(pages[before.len() as int] == q);
                    }
                }
            }
        }
        p = p + 1;
    }
    let per_page = scan_pages_in_parallel(
        &pages,
        buffer,
        buffer_addr,
        region_start,
        region_end,
        value_type,
        page_size,
    );
    let mut items: Vec<FuzzySearchResultItem> = Vec::new();
    let mut k: usize = 0;
    while k < per_page.len()
        invariant
            k <= per_page.len(),
            per_page.len() == pages.len(),
            buffer_addr + buffer.len() <= u64::MAX,
            forall|j: int|
                0 <= j < pages.len() ==> (#[trigger] pages[j]) < page_status.flags().len()
                    && page_status.flags()[pages[j] as int],
            forall|j: int, l: int| 0 <= j < l < pages.len() ==> pages[j] < pages[l],
            forall|j: int|
                0 <= j < pages.len() ==> call_ensures(
                    scan_single_page,
                    (buffer, buffer_addr, region_start, region_end, value_type, page_size, pages[j]),
                    #[trigger] per_page[j],
                ),
            strictly_ascending(items@),
            forall|i: int|
                0 <= i < items.len() ==> in_listed_page(
                    buffer.len() as int,
                    buffer_addr as int,
                    region_start as int,
                    region_end as int,
                    value_type.size_spec() as int,
                    page_size as int,
                    pages@,
                    k as int,
                    #[trigger] items[i].address as int,
                ),
            forall|i: int|
                0 <= i < items.len() ==> (#[trigger] items[i]) == item_at(
                    buffer@,
                    buffer_addr,
                    items[i].address,
                    value_type,
                ),
            forall|j: int, address: u64|
                0 <= j < k && #[trigger] in_page(
                    buffer.len() as int,
                    buffer_addr as int,
                    region_start as int,
                    region_end as int,
                    value_type.size_spec() as int,
                    page_size as int,
                    pages[j] as int,
                    address as int,
                ) ==> has_address(items@, address),
        decreases per_page.len() - k,
    {
        let found = &per_page[k];
        let ghost before = items@;
        let mut m: usize = 0;
        while m < found.len()
            invariant
                m <= found.len(),
                items@ == before + found@.subrange(0, m as int),
            decreases found.len() - m,
        {
            items.push(found[m]);
            assert(found@.subrange(0, m + 1) =~= found@.subrange(0, m as int).push(found@[m as int]));
            m = m + 1;
        }
        proof {
            assert(found@.subrange(0, m as int) =~= found@);
            assert(items@ =~= before + found@);
            let bl = before.len() as int;
            assert forall|a: int, b: int| 0 <= a < b < items.len() implies items[a].address < items[b].address by {
                if b >= bl && a < bl {
                    let j = choose|j: int|
                        0 <= j < k && #[trigger] in_page(
                            buffer.len() as int,
                            buffer_addr as int,
                            region_start as int,
                            region_end as int,
                            value_type.size_spec() as int,
                            page_size as int,
                            pages[j] as int,
                            before[a].address as int,
                        );
                    assert(items[b] == found[b - bl]);
                    assert(pages[j] < pages[k as int]);
                    lemma_pages_apart(page_size as int, pages[j] as int, pages[k as int] as int);
                } else if a >= bl {
                    assert(items[a] == found[a - bl] && items[b] == found[b - bl]);
                }
            }
            assert forall|i: int| 0 <= i < items.len() implies in_listed_page(
                buffer.len() as int,
                buffer_addr as int,
                region_start as int,
                region_end as int,
                value_type.size_spec() as int,
                page_size as int,
                pages@,
                k + 1,
                #[trigger] items[i].address as int,
            ) by {
                if i < bl {
                    assert(items[i] == before[i]);
                    let j = choose|j: int|
                        0 <= j < k && #[trigger] in_page(
                            buffer.len() as int,
                            buffer_addr as int,
                            region_start as int,
                            region_end as int,
                            value_type.size_spec() as int,
                            page_size as int,
                            pages[j] as int,
                            before[i].address as int,
                        );
                } else {
                    assert(items[i] == found[i - bl]);
                    assert(in_page(
                        buffer.len() as int,
                        buffer_addr as int,
                        region_start as int,
                        region_end as int,
                        value_type.size_spec() as int,
                        page_size as int,
                        pages[k as int] as int,
                        items[i].address as int,
                    ));
                }
            }
            assert forall|i: int| 0 <= i < items.len() implies (#[trigger] items[i]) == item_at(
                buffer@,
                buffer_addr,
                items[i].address,
                value_type,
            ) by {
                if i < bl {
                    assert(items[i] == before[i]);
                } else {
                    assert(items[i] == found[i - bl]);
                }
            }
            assert forall|j: int, address: u64|
                0 <= j < k + 1 && #[trigger] in_page(
                    buffer.len() as int,
                    buffer_addr as int,
                    region_start as int,
                    region_end as int,
                    value_type.size_spec() as int,
                    page_size as int,
                    pages[j] as int,
                    address as int,
                ) implies has_address(items@, address) by {
                if j < k {
                    let i = choose|i: int| 0 <= i < before.len() && #[trigger] before[i].address == address;
                    assert(items[i] == before[i]);
                } else {
                    assert(j == k);
                    assert(*found == per_page[k as int]);
                    assert(in_page(
                        buffer.len() as int,
                        buffer_addr as int,
                        region_start as int,
                        region_end as int,
                        value_type.size_spec() as int,
                        page_size as int,
                        pages[k as int] as int,
                        address as int,
                    ));
                    assert(has_address(found@, address));
                    let i = choose|i: int| 0 <= i < found.len() && #[trigger] found[i].address == address;
                    assert(items[bl + i] == found[i]);
                }
            }
        }
        k = k + 1;
    }
    proof {
        assert forall|i: int| 0 <= i < items.len() implies in_read_page(
            buffer.len() as int,
            buffer_addr as int,
            region_start as int,
            region_end as int,
            value_type.size_spec() as int,
            page_size as int,
            page_status.flags(),
            #[trigger] items[i].address as int,
        ) by {
            let j = choose|j: int|
                0 <= j < k && #[trigger] in_page(
                    buffer.len() as int,
                    buffer_addr as int,
                    region_start as int,
                    region_end as int,
                    value_type.size_spec() as int,
                    page_size as int,
                    pages[j] as int,
                    items[i].address as int,
                );
            assert(page_status.flags()[pages[j] as int]);
        }
        assert forall|address: u64|
            #[trigger] in_read_page(
                buffer.len() as int,
                buffer_addr as int,
                region_start as int,
                region_end as int,
                value_type.size_spec() as int,
                page_size as int,
                page_status.flags(),
                address as int,
            ) implies has_address(items@, address) by {
            let q = choose|q: int|
                0 <= q < page_status.flags().len() && page_status.flags()[q] && #[trigger] in_page(
                    buffer.len() as int,
                    buffer_addr as int,
                    region_start as int,
                    region_end as int,
                    value_type.size_spec() as int,
                    page_size as int,
                    q,
                    address as int,
                );
            let j = choose|j: int| 0 <= j < pages.len() && #[trigger] pages[j] == q;
            assert(pages[j] as int == q);
        }
    }
    items
}

/// A page with a lower index ends where a page with a higher index begins,
/// or before.
proof fn lemma_pages_apart(page_size: int, low: int, high: int)
    requires
        0 <= page_size,
        0 <= low < high,
    ensures
        low * page_size + page_size <= high * page_size,
{
    assert(low * page_size + page_size <= high * page_size) by (nonlinear_arith)
        requires
            0 <= page_size,
            0 <= low < high,
    ;
}

} // verus!
