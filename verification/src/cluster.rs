//! Clustering of candidate addresses into batches that one read can serve.

use crate::value::FuzzySearchResultItem;
use vstd::prelude::*;

verus! {

/// Largest gap, in bytes, between the end of a batch and the next address
/// that still joins it.
pub const BATCH_MAX_GAP: u64 = 4096;

/// Largest number of bytes that a batch of more than one item spans.
pub const BATCH_MAX_SIZE: usize = 65536;

/// One item of a batch: where its bytes lie in the batch, and which item of
/// the clustered list it is.
#[derive(Debug, Clone, Copy)]
pub struct BatchItemRef {
    pub offset: usize,
    pub item_index: usize,
    pub value_size: usize,
}

/// A run of consecutive items of the clustered list, read together.
#[derive(Debug)]
pub struct AddressBatch {
    pub start_addr: u64,
    pub total_size: usize,
    pub items: Vec<BatchItemRef>,
}

/// The address just past the value of `item`.
pub open spec fn item_end(item: FuzzySearchResultItem) -> int {
    item.address + item.value_type.size_spec()
}

/// Whether `items` is in address order: addresses do not decrease along
/// the list, and every value ends inside the address space.
pub open spec fn address_ordered(items: Seq<FuzzySearchResultItem>) -> bool {
    &&& forall|i: int, j: int|
        0 <= i < j < items.len() ==> (#[trigger] items[i]).address <= (#[trigger] items[j]).address
    &&& forall|i: int| 0 <= i < items.len() ==> item_end(#[trigger] items[i]) <= u64::MAX
}

/// Whether the bytes of `items` can be cut out of batches: the list is in
/// address order, and no value ends behind a later one, so that a batch
/// ends with its last value.
pub open spec fn clusterable(items: Seq<FuzzySearchResultItem>) -> bool {
    &&& address_ordered(items)
    &&& forall|i: int, j: int|
        0 <= i < j < items.len() ==> item_end(#[trigger] items[i]) <= item_end(#[trigger] items[j])
}

/// Whether `item` joins a batch that starts at `start` and spans `total`
/// bytes: the gap behind the batch is at most `BATCH_MAX_GAP`, and with the
/// item the batch spans at most `BATCH_MAX_SIZE` bytes.
pub open spec fn joins(start: int, total: int, item: FuzzySearchResultItem) -> bool {
    &&& item.address - (start + total) <= BATCH_MAX_GAP
    &&& item_end(item) - start <= BATCH_MAX_SIZE
}

/// Whether a batch with these parts is a run of `items`: its references
/// name consecutive items from the first on, with their sizes and their
/// offsets from the first address; it spans up to the end of its last
/// value; and each item after the first joined what came before it.
pub open spec fn run_of(
    start_addr: u64,
    total_size: usize,
    refs: Seq<BatchItemRef>,
    items: Seq<FuzzySearchResultItem>,
) -> bool {
    &&& refs.len() > 0
    &&& refs[0].item_index + refs.len() <= items.len()
    &&& start_addr == items[refs[0].item_index as int].address
    &&& total_size == item_end(items[refs[0].item_index + refs.len() - 1]) - start_addr
    &&& forall|k: int|
        0 <= k < refs.len() ==> {
            &&& (#[trigger] refs[k]).item_index == refs[0].item_index + k
            &&& refs[k].value_size == items[refs[0].item_index + k].value_type.size_spec()
            &&& refs[k].offset == items[refs[0].item_index + k].address - start_addr
        }
    &&& forall|k: int|
        1 <= k < refs.len() ==> joins(
            start_addr as int,
            item_end(items[refs[0].item_index + k - 1]) - start_addr,
            #[trigger] items[refs[0].item_index + k],
        )
}

impl AddressBatch {
    /// Whether the batch is a run of `items`.
    pub open spec fn is_run_of(self, items: Seq<FuzzySearchResultItem>) -> bool {
        run_of(self.start_addr, self.total_size, self.items@, items)
    }

    /// Index of the batch's first item in the clustered list.
    pub open spec fn first_index(self) -> int {
        self.items@[0].item_index as int
    }

    /// Index just past the batch's last item in the clustered list.
    pub open spec fn end_index(self) -> int {
        self.items@[0].item_index + self.items@.len()
    }

    /// A batch of one item.
    pub fn new(start_addr: u64, size: usize, index: usize) -> (batch: AddressBatch)
        ensures
            batch.start_addr == start_addr,
            batch.total_size == size,
            batch.items@ == seq![BatchItemRef { offset: 0, item_index: index, value_size: size }],
    {
        let mut items: Vec<BatchItemRef> = Vec::new();
        items.push(BatchItemRef { offset: 0, item_index: index, value_size: size });
        assert(items@ =~= seq![BatchItemRef { offset: 0, item_index: index, value_size: size }]);
        AddressBatch { start_addr, total_size: size, items }
    }
}

/// Whether batch `b + 1` begins where batch `b` ends, with an item that did
/// not join batch `b`.
pub open spec fn splits_after(batches: Seq<AddressBatch>, b: int, items: Seq<FuzzySearchResultItem>) -> bool {
    &&& batches[b + 1].first_index() == batches[b].end_index()
    &&& !joins(
        batches[b].start_addr as int,
        batches[b].total_size as int,
        items[batches[b + 1].first_index()],
    )
}

/// Whether `batches` is the clustering of `items`: the batches are runs of
/// `items` that follow one another and cover the list, and each batch but
/// the first begins with an item that did not join the batch before it.
pub open spec fn clustering(batches: Seq<AddressBatch>, items: Seq<FuzzySearchResultItem>) -> bool {
    &&& items.len() == 0 ==> batches.len() == 0
    &&& items.len() > 0 ==> batches.len() > 0 && batches[0].first_index() == 0
        && batches.last().end_index() == items.len()
    &&& forall|b: int| 0 <= b < batches.len() ==> (#[trigger] batches[b]).is_run_of(items)
    &&& forall|b: int| 0 <= b < batches.len() - 1 ==> #[trigger] splits_after(batches, b, items)
}

/// Clusters `items` into batches, from the first item on: an item joins the
/// batch before it when it can, and begins a new batch when it cannot.
pub fn cluster_addresses(items: &[FuzzySearchResultItem]) -> (batches: Vec<AddressBatch>)
    requires
        address_ordered(items@),
    ensures
        clustering(batches@, items@),
{
    let mut batches: Vec<AddressBatch> = Vec::new();
    if items.len() == 0 {
        return batches;
    }
    let mut cur_start: u64 = items[0].address;
    let mut cur_total: usize = items[0].value_type.size();
    let mut cur_refs: Vec<BatchItemRef> = Vec::new();
    cur_refs.push(BatchItemRef { offset: 0, item_index: 0, value_size: cur_total });
    let mut idx: usize = 1;
    while idx < items.len()
        invariant
            1 <= idx <= items.len(),
            address_ordered(items@),
            run_of(cur_start, cur_total, cur_refs@, items@),
            cur_refs[0].item_index + cur_refs.len() == idx,
            forall|b: int| 0 <= b < batches.len() ==> (#[trigger] batches[b]).is_run_of(items@),
            forall|b: int| 0 <= b < batches.len() - 1 ==> #[trigger] splits_after(batches@, b, items@),
            batches.len() == 0 ==> cur_refs[0].item_index == 0,
            batches.len() > 0 ==> batches[0].first_index() == 0 && batches@.last().end_index()
                == cur_refs[0].item_index && !joins(
                batches@.last().start_addr as int,
                batches@.last().total_size as int,
                items[cur_refs[0].item_index as int],
            ),
        decreases items.len() - idx,
    {
        let addr: u64 = items[idx].address;
        let size: usize = items[idx].value_type.size();
        let ghost first = cur_refs[0].item_index as int;
        assert(items[idx - 1].address <= items[idx as int].address);
        assert(items[first].address <= items[idx as int].address);
        assert(item_end(items[idx as int]) <= u64::MAX);
        let batch_end: u64 = cur_start + cur_total as u64;
        let gap: u64 = addr.saturating_sub(batch_end);
        let new_total: u64 = addr + size as u64 - cur_start;
        if gap <= BATCH_MAX_GAP && new_total <= BATCH_MAX_SIZE as u64 {
            let ghost before = cur_refs@;
            cur_total = new_total as usize;
            cur_refs.push(BatchItemRef { offset: (addr - cur_start) as usize, item_index: idx, value_size: size });
            proof {
                assert forall|k: int| 1 <= k < cur_refs.len() implies joins(
                    cur_start as int,
                    item_end(items[first + k - 1]) - cur_start,
                    #[trigger] items[first + k],
                ) by {
                    if k < before.len() {
                        assert(before[k] == cur_refs[k]);
                    }
                }
            }
        } else {
            let ghost sealed = batches@;
            batches.push(AddressBatch { start_addr: cur_start, total_size: cur_total, items: cur_refs });
            proof {
                assert forall|b: int| 0 <= b < batches.len() - 1 implies #[trigger] splits_after(
                    batches@,
                    b,
                    items@,
                ) by {
                    if b < sealed.len() - 1 {
                        assert(splits_after(sealed, b, items@));
                        assert(batches[b] == sealed[b] && batches[b + 1] == sealed[b + 1]);
                    } else {
                        assert(batches[b] == sealed.last());
                    }
                }
            }
            cur_start = addr;
            cur_total = size;
            cur_refs = Vec::new();
            cur_refs.push(BatchItemRef { offset: 0, item_index: idx, value_size: size });
        }
        idx = idx + 1;
    }
    let ghost sealed = batches@;
    batches.push(AddressBatch { start_addr: cur_start, total_size: cur_total, items: cur_refs });
    proof {
        assert forall|b: int| 0 <= b < batches.len() - 1 implies #[trigger] splits_after(
            batches@,
            b,
            items@,
        ) by {
            if b < sealed.len() - 1 {
                assert(splits_after(sealed, b, items@));
                assert(batches[b] == sealed[b] && batches[b + 1] == sealed[b + 1]);
            } else {
                assert(batches[b] == sealed.last());
            }
        }
    }
    batches
}

/// In a run of a clusterable list, each value lies inside the bytes that
/// the batch spans, the last value ends where the batch ends, and a batch
/// of more than one item spans at most `BATCH_MAX_SIZE` bytes.
pub proof fn lemma_batch_spans_its_items(batch: AddressBatch, items: Seq<FuzzySearchResultItem>)
    requires
        clusterable(items),
        batch.is_run_of(items),
    ensures
        forall|k: int|
            0 <= k < batch.items@.len() ==> (#[trigger] batch.items@[k]).offset
                + batch.items@[k].value_size <= batch.total_size,
        batch.items@.last().offset + batch.items@.last().value_size == batch.total_size,
        forall|k: int|
            0 <= k < batch.items@.len() ==> batch.start_addr <= (#[trigger] items[batch.first_index()
                + k]).address < batch.start_addr + batch.total_size,
        batch.items@.len() > 1 ==> batch.total_size <= BATCH_MAX_SIZE,
        batch.total_size <= BATCH_MAX_SIZE,
{
    let first = batch.first_index();
    let n = batch.items@.len() as int;
    assert forall|k: int| 0 <= k < n implies (#[trigger] batch.items@[k]).offset + batch.items@[k].value_size
        <= batch.total_size by {
        if k < n - 1 {
            assert(item_end(items[first + k]) <= item_end(items[first + n - 1]));
        }
    }
    assert forall|k: int| 0 <= k < n implies batch.start_addr <= (#[trigger] items[first + k]).address
        < batch.start_addr + batch.total_size by {
        assert(batch.items@[k].offset + batch.items@[k].value_size <= batch.total_size);
        if k > 0 {
            assert(items[first].address <= items[first + k].address);
        }
    }
    if n > 1 {
        assert(joins(
            batch.start_addr as int,
            item_end(items[first + (n - 1) - 1]) - batch.start_addr,
            items[first + (n - 1)],
        ));
    }
}

/// In a clustering, a batch ends and the next one begins only for a reason:
/// the next item lies more than `BATCH_MAX_GAP` bytes behind the batch, or
/// with it the batch would span more than `BATCH_MAX_SIZE` bytes.
pub proof fn lemma_batches_split_for_a_reason(
    batches: Seq<AddressBatch>,
    items: Seq<FuzzySearchResultItem>,
    b: int,
)
    requires
        clustering(batches, items),
        0 <= b < batches.len() - 1,
    ensures
        batches[b + 1].first_index() == batches[b].end_index(),
        items[batches[b + 1].first_index()].address - (batches[b].start_addr + batches[b].total_size)
            > BATCH_MAX_GAP || item_end(items[batches[b + 1].first_index()]) - batches[b].start_addr
            > BATCH_MAX_SIZE,
{
    assert(splits_after(batches, b, items));
}

/// In a clustering, a batch ends before every later batch begins.
pub proof fn lemma_batches_in_order(
    batches: Seq<AddressBatch>,
    items: Seq<FuzzySearchResultItem>,
    b: int,
    c: int,
)
    requires
        clustering(batches, items),
        0 <= b < c < batches.len(),
    ensures
        batches[b].end_index() <= batches[c].first_index(),
    decreases c - b,
{
    assert(splits_after(batches, c - 1, items));
    if b < c - 1 {
        lemma_batches_in_order(batches, items, b, c - 1);
        assert(batches[c - 1].is_run_of(items));
    }
}

} // verus!
