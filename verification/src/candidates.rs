//! The candidate set: items keyed by address, kept in a B+ tree and handed
//! out in ascending address order.

use crate::value::{FuzzySearchResultItem, ValueType};
use bplustree::GenericBPlusTree;
use vstd::prelude::*;

verus! {

/// `GenericBPlusTree` of the bplustree crate: a concurrent B+ tree from keys
/// to values, carried here as an opaque value.
#[verifier::external_type_specification]
#[verifier::external_body]
#[verifier::reject_recursive_types(K)]
#[verifier::reject_recursive_types(V)]
pub struct ExGenericBPlusTree<K, V, const IC: usize, const LC: usize>(GenericBPlusTree<K, V, IC, LC>);

/// The tree that holds a candidate set: under each address, the tag of the
/// value's type and the value.
pub type AddressTree = GenericBPlusTree<u64, (u8, i128), 128, 256>;

/// What an address is kept with: the tag of the value's type and the value.
pub type Entry = (u8, i128);

/// The entries of a `GenericBPlusTree`: for each key in it, the value kept
/// under the key.
pub uninterp spec fn tree_entries(tree: AddressTree) -> Map<u64, Entry>;

/// `GenericBPlusTree::new`: a tree without entries.
#[verifier::external_body]
fn tree_new() -> (made: AddressTree)
    ensures
        tree_entries(made).dom() == Set::<u64>::empty(),
{
    GenericBPlusTree::new()
}

/// `GenericBPlusTree::insert`: afterwards `key` is in the tree with `value`,
/// whether or not it was there before; the other entries stay.
#[verifier::external_body]
fn tree_insert(tree: &mut AddressTree, key: u64, value: Entry)
    ensures
        tree_entries(*final(tree)) == tree_entries(*old(tree)).insert(key, value),
{
    tree.insert(key, value);
}

/// `GenericBPlusTree::raw_iter`, walked from `seek_to_first` with `next`
/// until it ends: every entry of the tree once, in strictly ascending key
/// order.
#[verifier::external_body]
fn tree_walk(tree: &AddressTree) -> (entries: Vec<(u64, Entry)>)
    ensures
        forall|i: int, j: int| 0 <= i < j < entries.len() ==> entries[i].0 < entries[j].0,
        forall|i: int|
            0 <= i < entries.len() ==> tree_entries(*tree).contains_pair(
                #[trigger] entries[i].0,
                entries[i].1,
            ),
        forall|key: u64| #[trigger]
            tree_entries(*tree).dom().contains(key) ==> exists|i: int|
                0 <= i < entries.len() && entries[i].0 == key,
{
    let mut entries = Vec::new();
    let mut iter = tree.raw_iter();
    iter.seek_to_first();
    while let Some((key, value)) = iter.next() {
        entries.push((*key, *value));
    }
    entries
}

/// The item that an entry of the tree stands for.
pub open spec fn item_of_entry(address: u64, entry: Entry) -> FuzzySearchResultItem {
    FuzzySearchResultItem { address, value: entry.1, value_type: ValueType::of_tag_spec(entry.0) }
}

/// Whether `items` is in strictly ascending address order.
pub open spec fn strictly_ascending(items: Seq<FuzzySearchResultItem>) -> bool {
    forall|i: int, j: int| 0 <= i < j < items.len() ==> items[i].address < items[j].address
}

/// Whether `items` holds an item at `address`.
pub open spec fn has_address(items: Seq<FuzzySearchResultItem>, address: u64) -> bool {
    exists|i: int| 0 <= i < items.len() && #[trigger] items[i].address == address
}

/// Whether `items` lists `set` completely: each item is the one that the
/// set holds at its address, and each address of the set occurs.
pub open spec fn lists(items: Seq<FuzzySearchResultItem>, set: Map<u64, FuzzySearchResultItem>) -> bool {
    &&& forall|i: int|
        0 <= i < items.len() ==> set.contains_pair(#[trigger] items[i].address, items[i])
    &&& forall|address: u64| #[trigger] set.dom().contains(address) ==> has_address(items, address)
}

/// An ordered set of items with no two at one address.
pub struct CandidateSet {
    tree: AddressTree,
}

impl CandidateSet {
    /// The items by address.
    pub closed spec fn view(self) -> Map<u64, FuzzySearchResultItem> {
        Map::new(
            |address: u64| tree_entries(self.tree).dom().contains(address),
            |address: u64| item_of_entry(address, tree_entries(self.tree)[address]),
        )
    }

    /// Each item is kept under its own address.
    pub proof fn lemma_keyed_by_address(self, address: u64)
        requires
            self@.dom().contains(address),
        ensures
            self@[address].address == address,
    {
    }

    /// The empty set.
    pub fn new() -> (set: CandidateSet)
        ensures
            set@ == Map::<u64, FuzzySearchResultItem>::empty(),
    {
        let set = CandidateSet { tree: tree_new() };
        assert(set@ =~= Map::<u64, FuzzySearchResultItem>::empty());
        set
    }

    /// Puts `item` into the set, in place of an item at the same address.
    pub fn insert(&mut self, item: FuzzySearchResultItem)
        ensures
            final(self)@ == old(self)@.insert(item.address, item),
    {
        tree_insert(&mut self.tree, item.address, (item.value_type.tag(), item.value));
        assert(self@ =~= old(self)@.insert(item.address, item));
    }

    /// The items in strictly ascending address order.
    pub fn to_vec(&self) -> (items: Vec<FuzzySearchResultItem>)
        ensures
            strictly_ascending(items@),
            lists(items@, self@),
    {
        let entries = tree_walk(&self.tree);
        let mut items: Vec<FuzzySearchResultItem> = Vec::new();
        let mut i: usize = 0;
        while i < entries.len()
            invariant
                i <= entries.len(),
                items.len() == i,
                forall|k: int|
                    0 <= k < i ==> #[trigger] items[k] == item_of_entry(entries[k].0, entries[k].1),
            decreases entries.len() - i,
        {
            let entry = entries[i];
            items.push(
                FuzzySearchResultItem {
                    address: entry.0,
                    value: entry.1.1,
                    value_type: ValueType::of_tag(entry.1.0),
                },
            );
            i = i + 1;
        }
        proof {
            assert forall|k: int| 0 <= k < items.len() implies self@.contains_pair(
                #[trigger] items[k].address,
                items[k],
            ) by {
                assert(tree_entries(self.tree).contains_pair(entries[k].0, entries[k].1));
            }
            assert forall|address: u64| #[trigger] self@.dom().contains(address) implies has_address(
                items@,
                address,
            ) by {
                assert(tree_entries(self.tree).dom().contains(address));
                let k = choose|k: int| 0 <= k < entries.len() && entries[k].0 == address;
                assert(items[k].address == address);
            }
        }
        items
    }

    /// Number of items.
    pub fn len(&self) -> (n: usize)
        ensures
            self@.dom().finite(),
            n == self@.len(),
    {
        let items = self.to_vec();
        proof {
            lemma_listing_counts(items@, self@);
        }
        items.len()
    }

    /// Whether the set holds no item.
    pub fn is_empty(&self) -> (empty: bool)
        ensures
            empty == (self@ == Map::<u64, FuzzySearchResultItem>::empty()),
    {
        let items = self.to_vec();
        proof {
            if items.len() == 0 {
                assert(self@ =~= Map::<u64, FuzzySearchResultItem>::empty());
            } else {
                assert(self@.dom().contains(items[0].address));
            }
        }
        items.len() == 0
    }
}

/// A strictly ascending list of a set has as many items as the set, and
/// the set is finite.
pub proof fn lemma_listing_counts(items: Seq<FuzzySearchResultItem>, set: Map<u64, FuzzySearchResultItem>)
    requires
        strictly_ascending(items),
        lists(items, set),
    ensures
        set.dom().finite(),
        set.len() == items.len(),
    decreases items.len(),
{
    if items.len() == 0 {
        assert(set.dom() =~= Set::<u64>::empty());
    } else {
        let last = items.last();
        let rest = items.drop_last();
        let smaller = set.remove(last.address);
        assert(set.contains_pair(items[items.len() - 1].address, last));
        assert forall|i: int| 0 <= i < rest.len() implies smaller.contains_pair(
            #[trigger] rest[i].address,
            rest[i],
        ) by {
            assert(set.contains_pair(items[i].address, items[i]));
            assert(items[i].address < items[items.len() - 1].address);
        }
        assert forall|address: u64| #[trigger] smaller.dom().contains(address) implies has_address(
            rest,
            address,
        ) by {
            assert(set.dom().contains(address));
            assert(has_address(items, address));
            let i = choose|i: int| 0 <= i < items.len() && #[trigger] items[i].address == address;
            assert(rest[i].address == address);
        }
        lemma_listing_counts(rest, smaller);
        assert(set.dom() =~= smaller.dom().insert(last.address));
    }
}

/// In a strictly ascending list no two items share an address.
pub proof fn lemma_ascending_has_no_duplicates(items: Seq<FuzzySearchResultItem>, i: int, j: int)
    requires
        strictly_ascending(items),
        0 <= i < items.len(),
        0 <= j < items.len(),
        i != j,
    ensures
        items[i].address != items[j].address,
{
    if i < j {
        assert(items[i].address < items[j].address);
    } else {
        assert(items[j].address < items[i].address);
    }
}

} // verus!
