//! The catalog: a set of items, kept in the order of their keys.
use crate::item::DocItem;
use crate::item::DocItemView;
use crate::item::Key;
use crate::merge::lemma_extended_of_sorted;
use crate::merge::lemma_merge_is_extend;
use crate::merge::merge;
use crate::merge::sort;
use crate::ordering::key_lt;
use crate::ordering::lemma_key_lt_irreflexive;
use crate::ordering::lemma_key_lt_total;
use crate::ordering::lemma_key_lt_transitive;
use crate::text::Order;
use vstd::prelude::*;

verus! {

/// The items stand in the strict order of their keys, so no key occurs twice.
pub open spec fn sorted(items: Seq<DocItemView>) -> bool {
    forall|i: int, j: int|
        0 <= i < j < items.len() ==> key_lt(#[trigger] items[i].key(), #[trigger] items[j].key())
}

/// Some item carries `key`.
pub open spec fn has_key(items: Seq<DocItemView>, key: Key) -> bool {
    exists|i: int| 0 <= i < items.len() && #[trigger] items[i].key() == key
}

/// How many of the items have a key before `key`.
pub open spec fn rank(items: Seq<DocItemView>, key: Key) -> nat
    decreases items.len(),
{
    if items.len() == 0 {
        0
    } else {
        rank(items.drop_last(), key) + if key_lt(items.last().key(), key) {
            1nat
        } else {
            0nat
        }
    }
}

/// The catalog after `item` is offered to it: unchanged where an item with the
/// same key is there already, else with `item` at the place that its key gives
/// it.
pub open spec fn inserted(items: Seq<DocItemView>, item: DocItemView) -> Seq<DocItemView> {
    if has_key(items, item.key()) {
        items
    } else {
        items.insert(rank(items, item.key()) as int, item)
    }
}

/// The catalog after the items of `more` are offered to it one by one, from
/// the first to the last.
pub open spec fn extended(items: Seq<DocItemView>, more: Seq<DocItemView>) -> Seq<DocItemView>
    decreases more.len(),
{
    if more.len() == 0 {
        items
    } else {
        inserted(extended(items, more.drop_last()), more.last())
    }
}

/// The plain values of a sequence of items.
pub open spec fn views(items: Seq<DocItem>) -> Seq<DocItemView> {
    items.map_values(|item: DocItem| item@)
}

/// The rank of a key is bounded by the number of items.
pub proof fn lemma_rank_bound(items: Seq<DocItemView>, key: Key)
    ensures
        rank(items, key) <= items.len(),
    decreases items.len(),
{
    if items.len() > 0 {
        lemma_rank_bound(items.drop_last(), key);
    }
}

/// Where the items before `at` are below `key` and no other is, `at` is the
/// rank of `key`.
pub proof fn lemma_rank_is_boundary(items: Seq<DocItemView>, key: Key, at: int)
    requires
        0 <= at <= items.len(),
        forall|i: int| 0 <= i < at ==> key_lt(#[trigger] items[i].key(), key),
        forall|i: int| at <= i < items.len() ==> !key_lt(#[trigger] items[i].key(), key),
    ensures
        rank(items, key) == at,
    decreases items.len(),
{
    if items.len() > 0 {
        let front = items.drop_last();
        if at == items.len() {
            lemma_rank_is_boundary(front, key, at - 1);
        } else {
            lemma_rank_is_boundary(front, key, at);
        }
    }
}

/// In a sorted catalog the items below `key` are those before its rank.
pub proof fn lemma_rank_splits(items: Seq<DocItemView>, key: Key)
    requires
        sorted(items),
    ensures
        rank(items, key) <= items.len(),
        forall|i: int| 0 <= i < rank(items, key) ==> key_lt(#[trigger] items[i].key(), key),
        forall|i: int|
            rank(items, key) <= i < items.len() ==> !key_lt(#[trigger] items[i].key(), key),
    decreases items.len(),
{
    if items.len() > 0 {
        let front = items.drop_last();
        let last = items.last();
        assert(sorted(front)) by {
            assert forall|i: int, j: int| 0 <= i < j < front.len() implies key_lt(
                #[trigger] front[i].key(),
                #[trigger] front[j].key(),
            ) by {
                assert(front[i] == items[i] && front[j] == items[j]);
            }
        }
        lemma_rank_splits(front, key);
        let r = rank(front, key);
        if key_lt(last.key(), key) {
            assert(r == front.len()) by {
                if r < front.len() {
                    assert(front[r as int] == items[r as int]);
                    assert(key_lt(items[r as int].key(), items[items.len() - 1].key()));
                    lemma_key_lt_transitive(front[r as int].key(), last.key(), key);
                }
            }
            assert forall|i: int| 0 <= i < rank(items, key) implies key_lt(
                #[trigger] items[i].key(),
                key,
            ) by {
                if i < front.len() {
                    assert(front[i] == items[i]);
                }
            }
        } else {
            assert(rank(items, key) == r);
            assert forall|i: int| 0 <= i < r implies key_lt(#[trigger] items[i].key(), key) by {
                assert(front[i] == items[i]);
            }
            assert forall|i: int| r <= i < items.len() implies !key_lt(
                #[trigger] items[i].key(),
                key,
            ) by {
                if i < front.len() {
                    assert(front[i] == items[i]);
                }
            }
        }
    }
}

/// Offering an item to a sorted catalog leaves it sorted, and afterwards the
/// catalog holds the item's key.
pub proof fn lemma_inserted_sorted(items: Seq<DocItemView>, item: DocItemView)
    requires
        sorted(items),
    ensures
        sorted(inserted(items, item)),
        has_key(inserted(items, item), item.key()),
{
    if !has_key(items, item.key()) {
        let at = rank(items, item.key()) as int;
        let after = items.insert(at, item);
        lemma_rank_splits(items, item.key());
        assert forall|i: int, j: int| 0 <= i < j < after.len() implies key_lt(
            #[trigger] after[i].key(),
            #[trigger] after[j].key(),
        ) by {
            if j == at {
                assert(after[i] == items[i]);
            } else if i == at {
                assert(after[j] == items[j - 1]);
                lemma_key_lt_total(items[j - 1].key(), item.key());
            } else {
                let a = if i < at { i } else { i - 1 };
                let b = if j < at { j } else { j - 1 };
                assert(after[i] == items[a]);
                assert(after[j] == items[b]);
            }
        }
        assert(after[at].key() == item.key());
    }
}

/// Offering the items of `more` to a sorted catalog leaves it sorted.
pub proof fn lemma_extended_sorted(items: Seq<DocItemView>, more: Seq<DocItemView>)
    requires
        sorted(items),
    ensures
        sorted(extended(items, more)),
    decreases more.len(),
{
    if more.len() > 0 {
        lemma_extended_sorted(items, more.drop_last());
        lemma_inserted_sorted(extended(items, more.drop_last()), more.last());
    }
}

/// An item offered a second time, or another with the same key offered after
/// it, changes nothing: the catalog holds as many items as after the first.
pub proof fn lemma_insert_twice(items: Seq<DocItemView>, first: DocItemView, second: DocItemView)
    requires
        sorted(items),
        first.key() == second.key(),
    ensures
        inserted(inserted(items, first), second) == inserted(items, first),
        inserted(inserted(items, first), second).len() == inserted(items, first).len(),
{
    lemma_inserted_sorted(items, first);
}

/// A set of items in the order of their keys: by name, then by path, then by
/// parent. Of two items with one key it keeps the one that came first.
#[derive(Debug)]
pub struct RustDoc {
    items: Vec<DocItem>,
}

impl View for RustDoc {
    type V = Seq<DocItemView>;

    closed spec fn view(&self) -> Seq<DocItemView> {
        views(self.items@)
    }
}

impl Default for RustDoc {
    /// A catalog without items.
    fn default() -> (catalog: RustDoc)
        ensures
            catalog@.len() == 0,
    {
        RustDoc { items: Vec::new() }
    }
}

impl RustDoc {
    #[verifier::type_invariant]
    spec fn ordered(&self) -> bool {
        sorted(views(self.items@))
    }

    /// A catalog of the items of `items`, offered in their order.
    pub fn new(items: Vec<DocItem>) -> (catalog: RustDoc)
        ensures
            catalog@ == extended(Seq::empty(), views(items@)),
            sorted(catalog@),
    {
        RustDoc { items: sort(items) }
    }

    /// The number of items.
    pub fn len(&self) -> (n: usize)
        ensures
            n == self@.len(),
    {
        self.items.len()
    }

    /// Whether the catalog holds no item.
    pub fn is_empty(&self) -> (empty: bool)
        ensures
            empty == (self@.len() == 0),
    {
        self.items.len() == 0
    }

    /// The items, in the order of their keys.
    pub fn iter(&self) -> (items: &[DocItem])
        ensures
            views(items@) == self@,
            sorted(self@),
    {
        proof {
            use_type_invariant(self);
        }
        self.items.as_slice()
    }

    /// The items, in the order of their keys.
    pub fn into_iter(self) -> (items: Vec<DocItem>)
        ensures
            views(items@) == self@,
            sorted(self@),
    {
        proof {
            use_type_invariant(&self);
        }
        self.items
    }

    /// Where `item` stands or would stand, and whether an item with its key is
    /// there.
    fn locate(&self, item: &DocItem) -> (found: (usize, bool))
        ensures
            found.0 <= self@.len(),
            found.1 == has_key(self@, item@.key()),
            found.1 ==> self@[found.0 as int].key() == item@.key(),
            !found.1 ==> found.0 == rank(self@, item@.key()),
    {
        proof {
            use_type_invariant(self);
        }
        let ghost key = item@.key();
        let mut low: usize = 0;
        let mut high: usize = self.items.len();
        while low < high
            invariant
                low <= high <= self.items.len(),
                key == item@.key(),
                sorted(views(self.items@)),
                forall|i: int| 0 <= i < low ==> key_lt(#[trigger] views(self.items@)[i].key(), key),
                forall|i: int|
                    high <= i < self.items.len() ==> key_lt(
                        key,
                        #[trigger] views(self.items@)[i].key(),
                    ),
            decreases high - low,
        {
            let mid = low + (high - low) / 2;
            let ghost pivot = views(self.items@)[mid as int].key();
            match self.items[mid].compare(item) {
                Order::Equal => {
                    return (mid, true);
                },
                Order::Less => {
                    assert forall|i: int| 0 <= i < mid + 1 implies key_lt(
                        #[trigger] views(self.items@)[i].key(),
                        key,
                    ) by {
                        if i < mid {
                            lemma_key_lt_transitive(views(self.items@)[i].key(), pivot, key);
                        }
                    }
                    low = mid + 1;
                },
                Order::Greater => {
                    assert forall|i: int| mid <= i < self.items.len() implies key_lt(
                        key,
                        #[trigger] views(self.items@)[i].key(),
                    ) by {
                        if mid < i {
                            lemma_key_lt_transitive(key, pivot, views(self.items@)[i].key());
                        }
                    }
                    high = mid;
                },
            }
        }
        proof {
            let items = views(self.items@);
            assert forall|i: int| low <= i < items.len() implies !key_lt(
                #[trigger] items[i].key(),
                key,
            ) by {
                lemma_key_lt_total(items[i].key(), key);
            }
            lemma_rank_is_boundary(items, key, low as int);
            assert(!has_key(items, key)) by {
                if has_key(items, key) {
                    let i = choose|i: int| 0 <= i < items.len() && #[trigger] items[i].key() == key;
                    lemma_key_lt_irreflexive(key);
                }
            }
        }
        (low, false)
    }

    /// Whether the catalog holds an item with the key of `item`.
    pub fn contains(&self, item: &DocItem) -> (found: bool)
        ensures
            found == has_key(self@, item@.key()),
    {
        self.locate(item).1
    }

    /// Offers `item` to the catalog, which takes it unless it holds an item
    /// with the same key. Returns whether it took it.
    pub fn insert(&mut self, item: DocItem) -> (taken: bool)
        ensures
            final(self)@ == inserted(old(self)@, item@),
            taken == !has_key(old(self)@, item@.key()),
            sorted(final(self)@),
    {
        proof {
            use_type_invariant(&*self);
            lemma_inserted_sorted(self@, item@);
        }
        let (at, found) = self.locate(&item);
        if found {
            false
        } else {
            let mut items: Vec<DocItem> = Vec::new();
            core::mem::swap(&mut self.items, &mut items);
            let ghost before = items@;
            items.insert(at, item);
            assert(views(items@) =~= views(before).insert(at as int, item@));
            self.items = items;
            true
        }
    }

    /// Offers the items of `items` to the catalog, from the first to the last.
    pub fn extend(&mut self, items: Vec<DocItem>)
        ensures
            final(self)@ == extended(old(self)@, views(items@)),
            sorted(final(self)@),
    {
        proof {
            use_type_invariant(&*self);
        }
        let mut held: Vec<DocItem> = Vec::new();
        core::mem::swap(&mut self.items, &mut held);
        let merged = merge(held, sort(items));
        proof {
            lemma_merge_is_extend(views(held@), views(items@), views(merged@));
        }
        self.items = merged;
    }

    /// Offers the items of `other` to the catalog, in the order of their keys.
    pub fn merge(&mut self, other: RustDoc)
        ensures
            final(self)@ == extended(old(self)@, other@),
            sorted(final(self)@),
    {
        proof {
            use_type_invariant(&*self);
        }
        let more = other.into_iter();
        let mut held: Vec<DocItem> = Vec::new();
        core::mem::swap(&mut self.items, &mut held);
        let merged = merge(held, more);
        proof {
            lemma_extended_of_sorted(views(more@));
            lemma_merge_is_extend(views(held@), views(more@), views(merged@));
        }
        self.items = merged;
    }
}

} // verus!
