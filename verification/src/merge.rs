//! Sorting and merging of items, and why they give what offering the items
//! one by one gives.
use crate::catalog::extended;
use crate::catalog::has_key;
use crate::catalog::inserted;
use crate::catalog::lemma_extended_sorted;
use crate::catalog::lemma_rank_bound;
use crate::catalog::rank;
use crate::catalog::sorted;
use crate::catalog::views;
use crate::item::DocItem;
use crate::item::DocItemView;
use crate::item::Key;
use crate::ordering::key_lt;
use crate::ordering::lemma_key_lt_irreflexive;
use crate::ordering::lemma_key_lt_total;
use crate::ordering::lemma_key_lt_transitive;
use crate::text::Order;
use vstd::prelude::*;

verus! {

/// Whether the item at place `at` is the first of `items` with its key.
pub open spec fn first_of_key(items: Seq<DocItemView>, at: int) -> bool {
    forall|j: int| 0 <= j < at ==> (#[trigger] items[j]).key() != items[at].key()
}

/// Whether `item` is the first of `more` with its key.
pub open spec fn comes_first(more: Seq<DocItemView>, item: DocItemView) -> bool {
    exists|at: int| 0 <= at < more.len() && #[trigger] more[at] == item && first_of_key(more, at)
}

/// Whether a catalog `items` to which `more` is offered holds `item` in the
/// end: it held the item before, or it held none with that key and the item
/// is the first of `more` with it.
pub open spec fn kept(items: Seq<DocItemView>, more: Seq<DocItemView>, item: DocItemView) -> bool {
    items.contains(item) || (!has_key(items, item.key()) && comes_first(more, item))
}

/// A catalog holds a key after an item is offered if it held the key before or
/// the item has it.
pub proof fn lemma_inserted_keys(items: Seq<DocItemView>, item: DocItemView, key: Key)
    ensures
        has_key(inserted(items, item), key) <==> has_key(items, key) || item.key() == key,
{
    let after = inserted(items, item);
    if !has_key(items, item.key()) {
        lemma_rank_bound(items, item.key());
        let at = rank(items, item.key()) as int;
        assert(after[at] == item);
        if has_key(items, key) {
            let i = choose|i: int| 0 <= i < items.len() && #[trigger] items[i].key() == key;
            if i < at {
                assert(after[i] == items[i]);
            } else {
                assert(after[i + 1] == items[i]);
            }
        }
        if has_key(after, key) && item.key() != key {
            let i = choose|i: int| 0 <= i < after.len() && #[trigger] after[i].key() == key;
            if i < at {
                assert(after[i] == items[i]);
            } else {
                assert(after[i] == items[i - 1]);
            }
        }
    }
}

/// A catalog holds an item after another is offered if it held it before, or
/// the offered item is that item and its key is new.
pub proof fn lemma_inserted_holds(items: Seq<DocItemView>, item: DocItemView, other: DocItemView)
    ensures
        inserted(items, item).contains(other) <==> items.contains(other) || (other == item
            && !has_key(items, item.key())),
{
    let after = inserted(items, item);
    if !has_key(items, item.key()) {
        lemma_rank_bound(items, item.key());
        let at = rank(items, item.key()) as int;
        assert(after[at] == item);
        if items.contains(other) {
            let i = choose|i: int| 0 <= i < items.len() && items[i] == other;
            if i < at {
                assert(after[i] == other);
            } else {
                assert(after[i + 1] == other);
            }
        }
        if after.contains(other) && other != item {
            let i = choose|i: int| 0 <= i < after.len() && after[i] == other;
            if i < at {
                assert(items[i] == other);
            } else {
                assert(items[i - 1] == other);
            }
        }
    }
}

/// A catalog holds a key after items are offered if it held the key before or
/// one of the items has it.
pub proof fn lemma_extended_keys(items: Seq<DocItemView>, more: Seq<DocItemView>, key: Key)
    ensures
        has_key(extended(items, more), key) <==> has_key(items, key) || has_key(more, key),
    decreases more.len(),
{
    if more.len() > 0 {
        let front = more.drop_last();
        lemma_extended_keys(items, front, key);
        lemma_inserted_keys(extended(items, front), more.last(), key);
        if has_key(front, key) {
            let i = choose|i: int| 0 <= i < front.len() && #[trigger] front[i].key() == key;
            assert(more[i].key() == key);
        }
        if has_key(more, key) && more.last().key() != key {
            let i = choose|i: int| 0 <= i < more.len() && #[trigger] more[i].key() == key;
            assert(front[i].key() == key);
        }
        if more.last().key() == key {
            assert(more[more.len() - 1].key() == key);
        }
    }
}

/// What a catalog holds after items are offered to it.
pub proof fn lemma_extended_holds(
    items: Seq<DocItemView>,
    more: Seq<DocItemView>,
    item: DocItemView,
)
    ensures
        extended(items, more).contains(item) <==> kept(items, more, item),
    decreases more.len(),
{
    if more.len() == 0 {
        assert(!comes_first(more, item));
    } else {
        let front = more.drop_last();
        let last = more.last();
        let before = extended(items, front);
        lemma_extended_holds(items, front, item);
        lemma_inserted_holds(before, last, item);
        lemma_extended_keys(items, front, last.key());
        assert forall|at: int| 0 <= at < front.len() implies first_of_key(front, at)
            == first_of_key(more, at) by {
            assert(front[at] == more[at]);
            if first_of_key(front, at) {
                assert forall|j: int| 0 <= j < at implies (#[trigger] more[j]).key()
                    != more[at].key() by {
                    assert(front[j] == more[j]);
                }
            }
            if first_of_key(more, at) {
                assert forall|j: int| 0 <= j < at implies (#[trigger] front[j]).key()
                    != front[at].key() by {
                    assert(front[j] == more[j]);
                }
            }
        }
        let end = more.len() - 1;
        assert(first_of_key(more, end) <==> !has_key(front, last.key())) by {
            if !first_of_key(more, end) {
                let j = choose|j: int| 0 <= j < end && (#[trigger] more[j]).key() == more[end].key();
                assert(front[j].key() == last.key());
            }
            if has_key(front, last.key()) {
                let j = choose|j: int|
                    0 <= j < front.len() && #[trigger] front[j].key() == last.key();
                assert(more[j].key() == more[end].key());
            }
        }
        if comes_first(front, item) {
            let at = choose|at: int|
                0 <= at < front.len() && #[trigger] front[at] == item && first_of_key(front, at);
            assert(more[at] == item && first_of_key(more, at));
        }
        if comes_first(more, item) {
            let at = choose|at: int|
                0 <= at < more.len() && #[trigger] more[at] == item && first_of_key(more, at);
            if at < end {
                assert(front[at] == item && first_of_key(front, at));
            }
        }
        if item == last && first_of_key(more, end) {
            assert(more[end] == item);
        }
    }
}

/// In a sorted catalog every item but the last is below the last.
proof fn lemma_below_last(items: Seq<DocItemView>, item: DocItemView)
    requires
        sorted(items),
        items.contains(item),
    ensures
        item == items.last() || key_lt(item.key(), items.last().key()),
{
    let i = choose|i: int| 0 <= i < items.len() && items[i] == item;
    if i < items.len() - 1 {
        assert(key_lt(items[i].key(), items[items.len() - 1].key()));
    }
}

/// A sorted catalog without its last item is sorted, and holds the other
/// items.
proof fn lemma_drop_last(items: Seq<DocItemView>)
    requires
        sorted(items),
        items.len() > 0,
    ensures
        sorted(items.drop_last()),
        forall|item: DocItemView|
            items.drop_last().contains(item) <==> items.contains(item) && item != items.last(),
{
    let front = items.drop_last();
    let top = items.last();
    assert forall|i: int, k: int| 0 <= i < k < front.len() implies key_lt(
        #[trigger] front[i].key(),
        #[trigger] front[k].key(),
    ) by {
        assert(front[i] == items[i] && front[k] == items[k]);
    }
    assert forall|item: DocItemView|
        front.contains(item) <==> items.contains(item) && item != top by {
        if front.contains(item) {
            let i = choose|i: int| 0 <= i < front.len() && front[i] == item;
            assert(items[i] == item);
            assert(key_lt(items[i].key(), items[items.len() - 1].key()));
            lemma_key_lt_irreflexive(top.key());
        }
        if items.contains(item) && item != top {
            let i = choose|i: int| 0 <= i < items.len() && items[i] == item;
            assert(front[i] == item);
        }
    }
}

/// Two sorted catalogs that hold the same items end with the same item.
proof fn lemma_same_last(a: Seq<DocItemView>, b: Seq<DocItemView>)
    requires
        sorted(a),
        sorted(b),
        a.len() > 0,
        b.len() > 0,
        b.contains(a.last()),
        a.contains(b.last()),
    ensures
        a.last() == b.last(),
{
    lemma_below_last(b, a.last());
    lemma_below_last(a, b.last());
    lemma_key_lt_total(a.last().key(), b.last().key());
}

/// Two sorted catalogs that hold the same items are the same.
pub proof fn lemma_sorted_unique(a: Seq<DocItemView>, b: Seq<DocItemView>)
    requires
        sorted(a),
        sorted(b),
        forall|item: DocItemView| a.contains(item) <==> b.contains(item),
    ensures
        a == b,
    decreases a.len(),
{
    if a.len() == 0 {
        if b.len() > 0 {
            assert(b[0] == b[0] && b.contains(b[0]));
        }
        assert(a =~= b);
    } else {
        assert(a[a.len() - 1] == a.last() && a.contains(a.last()));
        assert(b.contains(a.last()));
        assert(b[b.len() - 1] == b.last() && b.contains(b.last()));
        lemma_same_last(a, b);
        lemma_drop_last(a);
        lemma_drop_last(b);
        assert forall|item: DocItemView|
            a.drop_last().contains(item) <==> b.drop_last().contains(item) by {
            assert(a.contains(item) <==> b.contains(item));
        }
        lemma_sorted_unique(a.drop_last(), b.drop_last());
        assert(a =~= a.drop_last().push(a.last()));
        assert(b =~= b.drop_last().push(b.last()));
    }
}

/// Offering two runs of items one after the other is offering their
/// concatenation.
pub proof fn lemma_extended_concat(
    items: Seq<DocItemView>,
    first: Seq<DocItemView>,
    second: Seq<DocItemView>,
)
    ensures
        extended(items, first + second) == extended(extended(items, first), second),
    decreases second.len(),
{
    if second.len() == 0 {
        assert(first + second =~= first);
    } else {
        lemma_extended_concat(items, first, second.drop_last());
        assert((first + second).drop_last() =~= first + second.drop_last());
        assert((first + second).last() == second.last());
    }
}

/// A sorted sequence that holds the items of a catalog, and those items of
/// the sorted form of `more` whose key the catalog lacks, is the catalog after
/// `more` is offered to it.
pub proof fn lemma_merge_is_extend(
    items: Seq<DocItemView>,
    more: Seq<DocItemView>,
    merged: Seq<DocItemView>,
)
    requires
        sorted(items),
        sorted(merged),
        forall|item: DocItemView|
            merged.contains(item) <==> items.contains(item) || (extended(
                Seq::empty(),
                more,
            ).contains(item) && !has_key(items, item.key())),
    ensures
        merged == extended(items, more),
{
    let target = extended(items, more);
    lemma_extended_sorted(items, more);
    assert forall|item: DocItemView| merged.contains(item) <==> target.contains(item) by {
        lemma_extended_holds(items, more, item);
        lemma_extended_holds(Seq::empty(), more, item);
        assert(!has_key(Seq::<DocItemView>::empty(), item.key()));
        assert(!Seq::<DocItemView>::empty().contains(item));
    }
    lemma_sorted_unique(merged, target);
}

/// A sorted catalog is what offering its own items to an empty one gives.
pub proof fn lemma_extended_of_sorted(items: Seq<DocItemView>)
    requires
        sorted(items),
    ensures
        extended(Seq::empty(), items) == items,
{
    let target = extended(Seq::empty(), items);
    lemma_extended_sorted(Seq::empty(), items);
    assert forall|item: DocItemView| target.contains(item) <==> items.contains(item) by {
        lemma_extended_holds(Seq::empty(), items, item);
        assert(!has_key(Seq::<DocItemView>::empty(), item.key()));
        assert(!Seq::<DocItemView>::empty().contains(item));
        if items.contains(item) {
            let at = choose|at: int| 0 <= at < items.len() && items[at] == item;
            assert forall|j: int| 0 <= j < at implies (#[trigger] items[j]).key()
                != items[at].key() by {
                assert(key_lt(items[j].key(), items[at].key()));
                lemma_key_lt_irreflexive(items[at].key());
            }
            assert(first_of_key(items, at));
        }
    }
    lemma_sorted_unique(target, items);
}

/// The keys of the items descend.
spec fn descending(items: Seq<DocItemView>) -> bool {
    forall|i: int, j: int|
        0 <= i < j < items.len() ==> key_lt(#[trigger] items[j].key(), #[trigger] items[i].key())
}

/// Every key of `low` is below every key of `high`.
spec fn all_below(low: Seq<DocItemView>, high: Seq<DocItemView>) -> bool {
    forall|i: int, j: int|
        0 <= i < low.len() && 0 <= j < high.len() ==> key_lt(
            #[trigger] low[i].key(),
            #[trigger] high[j].key(),
        )
}

/// Whether `items` holds `item` at place `from` or behind it.
spec fn held_from(items: Seq<DocItemView>, from: int, item: DocItemView) -> bool {
    exists|i: int| from <= i < items.len() && 0 <= i && #[trigger] items[i] == item
}

/// Whether a merge of `left` and `right` that has come down to the places
/// `done_left` and `done_right` has taken `item`.
spec fn taken(
    left: Seq<DocItemView>,
    right: Seq<DocItemView>,
    done_left: int,
    done_right: int,
    item: DocItemView,
) -> bool {
    held_from(left, done_left, item) || (held_from(right, done_right, item) && !has_key(
        left,
        item.key(),
    ))
}

/// The sorted form of a stack of items whose keys descend.
fn reversed(stack: Vec<DocItem>) -> (ordered: Vec<DocItem>)
    requires
        descending(views(stack@)),
    ensures
        sorted(views(ordered@)),
        forall|item: DocItemView| views(ordered@).contains(item) <==> views(stack@).contains(item),
{
    let ghost whole = views(stack@);
    let mut stack = stack;
    let mut ordered: Vec<DocItem> = Vec::new();
    assert(whole.take(whole.len() as int) =~= whole);
    while stack.len() > 0
        invariant
            stack.len() <= whole.len(),
            descending(whole),
            views(stack@) == whole.take(stack.len() as int),
            ordered.len() + stack.len() == whole.len(),
            forall|k: int|
                0 <= k < ordered.len() ==> (#[trigger] views(ordered@)[k]) == whole[whole.len() - 1
                    - k],
        decreases stack.len(),
    {
        let ghost before = views(ordered@);
        let ghost rest = stack@;
        let item = stack.pop().unwrap();
        assert(views(stack@) =~= whole.take(stack.len() as int)) by {
            assert(views(rest).drop_last() =~= views(rest.drop_last()));
        }
        assert(item@ == whole[stack.len() as int]) by {
            assert(views(rest)[rest.len() - 1] == item@);
        }
        ordered.push(item);
        assert(views(ordered@) =~= before.push(item@));
    }
    proof {
        let result = views(ordered@);
        assert forall|i: int, j: int| 0 <= i < j < result.len() implies key_lt(
            #[trigger] result[i].key(),
            #[trigger] result[j].key(),
        ) by {
            assert(key_lt(whole[whole.len() - 1 - i].key(), whole[whole.len() - 1 - j].key()));
        }
        assert forall|item: DocItemView| result.contains(item) <==> whole.contains(item) by {
            if result.contains(item) {
                let k = choose|k: int| 0 <= k < result.len() && result[k] == item;
                assert(whole[whole.len() - 1 - k] == item);
            }
            if whole.contains(item) {
                let k = choose|k: int| 0 <= k < whole.len() && whole[k] == item;
                assert(result[whole.len() - 1 - k] == item);
            }
        }
    }
    ordered
}

/// Taking one more item of the left side.
proof fn lemma_take_left(
    left: Seq<DocItemView>,
    right: Seq<DocItemView>,
    done_left: int,
    done_right: int,
    stack: Seq<DocItemView>,
    next: int,
    after: Seq<DocItemView>,
)
    requires
        0 < done_left <= left.len(),
        next == done_left - 1,
        after == stack.push(left[next]),
        forall|item: DocItemView|
            stack.contains(item) <==> taken(left, right, done_left, done_right, item),
    ensures
        forall|item: DocItemView|
            after.contains(item) <==> taken(left, right, next, done_right, item),
{
    let top = left[done_left - 1];
    assert forall|item: DocItemView| after.contains(item) <==> taken(
        left,
        right,
        next,
        done_right,
        item,
    ) by {
        assert(stack.contains(item) <==> taken(left, right, done_left, done_right, item));
        assert(after.contains(item) <==> stack.contains(item) || item == top) by {
            if after.contains(item) {
                let k = choose|k: int| 0 <= k < after.len() && after[k] == item;
                if k < stack.len() {
                    assert(stack[k] == item);
                }
            }
            if stack.contains(item) {
                let k = choose|k: int| 0 <= k < stack.len() && stack[k] == item;
                assert(after[k] == item);
            }
            if item == top {
                assert(after[stack.len() as int] == item);
            }
        }
        assert(held_from(left, done_left - 1, item) <==> held_from(left, done_left, item) || item
            == top) by {
            if held_from(left, done_left - 1, item) {
                let i = choose|i: int|
                    done_left - 1 <= i < left.len() && 0 <= i && #[trigger] left[i] == item;
                if i >= done_left {
                    assert(held_from(left, done_left, item));
                }
            }
            if held_from(left, done_left, item) {
                let i = choose|i: int|
                    done_left <= i < left.len() && 0 <= i && #[trigger] left[i] == item;
                assert(left[i] == item);
            }
            if item == top {
                assert(left[done_left - 1] == item);
            }
        }
    }
}

/// Going past one more item of the right side, which is taken unless the
/// left side has its key.
proof fn lemma_take_right(
    left: Seq<DocItemView>,
    right: Seq<DocItemView>,
    done_left: int,
    done_right: int,
    stack: Seq<DocItemView>,
    next: int,
    after: Seq<DocItemView>,
)
    requires
        0 < done_right <= right.len(),
        next == done_right - 1,
        after == stack.push(right[next]),
        forall|item: DocItemView|
            stack.contains(item) <==> taken(left, right, done_left, done_right, item),
    ensures
        !has_key(left, right[next].key()) ==> forall|item: DocItemView|
            after.contains(item) <==> taken(left, right, done_left, next, item),
        has_key(left, right[next].key()) ==> forall|item: DocItemView|
            stack.contains(item) <==> taken(left, right, done_left, next, item),
{
    let top = right[done_right - 1];
    assert forall|item: DocItemView|
        held_from(right, done_right - 1, item) <==> held_from(right, done_right, item) || item
            == top by {
        if held_from(right, done_right - 1, item) {
            let i = choose|i: int|
                done_right - 1 <= i < right.len() && 0 <= i && #[trigger] right[i] == item;
            if i >= done_right {
                assert(held_from(right, done_right, item));
            }
        }
        if held_from(right, done_right, item) {
            let i = choose|i: int|
                done_right <= i < right.len() && 0 <= i && #[trigger] right[i] == item;
            assert(right[i] == item);
        }
        if item == top {
            assert(right[done_right - 1] == item);
        }
    }
    if !has_key(left, top.key()) {
        assert forall|item: DocItemView| after.contains(item) <==> taken(
            left,
            right,
            done_left,
            next,
            item,
        ) by {
            assert(stack.contains(item) <==> taken(left, right, done_left, done_right, item));
            assert(held_from(right, done_right - 1, item) <==> held_from(right, done_right, item)
                || item == top);
            assert(after.contains(item) <==> stack.contains(item) || item == top) by {
                if after.contains(item) {
                    let k = choose|k: int| 0 <= k < after.len() && after[k] == item;
                    if k < stack.len() {
                        assert(stack[k] == item);
                    }
                }
                if stack.contains(item) {
                    let k = choose|k: int| 0 <= k < stack.len() && stack[k] == item;
                    assert(after[k] == item);
                }
                if item == top {
                    assert(after[stack.len() as int] == item);
                }
            }
            if held_from(left, done_left, item) {
                let i = choose|i: int|
                    done_left <= i < left.len() && 0 <= i && #[trigger] left[i] == item;
                assert(left[i].key() == item.key());
                assert(item != top);
            }
        }
    } else {
        assert forall|item: DocItemView| stack.contains(item) <==> taken(
            left,
            right,
            done_left,
            next,
            item,
        ) by {
            assert(stack.contains(item) <==> taken(left, right, done_left, done_right, item));
            assert(held_from(right, done_right - 1, item) <==> held_from(right, done_right, item)
                || item == top);
        }
    }
}

/// The sorted sequence of the items of `left` and of those items of `right`
/// whose key `left` lacks.
pub fn merge(left: Vec<DocItem>, right: Vec<DocItem>) -> (merged: Vec<DocItem>)
    requires
        sorted(views(left@)),
        sorted(views(right@)),
    ensures
        sorted(views(merged@)),
        forall|item: DocItemView|
            views(merged@).contains(item) <==> views(left@).contains(item) || (views(
                right@,
            ).contains(item) && !has_key(views(left@), item.key())),
{
    let ghost a = views(left@);
    let ghost b = views(right@);
    let mut left = left;
    let mut right = right;
    let mut stack: Vec<DocItem> = Vec::new();
    proof {
        assert(a.take(a.len() as int) =~= a);
        assert(b.take(b.len() as int) =~= b);
        assert forall|item: DocItemView| views(stack@).contains(item) <==> taken(
            a,
            b,
            a.len() as int,
            b.len() as int,
            item,
        ) by {}
    }
    while left.len() > 0 || right.len() > 0
        invariant
            sorted(a),
            sorted(b),
            left.len() <= a.len(),
            right.len() <= b.len(),
            views(left@) == a.take(left.len() as int),
            views(right@) == b.take(right.len() as int),
            descending(views(stack@)),
            all_below(views(left@), views(stack@)),
            all_below(views(right@), views(stack@)),
            forall|item: DocItemView|
                views(stack@).contains(item) <==> taken(
                    a,
                    b,
                    left.len() as int,
                    right.len() as int,
                    item,
                ),
        decreases left.len() + right.len(),
    {
        let ghost stacked = views(stack@);
        let ghost lows = views(left@);
        let ghost rights = views(right@);
        let ghost n = left.len() as int;
        let ghost m = right.len() as int;
        let order = if right.len() == 0 {
            Order::Greater
        } else if left.len() == 0 {
            Order::Less
        } else {
            left[left.len() - 1].compare(&right[right.len() - 1])
        };
        proof {
            if n > 0 {
                assert(lows[n - 1] == a[n - 1]);
            }
            if m > 0 {
                assert(rights[m - 1] == b[m - 1]);
            }
        }
        match order {
            Order::Greater => {
                let ghost rest = left@;
                let item = left.pop().unwrap();
                proof {
                    assert(views(rest).drop_last() =~= views(rest.drop_last()));
                    assert(views(left@) =~= a.take(n - 1));
                    assert(views(rest)[n - 1] == item@);
                    lemma_take_left(a, b, n, m, stacked, n - 1, stacked.push(item@));
                    lemma_push_descending(stacked, lows, rights, item@);
                }
                stack.push(item);
                assert(views(stack@) =~= stacked.push(item@));
            },
            Order::Less => {
                let ghost rest = right@;
                let item = right.pop().unwrap();
                proof {
                    assert(views(rest).drop_last() =~= views(rest.drop_last()));
                    assert(views(right@) =~= b.take(m - 1));
                    assert(views(rest)[m - 1] == item@);
                    lemma_stack_above(a, b, n, m, stacked);
                    lemma_key_beside(a, n, stacked, item@, false);
                    lemma_take_right(a, b, n, m, stacked, m - 1, stacked.push(item@));
                    lemma_push_descending(stacked, rights, lows, item@);
                }
                stack.push(item);
                assert(views(stack@) =~= stacked.push(item@));
            },
            Order::Equal => {
                let ghost rest = right@;
                let item = right.pop().unwrap();
                proof {
                    assert(views(rest).drop_last() =~= views(rest.drop_last()));
                    assert(views(right@) =~= b.take(m - 1));
                    assert(views(rest)[m - 1] == item@);
                    lemma_stack_above(a, b, n, m, stacked);
                    lemma_key_beside(a, n, stacked, item@, true);
                    lemma_take_right(a, b, n, m, stacked, m - 1, stacked.push(item@));
                    lemma_shorter_below(rights, stacked);
                }
            },
        }
    }
    proof {
        assert forall|item: DocItemView| taken(a, b, 0, 0, item) <==> a.contains(item) || (
        b.contains(item) && !has_key(a, item.key())) by {
            if a.contains(item) {
                let i = choose|i: int| 0 <= i < a.len() && a[i] == item;
                assert(held_from(a, 0, item));
            }
            if b.contains(item) {
                let i = choose|i: int| 0 <= i < b.len() && b[i] == item;
                assert(held_from(b, 0, item));
            }
        }
    }
    reversed(stack)
}

/// The stack holds what is left of the left side above `done_left`, and all
/// of it is above the last item of the right side.
proof fn lemma_stack_above(
    left: Seq<DocItemView>,
    right: Seq<DocItemView>,
    done_left: int,
    done_right: int,
    stack: Seq<DocItemView>,
)
    requires
        0 <= done_left <= left.len(),
        0 < done_right <= right.len(),
        all_below(right.take(done_right), stack),
        forall|item: DocItemView|
            stack.contains(item) <==> taken(left, right, done_left, done_right, item),
    ensures
        forall|i: int| done_left <= i < left.len() ==> stack.contains(#[trigger] left[i]),
        forall|j: int|
            0 <= j < stack.len() ==> key_lt(right[done_right - 1].key(), #[trigger] stack[j].key()),
{
    assert forall|i: int| done_left <= i < left.len() implies stack.contains(
        #[trigger] left[i],
    ) by {
        assert(held_from(left, done_left, left[i]));
    }
    let side = right.take(done_right);
    assert forall|j: int| 0 <= j < stack.len() implies key_lt(
        right[done_right - 1].key(),
        #[trigger] stack[j].key(),
    ) by {
        assert(side[done_right - 1] == right[done_right - 1]);
        assert(key_lt(side[done_right - 1].key(), stack[j].key()));
    }
}

/// A side that loses its last item stays below the stack.
proof fn lemma_shorter_below(side: Seq<DocItemView>, stack: Seq<DocItemView>)
    requires
        all_below(side, stack),
        side.len() > 0,
    ensures
        all_below(side.drop_last(), stack),
{
    let shorter = side.drop_last();
    assert forall|i: int, j: int| 0 <= i < shorter.len() && 0 <= j < stack.len() implies key_lt(
        #[trigger] shorter[i].key(),
        #[trigger] stack[j].key(),
    ) by {
        assert(shorter[i] == side[i]);
    }
}

/// The last item of one side, where it is above the other side's last or the
/// other side is empty, goes onto the stack: the stack still descends, and
/// both sides stay below it.
proof fn lemma_push_descending(
    stack: Seq<DocItemView>,
    side: Seq<DocItemView>,
    other: Seq<DocItemView>,
    item: DocItemView,
)
    requires
        descending(stack),
        sorted(side),
        sorted(other),
        all_below(side, stack),
        all_below(other, stack),
        side.len() > 0,
        item == side.last(),
        other.len() == 0 || key_lt(other.last().key(), item.key()),
    ensures
        descending(stack.push(item)),
        all_below(side.drop_last(), stack.push(item)),
        all_below(other, stack.push(item)),
{
    let after = stack.push(item);
    let shorter = side.drop_last();
    assert forall|i: int, j: int| 0 <= i < j < after.len() implies key_lt(
        #[trigger] after[j].key(),
        #[trigger] after[i].key(),
    ) by {
        assert(after[i] == stack[i]);
        if j < stack.len() {
            assert(after[j] == stack[j]);
        } else {
            assert(key_lt(side[side.len() - 1].key(), stack[i].key()));
        }
    }
    assert forall|i: int, j: int| 0 <= i < shorter.len() && 0 <= j < after.len() implies key_lt(
        #[trigger] shorter[i].key(),
        #[trigger] after[j].key(),
    ) by {
        assert(shorter[i] == side[i]);
        if j < stack.len() {
            assert(after[j] == stack[j]);
        } else {
            assert(key_lt(side[i].key(), side[side.len() - 1].key()));
        }
    }
    assert forall|i: int, j: int| 0 <= i < other.len() && 0 <= j < after.len() implies key_lt(
        #[trigger] other[i].key(),
        #[trigger] after[j].key(),
    ) by {
        if j < stack.len() {
            assert(after[j] == stack[j]);
        } else if i < other.len() - 1 {
            assert(key_lt(other[i].key(), other[other.len() - 1].key()));
            lemma_key_lt_transitive(other[i].key(), other.last().key(), item.key());
        }
    }
}

/// Whether the left side has the key of the right side's last item: it has it
/// where its own last item that is left has it, and nowhere else.
proof fn lemma_key_beside(
    left: Seq<DocItemView>,
    done_left: int,
    stack: Seq<DocItemView>,
    item: DocItemView,
    same: bool,
)
    requires
        sorted(left),
        0 <= done_left <= left.len(),
        same ==> done_left > 0 && left[done_left - 1].key() == item.key(),
        !same ==> done_left == 0 || key_lt(left[done_left - 1].key(), item.key()),
        forall|i: int| done_left <= i < left.len() ==> stack.contains(#[trigger] left[i]),
        forall|j: int| 0 <= j < stack.len() ==> key_lt(item.key(), #[trigger] stack[j].key()),
    ensures
        has_key(left, item.key()) == same,
{
    if same {
        assert(left[done_left - 1].key() == item.key());
    } else {
        if has_key(left, item.key()) {
            let i = choose|i: int| 0 <= i < left.len() && #[trigger] left[i].key() == item.key();
            lemma_key_lt_irreflexive(item.key());
            if i >= done_left {
                assert(stack.contains(left[i]));
                let j = choose|j: int| 0 <= j < stack.len() && stack[j] == left[i];
                assert(key_lt(item.key(), stack[j].key()));
            } else if i < done_left - 1 {
                assert(key_lt(left[i].key(), left[done_left - 1].key()));
                lemma_key_lt_transitive(left[i].key(), left[done_left - 1].key(), item.key());
            }
        }
    }
}

/// The sorted catalog of `items`: what offering them one by one to an empty
/// catalog gives, so that of two items with one key the first stays.
pub fn sort(items: Vec<DocItem>) -> (ordered: Vec<DocItem>)
    ensures
        views(ordered@) == extended(Seq::empty(), views(items@)),
        sorted(views(ordered@)),
    decreases items.len(),
{
    let ghost whole = views(items@);
    proof {
        lemma_extended_sorted(Seq::empty(), whole);
    }
    let mut items = items;
    if items.len() <= 1 {
        proof {
            lemma_extended_of_sorted(whole);
        }
        return items;
    }
    let half = items.len() / 2;
    let back = items.split_off(half);
    let ghost first = views(items@);
    let ghost second = views(back@);
    assert(whole =~= first + second);
    let front = sort(items);
    let back = sort(back);
    let ghost sorted_first = views(front@);
    let merged = merge(front, back);
    proof {
        lemma_merge_is_extend(sorted_first, second, views(merged@));
        lemma_extended_concat(Seq::empty(), first, second);
    }
    merged
}

} // verus!
