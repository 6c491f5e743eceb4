//! The frozen catalog: the items in order, and for each name the range of
//! items that carry it.
use crate::catalog::sorted;
use crate::catalog::views;
use crate::catalog::RustDoc;
use crate::error::SeekerError;
use crate::index::beginning_with;
use crate::index::builder_entries;
use crate::index::builder_finish;
use crate::index::builder_insert;
use crate::index::entries_of;
use crate::index::exactly;
use crate::index::follows;
use crate::index::index_entries;
use crate::index::keyed_in;
use crate::index::matched;
use crate::index::new_builder;
use crate::index::value_of;
use crate::index::values_matching;
use crate::index::values_of_name;
use crate::index::values_of_prefix;
use crate::item::DocItem;
use crate::item::DocItemView;
use crate::ordering::key_lt;
use crate::text::bytes_lt;
use crate::text::compare_bytes;
use crate::text::lemma_bytes_lt_transitive;
use crate::text::Order;
use fst::Automaton;
use vstd::prelude::*;

verus! {

/// The most items that an index can address: a range packs each of its two
/// bounds into 32 bits.
pub const MAX_ITEMS: usize = 0xffff_ffff;

/// The range from `start` up to, not including, `end`, packed into one number.
pub open spec fn packed(start: int, end: int) -> int {
    start * 0x1_0000_0000 + end
}

/// The first place of a packed range.
pub open spec fn range_start(range: u64) -> int {
    range as int / 0x1_0000_0000
}

/// The place behind the last of a packed range.
pub open spec fn range_end(range: u64) -> int {
    range as int % 0x1_0000_0000
}

/// The names of the items, as the index keys them.
pub open spec fn names(items: Seq<DocItemView>) -> Seq<Seq<u8>> {
    items.map_values(|item: DocItemView| item.key().name)
}

/// Whether `entries` index the first `upto` of `keys`: each entry's range is
/// not empty and holds only places of its own key, the first range starts at
/// the first place, each range starts where the one before it ends, the last
/// ends at `upto`, and the keys of the entries ascend.
pub open spec fn covers(entries: Seq<(Seq<u8>, u64)>, keys: Seq<Seq<u8>>, upto: int) -> bool {
    &&& 0 <= upto <= keys.len()
    &&& entries.len() == 0 ==> upto == 0
    &&& entries.len() > 0 ==> range_start(entries[0].1) == 0 && range_end(entries.last().1) == upto
    &&& forall|j: int|
        0 <= j < entries.len() ==> 0 <= range_start((#[trigger] entries[j]).1) < range_end(
            entries[j].1,
        ) <= upto
    &&& forall|j: int|
        0 <= j < entries.len() - 1 ==> range_end((#[trigger] entries[j]).1) == range_start(
            entries[j + 1].1,
        )
    &&& forall|j: int, i: int|
        0 <= j < entries.len() && range_start(entries[j].1) <= i < range_end(entries[j].1)
            ==> #[trigger] keys[i] == (#[trigger] entries[j]).0
    &&& forall|j: int, k: int|
        0 <= j < k < entries.len() ==> bytes_lt((#[trigger] entries[j]).0, (#[trigger] entries[k]).0)
}

/// The items of the ranges, range after range.
pub open spec fn gathered(items: Seq<DocItemView>, ranges: Seq<u64>) -> Seq<DocItemView>
    decreases ranges.len(),
{
    if ranges.len() == 0 {
        Seq::empty()
    } else {
        gathered(items, ranges.drop_last()) + items.subrange(
            range_start(ranges.last()),
            range_end(ranges.last()),
        )
    }
}

/// Whether an item's name is among `accepted`.
pub open spec fn named_in(accepted: Set<Seq<u8>>) -> spec_fn(DocItemView) -> bool {
    |item: DocItemView| accepted.contains(item.key().name)
}

/// The items whose name is among `accepted`, in the order of the catalog.
pub open spec fn selected(items: Seq<DocItemView>, accepted: Set<Seq<u8>>) -> Seq<DocItemView> {
    items.filter(named_in(accepted))
}

/// The plain values of a sequence of borrowed items.
pub open spec fn ref_views(items: Seq<&DocItem>) -> Seq<DocItemView> {
    items.map_values(|item: &DocItem| item@)
}

/// Whether each of the ranges lies within the first `len` places.
pub open spec fn within(ranges: Seq<u64>, len: int) -> bool {
    forall|k: int|
        0 <= k < ranges.len() ==> 0 <= range_start(#[trigger] ranges[k]) <= range_end(ranges[k])
            <= len
}

/// In a sorted catalog the names never descend.
pub proof fn lemma_names_ascend(items: Seq<DocItemView>, i: int, j: int)
    requires
        sorted(items),
        0 <= i < j < items.len(),
    ensures
        names(items)[i] == names(items)[j] || bytes_lt(names(items)[i], names(items)[j]),
{
    assert(key_lt(items[i].key(), items[j].key()));
}

/// A packed range gives back its two bounds.
pub proof fn lemma_unpack(start: int, end: int)
    requires
        0 <= start <= 0xffff_ffff,
        0 <= end <= 0xffff_ffff,
    ensures
        0 <= packed(start, end) <= u64::MAX,
        range_start(packed(start, end) as u64) == start,
        range_end(packed(start, end) as u64) == end,
{
}

proof fn lemma_covers_push(
    entries: Seq<(Seq<u8>, u64)>,
    keys: Seq<Seq<u8>>,
    start: int,
    end: int,
    key: Seq<u8>,
    range: u64,
)
    requires
        covers(entries, keys, start),
        start < end <= keys.len(),
        forall|i: int| start <= i < end ==> keys[i] == key,
        follows(entries, key),
        range_start(range) == start,
        range_end(range) == end,
    ensures
        covers(entries.push((key, range)), keys, end),
{
    let after = entries.push((key, range));
    let n = entries.len() as int;
    assert(after[n] == (key, range));
    assert forall|j: int| 0 <= j < after.len() implies 0 <= range_start(
        (#[trigger] after[j]).1,
    ) < range_end(after[j].1) <= end by {
        if j < n {
            assert(after[j] == entries[j]);
        }
    }
    assert forall|j: int| 0 <= j < after.len() - 1 implies range_end((#[trigger] after[j]).1)
        == range_start(after[j + 1].1) by {
        assert(after[j] == entries[j]);
        if j + 1 < n {
            assert(after[j + 1] == entries[j + 1]);
        }
    }
    assert forall|j: int, i: int|
        0 <= j < after.len() && range_start(after[j].1) <= i < range_end(
            after[j].1,
        ) implies #[trigger] keys[i] == (#[trigger] after[j]).0 by {
        if j < n {
            assert(after[j] == entries[j]);
        }
    }
    assert forall|j: int, k: int| 0 <= j < k < after.len() implies bytes_lt(
        (#[trigger] after[j]).0,
        (#[trigger] after[k]).0,
    ) by {
        assert(after[j] == entries[j]);
        if k < n {
            assert(after[k] == entries[k]);
        } else if j < n - 1 {
            assert(bytes_lt(entries[j].0, entries[n - 1].0));
            lemma_bytes_lt_transitive(entries[j].0, entries[n - 1].0, key);
        }
    }
    if n > 0 {
        assert(after[0] == entries[0]);
    }
}

/// A catalog made ready for searching: its items in order, and an index from
/// each name to the packed range of the items that carry it.
#[derive(Debug)]
pub struct RustDocSeeker {
    items: Vec<DocItem>,
    index: fst::Map<Vec<u8>>,
}

impl View for RustDocSeeker {
    type V = Seq<DocItemView>;

    closed spec fn view(&self) -> Seq<DocItemView> {
        views(self.items@)
    }
}

impl RustDoc {
    /// Freezes the catalog into a seeker. The items keep their order, and the
    /// index gets one entry for each name, whose range holds the items of that
    /// name. A catalog of more than [`MAX_ITEMS`] items is refused.
    pub fn build(self) -> (seeker: Result<RustDocSeeker, SeekerError>)
        ensures
            self@.len() > MAX_ITEMS ==> seeker is Err && seeker->Err_0 == SeekerError::Capacity,
            self@.len() <= MAX_ITEMS ==> seeker is Ok && seeker->Ok_0@ == self@ && covers(
                seeker->Ok_0.ranges(),
                names(self@),
                self@.len() as int,
            ),
            sorted(self@),
    {
        let items = self.into_iter();
        let n = items.len();
        match check_capacity(n) {
            Ok(()) => {},
            Err(error) => return Err(error),
        }
        let ghost keys = names(views(items@));
        let mut builder = new_builder();
        let mut start: usize = 0;
        while start < n
            invariant
                start <= n,
                n == items.len(),
                n <= MAX_ITEMS,
                keys == names(views(items@)),
                sorted(views(items@)),
                covers(builder_entries(builder), keys, start as int),
                start == 0 || start == n || keys[start - 1] != keys[start as int],
            decreases n - start,
        {
            let key = items[start].index_key();
            let mut end: usize = start + 1;
            while end < n && same_bytes(items[end].index_key(), key)
                invariant
                    start < end <= n,
                    n == items.len(),
                    keys == names(views(items@)),
                    key@ == keys[start as int],
                    forall|i: int| start <= i < end ==> keys[i] == key@,
                decreases n - end,
            {
                end += 1;
            }
            let range = pack(start, end);
            proof {
                let entries = builder_entries(builder);
                if entries.len() > 0 {
                    let last = entries.len() - 1;
                    assert(keys[start - 1] == entries[last].0);
                    lemma_names_ascend(views(items@), start - 1, start as int);
                }
                lemma_covers_push(entries, keys, start as int, end as int, key@, range);
            }
            // The names ascend from run to run, so the builder takes each of them.
            match builder_insert(&mut builder, key, range) {
                Ok(()) => {},
                Err(_) => {
                    assert(false);
                },
            }
            start = end;
        }
        let index = builder_finish(builder);
        Ok(RustDocSeeker { items, index })
    }
}

/// Whether an index can address `count` items: no more than [`MAX_ITEMS`].
pub fn check_capacity(count: usize) -> (checked: Result<(), SeekerError>)
    ensures
        count <= MAX_ITEMS ==> checked is Ok,
        count > MAX_ITEMS ==> checked is Err && checked->Err_0 == SeekerError::Capacity,
{
    if count > MAX_ITEMS {
        Err(SeekerError::Capacity)
    } else {
        Ok(())
    }
}

/// Packs the range from `start` up to, not including, `end`.
pub fn pack(start: usize, end: usize) -> (range: u64)
    requires
        start <= MAX_ITEMS,
        end <= MAX_ITEMS,
    ensures
        range == packed(start as int, end as int),
        range_start(range) == start,
        range_end(range) == end,
{
    let high = start as u64;
    let low = end as u64;
    assert((high << 32) | low == high * 0x1_0000_0000 + low) by (bit_vector)
        requires
            high <= 0xffff_ffff,
            low <= 0xffff_ffff,
    ;
    proof {
        lemma_unpack(start as int, end as int);
    }
    (high << 32) | low
}

/// The two bounds of a packed range.
pub fn unpack(range: u64) -> (bounds: (usize, usize))
    ensures
        bounds.0 == range_start(range),
        bounds.1 == range_end(range),
{
    assert(range >> 32 == range / 0x1_0000_0000) by (bit_vector);
    assert(range & 0xffff_ffff == range % 0x1_0000_0000) by (bit_vector);
    ((range >> 32) as usize, (range & 0xffff_ffff) as usize)
}

/// Whether two byte strings are the same.
fn same_bytes(a: &[u8], b: &[u8]) -> (same: bool)
    ensures
        same == (a@ == b@),
{
    match compare_bytes(a, b) {
        Order::Equal => true,
        _ => false,
    }
}

impl RustDocSeeker {
    #[verifier::type_invariant]
    spec fn indexed(&self) -> bool {
        &&& sorted(views(self.items@))
        &&& self.items@.len() <= MAX_ITEMS
        &&& covers(index_entries(self.index), names(views(self.items@)), self.items@.len() as int)
    }

    /// The entries of the index: each name with its packed range, in the
    /// order of the names.
    pub closed spec fn ranges(&self) -> Seq<(Seq<u8>, u64)> {
        index_entries(self.index)
    }
}

/// A filter keeps all of a sequence whose items all pass, and nothing of one
/// whose items all fail.
proof fn lemma_filter_uniform(items: Seq<DocItemView>, pred: spec_fn(DocItemView) -> bool)
    ensures
        (forall|i: int| 0 <= i < items.len() ==> pred(#[trigger] items[i])) ==> items.filter(pred)
            == items,
        (forall|i: int| 0 <= i < items.len() ==> !pred(#[trigger] items[i])) ==> items.filter(
            pred,
        ).len() == 0,
    decreases items.len(),
{
    reveal(Seq::filter);
    if items.len() > 0 {
        let front = items.drop_last();
        lemma_filter_uniform(front, pred);
        assert forall|i: int| 0 <= i < front.len() implies front[i] == items[i] by {}
        if forall|i: int| 0 <= i < items.len() ==> pred(#[trigger] items[i]) {
            assert forall|i: int| 0 <= i < front.len() implies pred(#[trigger] front[i]) by {
                assert(front[i] == items[i]);
            }
            assert(items.filter(pred) =~= items);
        }
        if forall|i: int| 0 <= i < items.len() ==> !pred(#[trigger] items[i]) {
            assert forall|i: int| 0 <= i < front.len() implies !pred(#[trigger] front[i]) by {
                assert(front[i] == items[i]);
            }
        }
    }
}

/// One more entry adds its value to the matched values, if its key is accepted.
proof fn lemma_matched_push(
    entries: Seq<(Seq<u8>, u64)>,
    entry: (Seq<u8>, u64),
    accepted: Set<Seq<u8>>,
)
    ensures
        matched(entries.push(entry), accepted) == if accepted.contains(entry.0) {
            matched(entries, accepted).push(entry.1)
        } else {
            matched(entries, accepted)
        },
{
    Seq::lemma_filter_push(entries, entry, keyed_in(accepted));
    entries.filter(keyed_in(accepted)).lemma_push_map_commute(value_of(), entry);
}

/// One more range adds its items to the gathered items.
proof fn lemma_gathered_push(items: Seq<DocItemView>, ranges: Seq<u64>, range: u64)
    ensures
        gathered(items, ranges.push(range)) == gathered(items, ranges) + items.subrange(
            range_start(range),
            range_end(range),
        ),
{
    assert(ranges.push(range).drop_last() =~= ranges);
}

/// A run of items of one name adds all of itself to the selected items, or
/// nothing.
proof fn lemma_selected_run(
    items: Seq<DocItemView>,
    start: int,
    end: int,
    name: Seq<u8>,
    accepted: Set<Seq<u8>>,
)
    requires
        0 <= start <= end <= items.len(),
        forall|i: int| start <= i < end ==> names(items)[i] == name,
    ensures
        selected(items.take(end), accepted) == if accepted.contains(name) {
            selected(items.take(start), accepted) + items.subrange(start, end)
        } else {
            selected(items.take(start), accepted)
        },
{
    let run = items.subrange(start, end);
    let pred = named_in(accepted);
    assert(items.take(end) =~= items.take(start) + run);
    Seq::filter_distributes_over_add(items.take(start), run, pred);
    assert forall|i: int| 0 <= i < run.len() implies pred(#[trigger] run[i]) == accepted.contains(
        name,
    ) by {
        assert(names(items)[start + i] == name);
    }
    lemma_filter_uniform(run, pred);
    if !accepted.contains(name) {
        assert(run.filter(pred) =~= Seq::<DocItemView>::empty());
        assert(items.take(start).filter(pred) + run.filter(pred) =~= items.take(start).filter(
            pred,
        ));
    }
}

/// The place up to which the first `count` entries cover the catalog.
spec fn covered(entries: Seq<(Seq<u8>, u64)>, count: int) -> int {
    if count == 0 {
        0
    } else {
        range_end(entries[count - 1].1)
    }
}

/// The values matched among the first `count` entries gather the selected
/// items among those that these entries cover.
proof fn lemma_matched_prefix(
    items: Seq<DocItemView>,
    entries: Seq<(Seq<u8>, u64)>,
    accepted: Set<Seq<u8>>,
    count: int,
)
    requires
        covers(entries, names(items), items.len() as int),
        0 <= count <= entries.len(),
    ensures
        within(matched(entries.take(count), accepted), items.len() as int),
        gathered(items, matched(entries.take(count), accepted)) == selected(
            items.take(covered(entries, count)),
            accepted,
        ),
    decreases count,
{
    if count == 0 {
        assert(entries.take(0) =~= Seq::<(Seq<u8>, u64)>::empty());
        assert(matched(entries.take(0), accepted) =~= Seq::<u64>::empty()) by {
            reveal(Seq::filter);
        }
        assert(items.take(0) =~= Seq::<DocItemView>::empty());
        assert(selected(items.take(0), accepted) =~= Seq::<DocItemView>::empty()) by {
            reveal(Seq::filter);
        }
    } else {
        let before = entries.take(count - 1);
        let entry = entries[count - 1];
        let start = range_start(entry.1);
        let end = range_end(entry.1);
        let old_values = matched(before, accepted);
        lemma_matched_prefix(items, entries, accepted, count - 1);
        assert(entries.take(count) =~= before.push(entry));
        lemma_matched_push(before, entry, accepted);
        assert(start == covered(entries, count - 1)) by {
            if count > 1 {
                assert(range_end(entries[count - 2].1) == range_start(entries[count - 2 + 1].1));
            }
        }
        assert(0 <= start < end <= items.len());
        assert forall|i: int| start <= i < end implies names(items)[i] == entry.0 by {}
        lemma_selected_run(items, start, end, entry.0, accepted);
        if accepted.contains(entry.0) {
            let new_values = old_values.push(entry.1);
            lemma_gathered_push(items, old_values, entry.1);
            assert forall|k: int| 0 <= k < new_values.len() implies 0 <= range_start(
                #[trigger] new_values[k],
            ) <= range_end(new_values[k]) <= items.len() by {
                if k < old_values.len() {
                    assert(new_values[k] == old_values[k]);
                }
            }
        }
    }
}

/// In a seeker's index, the values of the accepted names are ranges of the
/// catalog, and gather the items whose name is accepted.
pub proof fn lemma_matched_gathers(
    items: Seq<DocItemView>,
    entries: Seq<(Seq<u8>, u64)>,
    accepted: Set<Seq<u8>>,
)
    requires
        covers(entries, names(items), items.len() as int),
    ensures
        within(matched(entries, accepted), items.len() as int),
        gathered(items, matched(entries, accepted)) == selected(items, accepted),
{
    lemma_matched_prefix(items, entries, accepted, entries.len() as int);
    assert(entries.take(entries.len() as int) =~= entries);
    assert(items.take(items.len() as int) =~= items);
    if entries.len() == 0 {
        assert(items.take(0) =~= items);
    }
}

/// A search that accepts every name of the catalog yields the whole catalog,
/// in its own order.
pub proof fn lemma_accept_all(items: Seq<DocItemView>, accepted: Set<Seq<u8>>)
    requires
        forall|i: int| 0 <= i < items.len() ==> accepted.contains(#[trigger] names(items)[i]),
    ensures
        selected(items, accepted) == items,
{
    let pred = named_in(accepted);
    assert forall|i: int| 0 <= i < items.len() implies pred(#[trigger] items[i]) by {
        assert(accepted.contains(names(items)[i]));
    }
    lemma_filter_uniform(items, pred);
}

/// A search finds an item where the catalog holds it and its name is accepted,
/// and nowhere else.
pub proof fn lemma_selected_holds(
    items: Seq<DocItemView>,
    accepted: Set<Seq<u8>>,
    item: DocItemView,
)
    ensures
        selected(items, accepted).contains(item) <==> items.contains(item) && accepted.contains(
            item.key().name,
        ),
{
    let pred = named_in(accepted);
    if selected(items, accepted).contains(item) {
        let found = selected(items, accepted);
        let k = choose|k: int| 0 <= k < found.len() && found[k] == item;
        items.lemma_filter_pred(pred, k);
        items.lemma_filter_contains_rev(pred, item);
    }
    if items.contains(item) && accepted.contains(item.key().name) {
        let k = choose|k: int| 0 <= k < items.len() && items[k] == item;
        assert(pred(items[k]));
        items.lemma_filter_contains(pred, k);
    }
}

/// What a search finds stands in the order of the catalog: of a sorted
/// catalog it is sorted.
pub proof fn lemma_selected_sorted(items: Seq<DocItemView>, accepted: Set<Seq<u8>>)
    requires
        sorted(items),
    ensures
        sorted(selected(items, accepted)),
    decreases items.len(),
{
    reveal(Seq::filter);
    if items.len() > 0 {
        let front = items.drop_last();
        let last = items.last();
        assert(sorted(front)) by {
            assert forall|i: int, j: int| 0 <= i < j < front.len() implies key_lt(
                #[trigger] front[i].key(),
                #[trigger] front[j].key(),
            ) by {
                assert(front[i] == items[i] && front[j] == items[j]);
            }
        }
        lemma_selected_sorted(front, accepted);
        let found = selected(front, accepted);
        if accepted.contains(last.key().name) {
            let after = found.push(last);
            assert(selected(items, accepted) == after);
            assert forall|i: int, j: int| 0 <= i < j < after.len() implies key_lt(
                #[trigger] after[i].key(),
                #[trigger] after[j].key(),
            ) by {
                assert(after[i] == found[i]);
                if j < found.len() {
                    assert(after[j] == found[j]);
                } else {
                    assert(found.contains(found[i]));
                    lemma_selected_holds(front, accepted, found[i]);
                    let k = choose|k: int| 0 <= k < front.len() && front[k] == found[i];
                    assert(items[k] == found[i]);
                    assert(key_lt(items[k].key(), items[items.len() - 1].key()));
                }
            }
        }
    }
}

/// Every name begins with the empty prefix.
pub proof fn lemma_empty_prefix(items: Seq<DocItemView>)
    ensures
        selected(items, beginning_with(Seq::empty())) == items,
{
    assert forall|i: int| 0 <= i < items.len() implies beginning_with(Seq::empty()).contains(
        #[trigger] names(items)[i],
    ) by {
        let key = names(items)[i];
        assert(crate::item::bytes_of(Seq::empty()) =~= Seq::<u8>::empty());
        assert(key.subrange(0, 0) =~= Seq::<u8>::empty());
    }
    lemma_accept_all(items, beginning_with(Seq::empty()));
}

/// Every place of the catalog lies in the range of exactly one entry.
pub proof fn lemma_ranges_partition(entries: Seq<(Seq<u8>, u64)>, keys: Seq<Seq<u8>>, place: int)
    requires
        covers(entries, keys, keys.len() as int),
        0 <= place < keys.len(),
    ensures
        exists|j: int|
            0 <= j < entries.len() && range_start((#[trigger] entries[j]).1) <= place < range_end(
                entries[j].1,
            ),
        forall|j: int, k: int|
            0 <= j < entries.len() && 0 <= k < entries.len() && range_start(
                (#[trigger] entries[j]).1,
            ) <= place < range_end(entries[j].1) && range_start((#[trigger] entries[k]).1) <= place
                < range_end(entries[k].1) ==> j == k,
{
    lemma_range_of_place(entries, keys, place, entries.len() as int);
    assert forall|j: int, k: int|
        0 <= j < entries.len() && 0 <= k < entries.len() && range_start(
            (#[trigger] entries[j]).1,
        ) <= place < range_end(entries[j].1) && range_start((#[trigger] entries[k]).1) <= place
            < range_end(entries[k].1) implies j == k by {
        if j < k {
            lemma_ranges_ascend(entries, keys, j, k);
        } else if k < j {
            lemma_ranges_ascend(entries, keys, k, j);
        }
    }
}

proof fn lemma_ranges_ascend(entries: Seq<(Seq<u8>, u64)>, keys: Seq<Seq<u8>>, j: int, k: int)
    requires
        covers(entries, keys, keys.len() as int),
        0 <= j < k < entries.len(),
    ensures
        range_end(entries[j].1) <= range_start(entries[k].1),
    decreases k - j,
{
    if j + 1 < k {
        lemma_ranges_ascend(entries, keys, j + 1, k);
        assert(range_start(entries[j + 1].1) < range_end(entries[j + 1].1));
    }
}

proof fn lemma_range_of_place(
    entries: Seq<(Seq<u8>, u64)>,
    keys: Seq<Seq<u8>>,
    place: int,
    count: int,
)
    requires
        covers(entries, keys, keys.len() as int),
        0 <= count <= entries.len(),
        0 <= place,
        count > 0 ==> place < range_end(entries[count - 1].1),
        count == 0 ==> place < 0,
    ensures
        exists|j: int|
            0 <= j < entries.len() && range_start((#[trigger] entries[j]).1) <= place < range_end(
                entries[j].1,
            ),
    decreases count,
{
    if count > 0 {
        if range_start(entries[count - 1].1) <= place {
        } else {
            if count > 1 {
                assert(range_end(entries[count - 2].1) == range_start(entries[count - 1].1));
            }
            lemma_range_of_place(entries, keys, place, count - 1);
        }
    }
}

impl RustDocSeeker {
    /// The items, in the order of their keys.
    pub fn items(&self) -> (items: &[DocItem])
        ensures
            views(items@) == self@,
            sorted(self@),
            self@.len() <= MAX_ITEMS,
            covers(self.ranges(), names(self@), self@.len() as int),
    {
        proof {
            use_type_invariant(self);
        }
        self.items.as_slice()
    }

    /// The entries of the index: each name with the two bounds of its range,
    /// in the order of the names.
    pub fn entries(&self) -> (listed: Vec<(Vec<u8>, usize, usize)>)
        ensures
            listed@.len() == self.ranges().len(),
            forall|j: int|
                0 <= j < listed@.len() ==> (#[trigger] listed@[j]).0@ == self.ranges()[j].0
                    && listed@[j].1 == range_start(self.ranges()[j].1) && listed@[j].2
                    == range_end(self.ranges()[j].1),
    {
        let held = entries_of(&self.index);
        let ghost ranges = self.ranges();
        let mut listed: Vec<(Vec<u8>, usize, usize)> = Vec::new();
        for entry in it: held
            invariant
                it.seq() == held@,
                ranges == index_entries(self.index),
                held@.len() == ranges.len(),
                forall|j: int|
                    0 <= j < held@.len() ==> (#[trigger] held@[j]).0@ == ranges[j].0 && held@[j].1
                        == ranges[j].1,
                listed@.len() == it.index(),
                forall|j: int|
                    0 <= j < listed@.len() ==> (#[trigger] listed@[j]).0@ == ranges[j].0
                        && listed@[j].1 == range_start(ranges[j].1) && listed@[j].2 == range_end(
                        ranges[j].1,
                    ),
        {
            let (name, range) = entry;
            let (start, end) = unpack(range);
            listed.push((name, start, end));
        }
        listed
    }

    /// The items of the packed ranges, range after range.
    pub fn items_in(&self, ranges: &Vec<u64>) -> (found: Vec<&DocItem>)
        requires
            within(ranges@, self@.len() as int),
        ensures
            ref_views(found@) == gathered(self@, ranges@),
    {
        let mut found: Vec<&DocItem> = Vec::new();
        let mut k: usize = 0;
        assert(ranges@.take(0) =~= Seq::<u64>::empty());
        assert(ref_views(found@) =~= Seq::<DocItemView>::empty());
        while k < ranges.len()
            invariant
                k <= ranges.len(),
                within(ranges@, self@.len() as int),
                ref_views(found@) == gathered(self@, ranges@.take(k as int)),
            decreases ranges.len() - k,
        {
            let range = ranges[k];
            let (start, end) = unpack(range);
            proof {
                assert(ranges@.take(k + 1).drop_last() =~= ranges@.take(k as int));
                assert(ranges@.take(k + 1).last() == range);
            }
            let ghost before = ref_views(found@);
            let mut i: usize = start;
            assert(self@.subrange(start as int, start as int) =~= Seq::<DocItemView>::empty());
            while i < end
                invariant
                    start <= i <= end <= self.items.len(),
                    self@ == views(self.items@),
                    ref_views(found@) == before + self@.subrange(start as int, i as int),
                decreases end - i,
            {
                let ghost so_far = found@;
                found.push(&self.items[i]);
                proof {
                    assert(found@ == so_far.push(&self.items@[i as int]));
                    assert(ref_views(found@) =~= ref_views(so_far).push(self@[i as int]));
                    assert(self@.subrange(start as int, i + 1) =~= self@.subrange(
                        start as int,
                        i as int,
                    ).push(self@[i as int]));
                }
                i += 1;
            }
            k += 1;
        }
        assert(ranges@.take(k as int) =~= ranges@);
        found
    }

    /// The items that the automaton lets through: for some set of names, the
    /// items of the catalog whose name is in the set, in the order of the
    /// catalog. The automaton decides the set; the index runs it over the
    /// names and leaves out whole branches where it says that no match can
    /// follow.
    pub fn search<A: Automaton>(&self, aut: &A) -> (found: Vec<&DocItem>)
        ensures
            exists|accepted: Set<Seq<u8>>| ref_views(found@) == selected(self@, accepted),
            sorted(ref_views(found@)),
    {
        proof {
            use_type_invariant(self);
        }
        let ranges = values_matching(&self.index, aut);
        proof {
            let accepted = choose|accepted: Set<Seq<u8>>|
                ranges@ == matched(index_entries(self.index), accepted);
            lemma_matched_gathers(self@, index_entries(self.index), accepted);
            lemma_selected_sorted(self@, accepted);
        }
        let found = self.items_in(&ranges);
        found
    }

    /// The items named `name`, in the order of the catalog.
    pub fn search_exact(&self, name: &str) -> (found: Vec<&DocItem>)
        ensures
            ref_views(found@) == selected(self@, exactly(name@)),
    {
        proof {
            use_type_invariant(self);
            lemma_matched_gathers(self@, index_entries(self.index), exactly(name@));
        }
        let ranges = values_of_name(&self.index, name);
        self.items_in(&ranges)
    }

    /// The items whose name begins with `prefix`, in the order of the catalog.
    pub fn search_prefix(&self, prefix: &str) -> (found: Vec<&DocItem>)
        ensures
            ref_views(found@) == selected(self@, beginning_with(prefix@)),
    {
        proof {
            use_type_invariant(self);
            lemma_matched_gathers(self@, index_entries(self.index), beginning_with(prefix@));
        }
        let ranges = values_of_prefix(&self.index, prefix);
        self.items_in(&ranges)
    }
}

} // verus!
