//! The ordered map from names to packed ranges, which the `fst` crate keeps.
//!
//! Nothing in this file is proved: each function states what `fst` does, as
//! its source shows it, and the rest of the library is verified against these
//! statements.
use crate::item::bytes_of;
use crate::text::bytes_lt;
use fst::Automaton;
use fst::IntoStreamer;
use vstd::prelude::*;

verus! {

/// `fst::Map`, an ordered map from byte strings to numbers. What a map holds
/// is known by [`index_entries`] alone.
#[verifier::external_type_specification]
#[verifier::external_body]
#[verifier::reject_recursive_types(D)]
pub struct ExMap<D>(fst::Map<D>);

/// `fst::MapBuilder`, which takes the pairs of a map one by one. What a
/// builder has taken is known by [`builder_entries`] alone.
#[verifier::external_type_specification]
#[verifier::external_body]
#[verifier::reject_recursive_types(W)]
pub struct ExMapBuilder<W>(fst::MapBuilder<W>);

/// `fst::Error`, with which a builder refuses a key. Nothing is known of it.
#[verifier::external_type_specification]
#[verifier::external_body]
pub struct ExError(fst::Error);

/// The pairs of key and value that a map holds, in the order of their keys.
pub uninterp spec fn index_entries(index: fst::Map<Vec<u8>>) -> Seq<(Seq<u8>, u64)>;

/// The pairs of key and value that a builder has taken, in the order in which
/// they came.
pub uninterp spec fn builder_entries(builder: fst::MapBuilder<Vec<u8>>) -> Seq<(Seq<u8>, u64)>;

/// Whether `key` may come next: it is the first key, or the last one is below
/// it.
pub open spec fn follows(entries: Seq<(Seq<u8>, u64)>, key: Seq<u8>) -> bool {
    entries.len() == 0 || bytes_lt(entries.last().0, key)
}

/// Whether an entry's key is among `accepted`.
pub open spec fn keyed_in(accepted: Set<Seq<u8>>) -> spec_fn((Seq<u8>, u64)) -> bool {
    |entry: (Seq<u8>, u64)| accepted.contains(entry.0)
}

/// The value of an entry.
pub open spec fn value_of() -> spec_fn((Seq<u8>, u64)) -> u64 {
    |entry: (Seq<u8>, u64)| entry.1
}

/// The values of the entries whose key is among `accepted`, in the order of
/// the entries.
pub open spec fn matched(entries: Seq<(Seq<u8>, u64)>, accepted: Set<Seq<u8>>) -> Seq<u64> {
    entries.filter(keyed_in(accepted)).map_values(value_of())
}

/// The byte strings that begin with the bytes of `prefix`.
pub open spec fn beginning_with(prefix: Seq<char>) -> Set<Seq<u8>> {
    Set::new(|key: Seq<u8>| bytes_of(prefix).is_prefix_of(key))
}

/// The one byte string that is the bytes of `name`.
pub open spec fn exactly(name: Seq<char>) -> Set<Seq<u8>> {
    Set::new(|key: Seq<u8>| key == bytes_of(name))
}

/// `MapBuilder::memory`: a builder that has taken nothing yet.
#[verifier::external_body]
pub(crate) fn new_builder() -> (builder: fst::MapBuilder<Vec<u8>>)
    ensures
        builder_entries(builder).len() == 0,
{
    fst::MapBuilder::memory()
}

/// `MapBuilder::insert`: the builder takes a key that is above the last one
/// it took, and refuses any other, which leaves it as it was. A builder in
/// memory has no other way to fail.
#[verifier::external_body]
pub(crate) fn builder_insert(
    builder: &mut fst::MapBuilder<Vec<u8>>,
    key: &[u8],
    value: u64,
) -> (taken: Result<(), fst::Error>)
    ensures
        taken is Ok <==> follows(builder_entries(*old(builder)), key@),
        taken is Ok ==> builder_entries(*final(builder)) == builder_entries(*old(builder)).push(
            (key@, value),
        ),
        taken is Err ==> builder_entries(*final(builder)) == builder_entries(*old(builder)),
{
    builder.insert(key, value)
}

/// `MapBuilder::into_map`: the map of what the builder has taken.
#[verifier::external_body]
pub(crate) fn builder_finish(builder: fst::MapBuilder<Vec<u8>>) -> (index: fst::Map<Vec<u8>>)
    ensures
        index_entries(index) == builder_entries(builder),
{
    builder.into_map()
}

/// `Map::search` with a caller's automaton, the stream drained with
/// `Stream::into_values`: the values of the keys that the search let through,
/// in the order of the keys. Which keys those are is the automaton's matter.
#[verifier::external_body]
pub(crate) fn values_matching<A: Automaton>(index: &fst::Map<Vec<u8>>, aut: &A) -> (values: Vec<
    u64,
>)
    ensures
        exists|accepted: Set<Seq<u8>>| values@ == matched(index_entries(*index), accepted),
{
    index.search(aut).into_stream().into_values()
}

/// `Map::search` with the automaton `Str` of `name`: the value of the key that
/// equals `name`, if the map holds it.
#[verifier::external_body]
pub(crate) fn values_of_name(index: &fst::Map<Vec<u8>>, name: &str) -> (values: Vec<u64>)
    ensures
        values@ == matched(index_entries(*index), exactly(name@)),
{
    index.search(fst::automaton::Str::new(name)).into_stream().into_values()
}

/// `Map::search` with the automaton `Str` of `prefix` under `starts_with`: the
/// values of the keys that begin with `prefix`, in the order of the keys.
#[verifier::external_body]
pub(crate) fn values_of_prefix(index: &fst::Map<Vec<u8>>, prefix: &str) -> (values: Vec<u64>)
    ensures
        values@ == matched(index_entries(*index), beginning_with(prefix@)),
{
    index.search(fst::automaton::Str::new(prefix).starts_with()).into_stream().into_values()
}

/// `Map::stream`, drained with `Stream::into_byte_vec`: every pair of the map,
/// in the order of the keys.
#[verifier::external_body]
pub(crate) fn entries_of(index: &fst::Map<Vec<u8>>) -> (entries: Vec<(Vec<u8>, u64)>)
    ensures
        entries@.len() == index_entries(*index).len(),
        forall|j: int|
            0 <= j < entries@.len() ==> (#[trigger] entries@[j]).0@ == index_entries(*index)[j].0
                && entries@[j].1 == index_entries(*index)[j].1,
{
    index.stream().into_byte_vec()
}

} // verus!
