//! Reading a manifest: each fragment is normalized, read as JSON, decoded
//! into its record and resolved into items of the catalog.
use crate::catalog::extended;
use crate::catalog::views;
use crate::catalog::RustDoc;
use crate::document::document;
use crate::document::parse;
use crate::error::SeekerError;
use crate::item::DocItem;
use crate::item::DocItemView;
use crate::item::TypeItem;
use crate::item::TypeItemView;
use crate::item::MAX_TYPE_TAG;
use crate::json::fix_json;
use crate::json::normalize_into;
use crate::json::normalized;
use crate::manifest::find;
use crate::manifest::fragment;
use crate::manifest::fragment_bounds;
use crate::manifest::is_fragment_line;
use crate::manifest::position;
use crate::manifest::starts_with;
use crate::record::decode;
use crate::record::record_of;
use crate::record::RawItem;
use crate::record::RawItemView;
use crate::record::RawParent;
use crate::record::RawRecord;
use crate::record::RawRecordView;
use crate::text::chars_of;
use vstd::prelude::*;

verus! {

/// The path in force at the item at place `at`: its own where that is not
/// empty, else the path in force at the item before it. Before the first item
/// the empty path is in force.
pub open spec fn path_at(items: Seq<RawItemView>, at: int) -> Seq<char>
    decreases at + 1,
{
    if at < 0 || at >= items.len() {
        Seq::empty()
    } else if items[at].path.len() > 0 {
        items[at].path
    } else {
        path_at(items, at - 1)
    }
}

/// The item of the catalog that the record's item at place `at` resolves to.
/// A parent's place outside the list of parents is a schema error; after
/// that, the item's own tag and then its parent's tag must be known.
pub open spec fn resolved_at(record: RawRecordView, at: int) -> Result<DocItemView, SeekerError> {
    let item = record.items[at];
    let name = TypeItemView { tag: item.ty, text: item.name };
    let path = path_at(record.items, at);
    match item.parent_idx {
        Some(place) => if place >= record.parents.len() {
            Err(SeekerError::Schema)
        } else if item.ty > MAX_TYPE_TAG {
            Err(SeekerError::UnknownTypeTag(item.ty))
        } else if record.parents[place as int].ty > MAX_TYPE_TAG {
            Err(SeekerError::UnknownTypeTag(record.parents[place as int].ty))
        } else {
            Ok(
                DocItemView {
                    name,
                    parent: Some(
                        TypeItemView {
                            tag: record.parents[place as int].ty,
                            text: record.parents[place as int].name,
                        },
                    ),
                    path,
                    desc: item.desc,
                },
            )
        },
        None => if item.ty > MAX_TYPE_TAG {
            Err(SeekerError::UnknownTypeTag(item.ty))
        } else {
            Ok(DocItemView { name, parent: None, path, desc: item.desc })
        },
    }
}

/// What the first `count` items of the record resolve to: the items of the
/// catalog in the record's order, or the error of the first item that has one.
pub open spec fn resolved_upto(record: RawRecordView, count: int) -> Result<
    Seq<DocItemView>,
    SeekerError,
>
    decreases count,
{
    if count <= 0 {
        Ok(Seq::empty())
    } else {
        match resolved_upto(record, count - 1) {
            Err(error) => Err(error),
            Ok(items) => match resolved_at(record, count - 1) {
                Err(error) => Err(error),
                Ok(item) => Ok(items.push(item)),
            },
        }
    }
}

/// What the record resolves to.
pub open spec fn resolved(record: RawRecordView) -> Result<Seq<DocItemView>, SeekerError> {
    resolved_upto(record, record.items.len() as int)
}

/// What the text of a fragment holds. Text that is not JSON after
/// normalizing, or JSON of another shape than a record's, is a schema error.
pub open spec fn fragment_items(text: Seq<char>) -> Result<Seq<DocItemView>, SeekerError> {
    match document(normalized(text)) {
        None => Err(SeekerError::Schema),
        Some(json) => match record_of(json) {
            None => Err(SeekerError::Schema),
            Some(record) => resolved(record),
        },
    }
}

/// The catalog after one line of the manifest. A line that holds no fragment
/// leaves it as it is; the items of a fragment are offered to it in their
/// order.
pub open spec fn after_line(catalog: Seq<DocItemView>, line: Seq<char>) -> Result<
    Seq<DocItemView>,
    SeekerError,
> {
    if !is_fragment_line(line) {
        Ok(catalog)
    } else {
        match fragment(line) {
            None => Err(SeekerError::ManifestSyntax),
            Some(text) => match fragment_items(text) {
                Err(error) => Err(error),
                Ok(items) => Ok(extended(catalog, items)),
            },
        }
    }
}

/// The catalog after the lines of `text`, which line feeds part, or the error
/// of the first line that has one.
pub open spec fn after_lines(catalog: Seq<DocItemView>, text: Seq<char>) -> Result<
    Seq<DocItemView>,
    SeekerError,
>
    decreases text.len(),
{
    let at = position(text, '\n');
    match after_line(catalog, text.take(at)) {
        Err(error) => Err(error),
        Ok(next) => if 0 <= at < text.len() {
            after_lines(next, text.skip(at + 1))
        } else {
            Ok(next)
        },
    }
}

/// The catalog that a manifest describes.
pub open spec fn parsed(text: Seq<char>) -> Result<Seq<DocItemView>, SeekerError> {
    after_lines(Seq::empty(), text)
}

/// Where the first item of a record has a path, the path in force is never
/// empty.
proof fn lemma_path_in_force(items: Seq<RawItemView>, at: int)
    requires
        0 <= at < items.len(),
        items[0].path.len() > 0,
    ensures
        path_at(items, at).len() > 0,
    decreases at,
{
    if items[at].path.len() == 0 {
        lemma_path_in_force(items, at - 1);
    }
}

/// A record that resolves gives one item for each of its own, each as
/// [`resolved_at`] says.
pub proof fn lemma_resolved_items(record: RawRecordView, count: int)
    requires
        0 <= count <= record.items.len(),
        resolved_upto(record, count) is Ok,
    ensures
        resolved_upto(record, count)->Ok_0.len() == count,
        forall|at: int|
            0 <= at < count ==> resolved_at(record, at) == Ok::<DocItemView, SeekerError>(
                #[trigger] resolved_upto(record, count)->Ok_0[at],
            ),
    decreases count,
{
    if count > 0 {
        lemma_resolved_items(record, count - 1);
    }
}

/// Where the first item of a record has a path, every resolved item has one.
pub proof fn lemma_path_never_empty(record: RawRecordView, at: int)
    requires
        resolved(record) is Ok,
        0 <= at < record.items.len(),
        record.items[0].path.len() > 0,
    ensures
        resolved(record)->Ok_0[at].path.len() > 0,
{
    lemma_resolved_items(record, record.items.len() as int);
    lemma_path_in_force(record.items, at);
}

/// Resolves the items of a record, in their order: an item without a path
/// gets the path of the item before it, and the place of a parent becomes the
/// parent. The first item that cannot be resolved fails the whole record.
pub fn resolve(record: RawRecord) -> (items: Result<Vec<DocItem>, SeekerError>)
    ensures
        match items {
            Ok(items) => resolved(record@) == Ok::<Seq<DocItemView>, SeekerError>(views(items@)),
            Err(error) => resolved(record@) == Err::<Seq<DocItemView>, SeekerError>(error),
        },
{
    let ghost whole = record@;
    let RawRecord { doc: _, items: listed, parents } = record;
    let mut items: Vec<DocItem> = Vec::new();
    let mut last_path = String::new();
    assert(views(items@) =~= Seq::<DocItemView>::empty());
    for item in it: listed
        invariant
            it.seq() == listed@,
            whole == record@,
            whole.items == listed@.map_values(|item: RawItem| item@),
            whole.parents == parents@.map_values(|parent: RawParent| parent@),
            resolved_upto(whole, it.index() as int) == Ok::<Seq<DocItemView>, SeekerError>(
                views(items@),
            ),
            last_path@ == path_at(whole.items, it.index() - 1),
    {
        let ghost at = it.index() as int;
        let ghost before = views(items@);
        assert(whole.items[at] == item@);
        let RawItem { ty, name, path, desc, parent_idx } = item;
        if !path.as_str().is_empty() {
            last_path = path;
        }
        assert(last_path@ == path_at(whole.items, at));
        let parent = match parent_idx {
            Some(place) => {
                if place >= parents.len() {
                    proof {
                        lemma_resolved_fails(whole, at + 1, whole.items.len() as int);
                    }
                    return Err(SeekerError::Schema);
                }
                assert(whole.parents[place as int] == parents@[place as int]@);
                Some(&parents[place])
            },
            None => None,
        };
        let name = match TypeItem::new(ty, name) {
            Ok(name) => name,
            Err(error) => {
                proof {
                    lemma_resolved_fails(whole, at + 1, whole.items.len() as int);
                }
                return Err(error);
            },
        };
        let parent = match parent {
            Some(parent) => match TypeItem::new(parent.ty, parent.name.clone()) {
                Ok(parent) => Some(parent),
                Err(error) => {
                    proof {
                        lemma_resolved_fails(whole, at + 1, whole.items.len() as int);
                    }
                    return Err(error);
                },
            },
            None => None,
        };
        let resolved = DocItem::new(name, parent, last_path.clone(), desc);
        assert(resolved_at(whole, at) == Ok::<DocItemView, SeekerError>(resolved@));
        items.push(resolved);
        assert(views(items@) =~= before.push(resolved@));
    }
    Ok(items)
}

/// Once the items up to some place fail to resolve, so do the items up to any
/// later place, with the same error.
proof fn lemma_resolved_fails(record: RawRecordView, count: int, later: int)
    requires
        resolved_upto(record, count) is Err,
        count <= later,
    ensures
        resolved_upto(record, later) == resolved_upto(record, count),
    decreases later - count,
{
    if count < later {
        lemma_resolved_fails(record, count, later - 1);
    }
}

/// Reads the items of one normalized fragment.
fn read_normalized(json: &str) -> (items: Result<Vec<DocItem>, SeekerError>)
    ensures
        match document(json@) {
            None => items is Err && items->Err_0 == SeekerError::Schema,
            Some(value) => match record_of(value) {
                None => items is Err && items->Err_0 == SeekerError::Schema,
                Some(record) => match items {
                    Ok(items) => resolved(record) == Ok::<Seq<DocItemView>, SeekerError>(
                        views(items@),
                    ),
                    Err(error) => resolved(record) == Err::<Seq<DocItemView>, SeekerError>(error),
                },
            },
        },
{
    let value = match parse(json) {
        Ok(value) => value,
        Err(_) => return Err(SeekerError::Schema),
    };
    let record = match decode(&value) {
        Ok(record) => record,
        Err(error) => return Err(error),
    };
    resolve(record)
}

/// Reads the items of one fragment, as the manifest writes it.
pub fn read_fragment(text: &str) -> (items: Result<Vec<DocItem>, SeekerError>)
    ensures
        match items {
            Ok(items) => fragment_items(text@) == Ok::<Seq<DocItemView>, SeekerError>(
                views(items@),
            ),
            Err(error) => fragment_items(text@) == Err::<Seq<DocItemView>, SeekerError>(error),
        },
{
    let json = fix_json(text);
    read_normalized(json.as_str())
}

impl RustDoc {
    /// Reads a manifest. Each line that starts with `searchIndex` holds one
    /// fragment behind its first `=`; the items of all fragments make the
    /// catalog. The first line that cannot be read fails the whole manifest.
    pub fn from_str(s: &str) -> (catalog: Result<RustDoc, SeekerError>)
        ensures
            match catalog {
                Ok(catalog) => parsed(s@) == Ok::<Seq<DocItemView>, SeekerError>(catalog@),
                Err(error) => parsed(s@) == Err::<Seq<DocItemView>, SeekerError>(error),
            },
    {
        let chars = chars_of(s);
        let word = chars_of("searchIndex");
        let mut catalog = RustDoc::new(Vec::new());
        let mut from: usize = 0;
        assert(chars@.skip(0) =~= chars@);
        loop
            invariant
                from <= chars.len(),
                chars@ == s@,
                word@ == "searchIndex"@,
                parsed(s@) == after_lines(catalog@, chars@.skip(from as int)),
            decreases chars.len() - from,
        {
            let to = find(&chars, from, chars.len(), '\n');
            proof {
                let rest = chars@.skip(from as int);
                assert(rest =~= chars@.subrange(from as int, chars@.len() as int));
                assert(rest.take(to - from) =~= chars@.subrange(from as int, to as int));
                if to < chars.len() {
                    assert(rest.skip(to - from + 1) =~= chars@.skip(to + 1));
                }
            }
            if starts_with(&chars, from, to, &word) {
                let (start, end) = match fragment_bounds(&chars, from, to) {
                    Some(bounds) => bounds,
                    None => return Err(SeekerError::ManifestSyntax),
                };
                let mut json = String::new();
                normalize_into(&mut json, &chars, start, end);
                assert(json@ =~= normalized(chars@.subrange(start as int, end as int)));
                let items = match read_normalized(json.as_str()) {
                    Ok(items) => items,
                    Err(error) => return Err(error),
                };
                catalog.extend(items);
            }
            if to >= chars.len() {
                return Ok(catalog);
            }
            from = to + 1;
        }
    }
}

} // verus!
