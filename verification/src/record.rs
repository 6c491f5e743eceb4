//! The records of a fragment as the manifest writes them, before paths and
//! parents are resolved.
use crate::document::content;
use crate::document::elements;
use crate::document::is_null;
use crate::document::is_object;
use crate::document::member;
use crate::document::text;
use crate::document::unsigned;
use crate::document::Json;
use crate::error::SeekerError;
use vstd::prelude::*;
use vstd::string::StringExecFns;

verus! {

/// An item that other items of the fragment may name as their parent.
#[derive(Debug)]
pub struct RawParent {
    pub ty: usize,
    pub name: String,
}

/// An item as its fragment lists it. An empty path stands for the path of the
/// item before it, and the parent is a place in the fragment's list of parents.
#[derive(Debug)]
pub struct RawItem {
    pub ty: usize,
    pub name: String,
    pub path: String,
    pub desc: String,
    pub parent_idx: Option<usize>,
}

/// One fragment: the name of its crate, its items and its parents.
#[derive(Debug)]
pub struct RawRecord {
    pub doc: String,
    pub items: Vec<RawItem>,
    pub parents: Vec<RawParent>,
}

/// A [`RawParent`] as plain values.
pub struct RawParentView {
    pub ty: usize,
    pub name: Seq<char>,
}

/// A [`RawItem`] as plain values.
pub struct RawItemView {
    pub ty: usize,
    pub name: Seq<char>,
    pub path: Seq<char>,
    pub desc: Seq<char>,
    pub parent_idx: Option<usize>,
}

/// A [`RawRecord`] as plain values.
pub struct RawRecordView {
    pub doc: Seq<char>,
    pub items: Seq<RawItemView>,
    pub parents: Seq<RawParentView>,
}

impl View for RawParent {
    type V = RawParentView;

    open spec fn view(&self) -> RawParentView {
        RawParentView { ty: self.ty, name: self.name@ }
    }
}

impl View for RawItem {
    type V = RawItemView;

    open spec fn view(&self) -> RawItemView {
        RawItemView {
            ty: self.ty,
            name: self.name@,
            path: self.path@,
            desc: self.desc@,
            parent_idx: self.parent_idx,
        }
    }
}

impl View for RawRecord {
    type V = RawRecordView;

    open spec fn view(&self) -> RawRecordView {
        RawRecordView {
            doc: self.doc@,
            items: self.items@.map_values(|item: RawItem| item@),
            parents: self.parents@.map_values(|parent: RawParent| parent@),
        }
    }
}

/// The number that a JSON value gives for a tag or a place: a whole number
/// that a `usize` holds.
pub open spec fn as_index(json: Json) -> Option<usize> {
    match json {
        Json::Number(Some(n)) => if n <= usize::MAX {
            Some(n as usize)
        } else {
            None
        },
        _ => None,
    }
}

/// The parent that a JSON value describes: an array of a tag and a name.
pub open spec fn parent_of(json: Json) -> Option<RawParentView> {
    match json {
        Json::Array(parts) => if parts.len() == 2 && as_index(parts[0]) is Some
            && parts[1] is Text {
            Some(RawParentView { ty: as_index(parts[0])->Some_0, name: parts[1]->Text_0 })
        } else {
            None
        },
        _ => None,
    }
}

/// The item that a JSON value describes: an array of a tag, a name, a path, a
/// description, the place of a parent or `null`, and a search signature, which
/// is an object or `null`.
pub open spec fn item_of(json: Json) -> Option<RawItemView> {
    match json {
        Json::Array(parts) => if parts.len() == 6 && as_index(parts[0]) is Some && parts[1] is Text
            && parts[2] is Text && parts[3] is Text && (parts[4] is Null || as_index(
            parts[4],
        ) is Some) && (parts[5] is Null || parts[5] is Object) {
            Some(
                RawItemView {
                    ty: as_index(parts[0])->Some_0,
                    name: parts[1]->Text_0,
                    path: parts[2]->Text_0,
                    desc: parts[3]->Text_0,
                    parent_idx: as_index(parts[4]),
                },
            )
        } else {
            None
        },
        _ => None,
    }
}

/// The record that a JSON value describes: an object whose member `doc` is a
/// string, whose member `i` is an array of items, and whose member `p` is an
/// array of parents. Other members are passed over.
pub open spec fn record_of(json: Json) -> Option<RawRecordView> {
    match json {
        Json::Object(members) => if members.contains_key("doc"@) && members["doc"@] is Text
            && members.contains_key("i"@) && members["i"@] is Array && members.contains_key("p"@)
            && members["p"@] is Array && (forall|k: int|
            0 <= k < members["i"@]->Array_0.len() ==> item_of(
                #[trigger] members["i"@]->Array_0[k],
            ) is Some) && (forall|k: int|
            0 <= k < members["p"@]->Array_0.len() ==> parent_of(
                #[trigger] members["p"@]->Array_0[k],
            ) is Some) {
            Some(
                RawRecordView {
                    doc: members["doc"@]->Text_0,
                    items: members["i"@]->Array_0.map_values(|item: Json| item_of(item)->Some_0),
                    parents: members["p"@]->Array_0.map_values(
                        |parent: Json| parent_of(parent)->Some_0,
                    ),
                },
            )
        } else {
            None
        },
        _ => None,
    }
}

/// Reads a tag or a place.
fn read_index(value: &serde_json::Value) -> (found: Option<usize>)
    ensures
        found == as_index(content(*value)),
{
    match unsigned(value) {
        Some(n) => if n <= usize::MAX as u64 {
            Some(n as usize)
        } else {
            None
        },
        None => None,
    }
}

/// Reads a string.
fn read_text(value: &serde_json::Value) -> (found: Option<String>)
    ensures
        match found {
            Some(found) => content(*value) == Json::Text(found@),
            None => !(content(*value) is Text),
        },
{
    match text(value) {
        Some(chars) => Some(String::from_str(chars)),
        None => None,
    }
}

/// Reads a parent.
pub fn read_parent(value: &serde_json::Value) -> (found: Option<RawParent>)
    ensures
        match found {
            Some(found) => parent_of(content(*value)) == Some(found@),
            None => parent_of(content(*value)) is None,
        },
{
    let parts = match elements(value) {
        Some(parts) => parts,
        None => return None,
    };
    if parts.len() != 2 {
        return None;
    }
    let ty = match read_index(&parts[0]) {
        Some(ty) => ty,
        None => return None,
    };
    let name = match read_text(&parts[1]) {
        Some(name) => name,
        None => return None,
    };
    Some(RawParent { ty, name })
}

/// Reads an item.
pub fn read_item(value: &serde_json::Value) -> (found: Option<RawItem>)
    ensures
        match found {
            Some(found) => item_of(content(*value)) == Some(found@),
            None => item_of(content(*value)) is None,
        },
{
    let parts = match elements(value) {
        Some(parts) => parts,
        None => return None,
    };
    if parts.len() != 6 {
        return None;
    }
    let ty = match read_index(&parts[0]) {
        Some(ty) => ty,
        None => return None,
    };
    let name = match read_text(&parts[1]) {
        Some(name) => name,
        None => return None,
    };
    let path = match read_text(&parts[2]) {
        Some(path) => path,
        None => return None,
    };
    let desc = match read_text(&parts[3]) {
        Some(desc) => desc,
        None => return None,
    };
    let parent_idx = if is_null(&parts[4]) {
        None
    } else {
        match read_index(&parts[4]) {
            Some(at) => Some(at),
            None => return None,
        }
    };
    if !is_null(&parts[5]) && !is_object(&parts[5]) {
        return None;
    }
    Some(RawItem { ty, name, path, desc, parent_idx })
}

/// Reads the record of a fragment. A value of any other shape is a
/// [`SeekerError::Schema`] error.
#[verifier::loop_isolation(false)]
pub fn decode(value: &serde_json::Value) -> (record: Result<RawRecord, SeekerError>)
    ensures
        match record {
            Ok(record) => record_of(content(*value)) == Some(record@),
            Err(error) => error == SeekerError::Schema && record_of(content(*value)) is None,
        },
{
    let doc = match member(value, "doc") {
        Some(doc) => match read_text(doc) {
            Some(doc) => doc,
            None => return Err(SeekerError::Schema),
        },
        None => return Err(SeekerError::Schema),
    };
    let listed = match member(value, "i") {
        Some(listed) => match elements(listed) {
            Some(listed) => listed,
            None => return Err(SeekerError::Schema),
        },
        None => return Err(SeekerError::Schema),
    };
    let named = match member(value, "p") {
        Some(named) => match elements(named) {
            Some(named) => named,
            None => return Err(SeekerError::Schema),
        },
        None => return Err(SeekerError::Schema),
    };
    let ghost members = content(*value)->Object_0;
    let ghost item_values = members["i"@]->Array_0;
    let ghost parent_values = members["p"@]->Array_0;
    let mut items: Vec<RawItem> = Vec::new();
    let mut k: usize = 0;
    while k < listed.len()
        invariant
            k <= listed.len(),
            listed@.len() == item_values.len(),
            forall|i: int| 0 <= i < listed@.len() ==> content(#[trigger] listed@[i]) == item_values[i],
            items@.len() == k,
            forall|i: int| 0 <= i < k ==> item_of(item_values[i]) == Some((#[trigger] items@[i])@),
        decreases listed.len() - k,
    {
        match read_item(&listed[k]) {
            Some(item) => {
                items.push(item);
            },
            None => {
                assert(item_of(item_values[k as int]) is None);
                return Err(SeekerError::Schema);
            },
        }
        k += 1;
    }
    let mut parents: Vec<RawParent> = Vec::new();
    let mut k: usize = 0;
    while k < named.len()
        invariant
            k <= named.len(),
            named@.len() == parent_values.len(),
            forall|i: int|
                0 <= i < named@.len() ==> content(#[trigger] named@[i]) == parent_values[i],
            parents@.len() == k,
            forall|i: int|
                0 <= i < k ==> parent_of(parent_values[i]) == Some((#[trigger] parents@[i])@),
        decreases named.len() - k,
    {
        match read_parent(&named[k]) {
            Some(parent) => {
                parents.push(parent);
            },
            None => {
                assert(parent_of(parent_values[k as int]) is None);
                return Err(SeekerError::Schema);
            },
        }
        k += 1;
    }
    let record = RawRecord { doc, items, parents };
    proof {
        assert forall|k: int| 0 <= k < item_values.len() implies item_of(
            #[trigger] item_values[k],
        ) is Some by {
            assert(item_of(item_values[k]) == Some(items@[k]@));
        }
        assert forall|k: int| 0 <= k < parent_values.len() implies parent_of(
            #[trigger] parent_values[k],
        ) is Some by {
            assert(parent_of(parent_values[k]) == Some(parents@[k]@));
        }
        let expected = record_of(content(*value));
        assert(expected is Some);
        assert(record@.items =~= expected->Some_0.items);
        assert(record@.parents =~= expected->Some_0.parents);
    }
    Ok(record)
}

} // verus!
