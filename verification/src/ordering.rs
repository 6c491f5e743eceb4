//! The order of the catalog: by name, then by path, then by parent, an item
//! without a parent before those that have one.
use crate::item::DocItem;
use crate::item::Key;
use crate::text::compare_bytes;
use crate::text::lemma_bytes_lt_irreflexive;
use crate::text::lemma_bytes_lt_total;
use crate::text::lemma_bytes_lt_transitive;
use crate::text::bytes_lt;
use crate::text::Order;
use std::cmp::Ordering;
use vstd::prelude::*;
use vstd::std_specs::cmp::PartialEqSpecImpl;
use vstd::std_specs::cmp::PartialOrdSpecImpl;

verus! {

/// Whether parent `a` comes before parent `b`: none before any, and two by
/// their bytes.
pub open spec fn parent_lt(a: Option<Seq<u8>>, b: Option<Seq<u8>>) -> bool {
    match (a, b) {
        (None, Some(_)) => true,
        (Some(x), Some(y)) => bytes_lt(x, y),
        _ => false,
    }
}

/// Whether key `a` comes before key `b`.
pub open spec fn key_lt(a: Key, b: Key) -> bool {
    if a.name != b.name {
        bytes_lt(a.name, b.name)
    } else if a.path != b.path {
        bytes_lt(a.path, b.path)
    } else {
        parent_lt(a.parent, b.parent)
    }
}

/// No key comes before itself.
pub proof fn lemma_key_lt_irreflexive(a: Key)
    ensures
        !key_lt(a, a),
{
    if let Some(x) = a.parent {
        lemma_bytes_lt_irreflexive(x);
    }
}

/// Of two different keys exactly one comes before the other.
pub proof fn lemma_key_lt_total(a: Key, b: Key)
    ensures
        a != b ==> (key_lt(a, b) <==> !key_lt(b, a)),
        a == b ==> !key_lt(a, b) && !key_lt(b, a),
{
    lemma_bytes_lt_total(a.name, b.name);
    lemma_bytes_lt_total(a.path, b.path);
    match (a.parent, b.parent) {
        (Some(x), Some(y)) => {
            lemma_bytes_lt_total(x, y);
        },
        _ => {},
    }
}

/// The order of keys is transitive.
pub proof fn lemma_key_lt_transitive(a: Key, b: Key, c: Key)
    requires
        key_lt(a, b),
        key_lt(b, c),
    ensures
        key_lt(a, c),
{
    lemma_bytes_lt_total(a.name, b.name);
    lemma_bytes_lt_total(b.name, c.name);
    lemma_bytes_lt_total(a.name, c.name);
    lemma_bytes_lt_total(a.path, b.path);
    lemma_bytes_lt_total(b.path, c.path);
    lemma_bytes_lt_total(a.path, c.path);
    if a.name != b.name && b.name != c.name {
        lemma_bytes_lt_transitive(a.name, b.name, c.name);
    } else if a.name == b.name && b.name == c.name {
        if a.path != b.path && b.path != c.path {
            lemma_bytes_lt_transitive(a.path, b.path, c.path);
        } else if a.path == b.path && b.path == c.path {
            match (a.parent, b.parent, c.parent) {
                (Some(x), Some(y), Some(z)) => {
                    lemma_bytes_lt_transitive(x, y, z);
                },
                _ => {},
            }
        }
    }
}

impl DocItem {
    /// How this item's key stands to that of `other`.
    pub fn compare(&self, other: &DocItem) -> (order: Order)
        ensures
            order is Less <==> key_lt(self@.key(), other@.key()),
            order is Equal <==> self@.key() == other@.key(),
            order is Greater <==> key_lt(other@.key(), self@.key()),
    {
        proof {
            lemma_key_lt_total(self@.key(), other@.key());
        }
        match compare_bytes(self.index_key(), other.index_key()) {
            Order::Less => return Order::Less,
            Order::Greater => return Order::Greater,
            Order::Equal => {},
        }
        match compare_bytes(self.path.as_str().as_bytes(), other.path.as_str().as_bytes()) {
            Order::Less => return Order::Less,
            Order::Greater => return Order::Greater,
            Order::Equal => {},
        }
        match (&self.parent, &other.parent) {
            (None, None) => Order::Equal,
            (None, Some(_)) => Order::Less,
            (Some(_), None) => Order::Greater,
            (Some(mine), Some(theirs)) => {
                let a = mine.to_string();
                let b = theirs.to_string();
                compare_bytes(a.as_str().as_bytes(), b.as_str().as_bytes())
            },
        }
    }
}

/// How the key of `a` stands to the key of `b`.
pub open spec fn key_order(a: Key, b: Key) -> Ordering {
    if key_lt(a, b) {
        Ordering::Less
    } else if a == b {
        Ordering::Equal
    } else {
        Ordering::Greater
    }
}

impl DocItem {
    /// How this item's key stands to that of `other`.
    pub fn cmp(&self, other: &DocItem) -> (order: Ordering)
        ensures
            order == key_order(self@.key(), other@.key()),
    {
        proof {
            lemma_key_lt_total(self@.key(), other@.key());
        }
        match self.compare(other) {
            Order::Less => Ordering::Less,
            Order::Equal => Ordering::Equal,
            Order::Greater => Ordering::Greater,
        }
    }
}

impl PartialEq for DocItem {
    /// Two items are equal where their keys are.
    fn eq(&self, other: &DocItem) -> (same: bool) {
        match self.compare(other) {
            Order::Equal => true,
            _ => false,
        }
    }
}

impl Eq for DocItem {

}

impl PartialEqSpecImpl for DocItem {
    open spec fn obeys_eq_spec() -> bool {
        true
    }

    open spec fn eq_spec(&self, other: &DocItem) -> bool {
        self@.key() == other@.key()
    }
}

impl PartialOrd for DocItem {
    /// Items are ordered as their keys are.
    fn partial_cmp(&self, other: &DocItem) -> (order: Option<Ordering>) {
        Some(self.cmp(other))
    }
}

impl PartialOrdSpecImpl for DocItem {
    open spec fn obeys_partial_cmp_spec() -> bool {
        true
    }

    open spec fn partial_cmp_spec(&self, other: &DocItem) -> Option<Ordering> {
        Some(key_order(self@.key(), other@.key()))
    }
}

} // verus!
