use rustdoc_seeker::merge::merge;
use rustdoc_seeker::merge::sort;
use rustdoc_seeker::text::compare_bytes;
use rustdoc_seeker::text::Order;
use std::cmp::Ordering;
use rustdoc_seeker::DocItem;
use rustdoc_seeker::RustDoc;
use rustdoc_seeker::TypeItem;

fn function(name: &str, parent: Option<TypeItem>, path: &str, desc: &str) -> DocItem {
    DocItem::new(
        TypeItem::Function(name.to_string()),
        parent,
        path.to_string(),
        desc.to_string(),
    )
}

fn listed(catalog: &RustDoc) -> Vec<String> {
    catalog.iter().iter().map(|item| item.to_string()).collect()
}

#[test]
fn inserting_twice_is_inserting_once() {
    let parent = Some(TypeItem::Struct("Vec".to_string()));
    let mut once = RustDoc::new(Vec::new());
    assert!(once.insert(function("dedup", parent.clone(), "std::vec", "first")));
    let mut twice = RustDoc::new(Vec::new());
    assert!(twice.insert(function("dedup", parent.clone(), "std::vec", "first")));
    assert!(!twice.insert(function("dedup", parent.clone(), "std::vec", "second")));
    assert_eq!(once.len(), 1);
    assert_eq!(twice.len(), 1);
    assert_eq!(twice.iter()[0].desc, "first");
}

#[test]
fn items_with_one_name_differ_by_path_and_parent() {
    let mut catalog = RustDoc::new(Vec::new());
    assert!(catalog.is_empty());
    assert!(catalog.insert(function("f", Some(TypeItem::Struct("S".to_string())), "b", "")));
    assert!(catalog.insert(function("f", None, "b", "")));
    assert!(catalog.insert(function("f", Some(TypeItem::Enum("S".to_string())), "b", "")));
    assert!(catalog.insert(function("f", Some(TypeItem::Struct("R".to_string())), "b", "")));
    assert!(catalog.insert(function("f", Some(TypeItem::Struct("S".to_string())), "a", "")));
    assert!(catalog.insert(function("e", Some(TypeItem::Struct("S".to_string())), "c", "")));
    assert!(!catalog.insert(function("f", None, "b", "again")));
    assert!(!catalog.is_empty());
    assert_eq!(catalog.len(), 6);
    assert_eq!(
        listed(&catalog),
        vec![
            "c/struct.S.html#fn.e",
            "a/struct.S.html#fn.f",
            "b/fn.f.html",
            "b/enum.S.html#fn.f",
            "b/struct.R.html#fn.f",
            "b/struct.S.html#fn.f",
        ]
    );
}

#[test]
fn the_kind_of_an_item_is_no_part_of_its_key() {
    let mut catalog = RustDoc::new(Vec::new());
    let function = DocItem::new(
        TypeItem::Function("x".to_string()),
        None,
        "m".to_string(),
        String::new(),
    );
    let constant = DocItem::new(
        TypeItem::Constant("x".to_string()),
        None,
        "m".to_string(),
        String::new(),
    );
    assert_eq!(function.compare(&constant), Order::Equal);
    assert!(catalog.insert(function));
    assert!(catalog.contains(&constant));
    assert!(!catalog.insert(constant));
    assert_eq!(listed(&catalog), vec!["m/fn.x.html"]);
}

#[test]
fn compare_orders_by_name_then_path_then_parent() {
    let s = Some(TypeItem::Struct("S".to_string()));
    let t = Some(TypeItem::Struct("T".to_string()));
    let a = function("a", s.clone(), "p", "");
    assert_eq!(a.compare(&function("a", s.clone(), "p", "other")), Order::Equal);
    assert_eq!(a.compare(&function("b", None, "", "")), Order::Less);
    assert_eq!(a.compare(&function("", t.clone(), "z", "")), Order::Greater);
    assert_eq!(a.compare(&function("ab", None, "", "")), Order::Less);
    assert_eq!(a.compare(&function("a", None, "q", "")), Order::Less);
    assert_eq!(a.compare(&function("a", t.clone(), "o", "")), Order::Greater);
    assert_eq!(a.compare(&function("a", None, "p", "")), Order::Greater);
    assert_eq!(function("a", None, "p", "").compare(&a), Order::Less);
    assert_eq!(a.compare(&function("a", t.clone(), "p", "")), Order::Less);
    assert_eq!(function("a", t, "p", "").compare(&a), Order::Greater);
    assert_eq!(function("a", None, "p", "").compare(&function("a", None, "p", "")), Order::Equal);
}

#[test]
fn new_takes_the_first_of_equal_items() {
    let catalog = RustDoc::new(vec![
        function("b", None, "m", "first b"),
        function("a", None, "m", "first a"),
        function("b", None, "m", "second b"),
        function("a", None, "m", "second a"),
        function("c", None, "m", "first c"),
    ]);
    let descriptions: Vec<&str> = catalog.iter().iter().map(|item| item.desc.as_str()).collect();
    assert_eq!(descriptions, vec!["first a", "first b", "first c"]);
}

#[test]
fn merge_keeps_what_the_catalog_holds() {
    let mut left = RustDoc::new(vec![
        function("a", None, "m", "left a"),
        function("c", None, "m", "left c"),
    ]);
    let right = RustDoc::new(vec![
        function("d", None, "m", "right d"),
        function("a", None, "m", "right a"),
        function("b", None, "m", "right b"),
    ]);
    left.merge(right);
    let descriptions: Vec<&str> = left.iter().iter().map(|item| item.desc.as_str()).collect();
    assert_eq!(descriptions, vec!["left a", "right b", "left c", "right d"]);
}

#[test]
fn extend_and_into_iter() {
    let mut catalog = RustDoc::new(vec![function("m", None, "m", "")]);
    catalog.extend(vec![
        function("z", None, "m", ""),
        function("a", None, "m", ""),
        function("m", None, "m", ""),
    ]);
    let names: Vec<String> = catalog
        .into_iter()
        .into_iter()
        .map(|item| item.name.as_ref().clone())
        .collect();
    assert_eq!(names, vec!["a", "m", "z"]);
}

#[test]
fn items_compare_as_their_keys_do() {
    let s = Some(TypeItem::Struct("S".to_string()));
    let a = function("a", s.clone(), "p", "one");
    let same = function("a", s.clone(), "p", "another");
    let b = function("b", None, "", "");
    assert_eq!(a.cmp(&same), Ordering::Equal);
    assert_eq!(a.cmp(&b), Ordering::Less);
    assert_eq!(b.cmp(&a), Ordering::Greater);
    assert_eq!(a.partial_cmp(&b), Some(Ordering::Less));
    assert!(a == same);
    assert!(a != b);
    assert!(a < b);
    assert!(a <= same);
    assert!(b > a);
    assert!(b >= a);
}

#[test]
fn bytes_compare_place_by_place() {
    assert_eq!(compare_bytes(b"", b""), Order::Equal);
    assert_eq!(compare_bytes(b"", b"a"), Order::Less);
    assert_eq!(compare_bytes(b"a", b""), Order::Greater);
    assert_eq!(compare_bytes(b"ab", b"ab"), Order::Equal);
    assert_eq!(compare_bytes(b"ab", b"abc"), Order::Less);
    assert_eq!(compare_bytes(b"abd", b"abc"), Order::Greater);
    assert_eq!(compare_bytes(b"b", b"abc"), Order::Greater);
    assert_eq!(compare_bytes(&[0x7f], &[0x80]), Order::Less);
    assert_eq!(compare_bytes(&[0xff], &[0x00, 0x01]), Order::Greater);
}

#[test]
fn sort_orders_and_keeps_the_first() {
    let names = ["q", "c", "x", "a", "c", "m", "q", "a", "z", "b", "x", "c"];
    let items: Vec<DocItem> = names
        .iter()
        .enumerate()
        .map(|(place, name)| function(name, None, "m", &place.to_string()))
        .collect();
    let ordered = sort(items);
    let found: Vec<(&str, &str)> = ordered
        .iter()
        .map(|item| (item.name.as_ref().as_str(), item.desc.as_str()))
        .collect();
    assert_eq!(
        found,
        vec![
            ("a", "3"),
            ("b", "9"),
            ("c", "1"),
            ("m", "5"),
            ("q", "0"),
            ("x", "2"),
            ("z", "8"),
        ]
    );
    assert!(sort(Vec::new()).is_empty());
    assert_eq!(sort(vec![function("a", None, "m", "")]).len(), 1);
}

#[test]
fn merge_prefers_the_left_side() {
    let left = vec![
        function("a", None, "m", "left"),
        function("c", None, "m", "left"),
        function("e", None, "m", "left"),
    ];
    let right = vec![
        function("", None, "m", "right"),
        function("c", None, "m", "right"),
        function("d", None, "m", "right"),
        function("e", None, "m", "right"),
        function("f", None, "m", "right"),
    ];
    let merged = merge(left, right);
    let found: Vec<(&str, &str)> = merged
        .iter()
        .map(|item| (item.name.as_ref().as_str(), item.desc.as_str()))
        .collect();
    assert_eq!(
        found,
        vec![
            ("", "right"),
            ("a", "left"),
            ("c", "left"),
            ("d", "right"),
            ("e", "left"),
            ("f", "right"),
        ]
    );
    assert!(merge(Vec::new(), Vec::new()).is_empty());
}

#[test]
fn a_large_catalog_is_the_same_item_by_item() {
    let mut seed: u32 = 12345;
    let mut items_a = Vec::new();
    let mut items_b = Vec::new();
    for place in 0..2000 {
        seed = seed.wrapping_mul(1664525).wrapping_add(1013904223);
        let name = format!("n{}", (seed >> 16) % 700);
        let path = format!("p{}", (seed >> 8) % 3);
        items_a.push(function(&name, None, &path, &place.to_string()));
        items_b.push(function(&name, None, &path, &place.to_string()));
    }
    let at_once = RustDoc::new(items_a);
    let mut one_by_one = RustDoc::new(Vec::new());
    for item in items_b {
        one_by_one.insert(item);
    }
    assert_eq!(at_once.len(), one_by_one.len());
    for (a, b) in at_once.iter().iter().zip(one_by_one.iter().iter()) {
        assert_eq!(a.name, b.name);
        assert_eq!(a.path, b.path);
        assert_eq!(a.desc, b.desc);
    }
    let keys: Vec<(&str, &str)> = at_once
        .iter()
        .iter()
        .map(|item| (item.name.as_ref().as_str(), item.path.as_str()))
        .collect();
    let mut ordered = keys.clone();
    ordered.sort();
    ordered.dedup();
    assert_eq!(keys, ordered);
}

#[test]
fn default_catalog_is_empty() {
    let catalog = RustDoc::default();
    assert!(catalog.is_empty());
    assert_eq!(catalog.len(), 0);
    assert!(catalog.build().unwrap().items().is_empty());
}
