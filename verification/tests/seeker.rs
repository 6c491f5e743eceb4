use fst::automaton::AlwaysMatch;
use fst::automaton::Levenshtein;
use fst::automaton::Str;
use fst::automaton::Subsequence;
use fst::Automaton;
use regex_automata::DenseDFA;
use rustdoc_seeker::seeker::check_capacity;
use rustdoc_seeker::seeker::pack;
use rustdoc_seeker::seeker::unpack;
use rustdoc_seeker::seeker::MAX_ITEMS;
use rustdoc_seeker::DocItem;
use rustdoc_seeker::RustDoc;
use rustdoc_seeker::RustDocSeeker;
use rustdoc_seeker::SeekerError;
use rustdoc_seeker::TypeItem;

fn method(name: &str, parent: &str, path: &str) -> DocItem {
    DocItem::new(
        TypeItem::Method(name.to_string()),
        Some(TypeItem::Struct(parent.to_string())),
        path.to_string(),
        String::new(),
    )
}

fn primitive_method(name: &str) -> DocItem {
    DocItem::new(
        TypeItem::Method(name.to_string()),
        Some(TypeItem::Primitive("slice".to_string())),
        "std".to_string(),
        String::new(),
    )
}

fn sample() -> RustDocSeeker {
    let items = vec![
        primitive_method("partition_dedup_by"),
        method("dedup_by_key", "Vec", "std::vec"),
        method("dedup", "Vec", "std::vec"),
        method("push", "Vec", "std::vec"),
        method("dedup_by", "Vec", "alloc::vec"),
        primitive_method("partition_dedup"),
        method("dedup", "Vec", "alloc::vec"),
        method("dedup_by_key", "Vec", "alloc::vec"),
        primitive_method("partition_dedup_by_key"),
        method("dedup_by", "Vec", "std::vec"),
        method("pop", "Vec", "std::vec"),
    ];
    RustDoc::new(items).build().unwrap()
}

fn shown(found: Vec<&DocItem>) -> Vec<String> {
    found.into_iter().map(|item| item.to_string()).collect()
}

#[test]
fn search_with_a_pattern() {
    let seeker = sample();
    let aut = DenseDFA::new(".*dedup.*").unwrap();
    assert_eq!(
        shown(seeker.search(&aut)),
        vec![
            "alloc/vec/struct.Vec.html#method.dedup",
            "std/vec/struct.Vec.html#method.dedup",
            "alloc/vec/struct.Vec.html#method.dedup_by",
            "std/vec/struct.Vec.html#method.dedup_by",
            "alloc/vec/struct.Vec.html#method.dedup_by_key",
            "std/vec/struct.Vec.html#method.dedup_by_key",
            "std/primitive.slice.html#method.partition_dedup",
            "std/primitive.slice.html#method.partition_dedup_by",
            "std/primitive.slice.html#method.partition_dedup_by_key",
        ]
    );
}

#[test]
fn search_within_an_edit_distance() {
    let seeker = sample();
    let aut = Levenshtein::new("dedXp", 1).unwrap();
    assert_eq!(
        shown(seeker.search(&aut)),
        vec![
            "alloc/vec/struct.Vec.html#method.dedup",
            "std/vec/struct.Vec.html#method.dedup",
        ]
    );
}

#[test]
fn search_for_a_subsequence() {
    let seeker = sample();
    let aut = Subsequence::new("dedup");
    assert_eq!(
        shown(seeker.search(&aut)),
        vec![
            "alloc/vec/struct.Vec.html#method.dedup",
            "std/vec/struct.Vec.html#method.dedup",
            "alloc/vec/struct.Vec.html#method.dedup_by",
            "std/vec/struct.Vec.html#method.dedup_by",
            "alloc/vec/struct.Vec.html#method.dedup_by_key",
            "std/vec/struct.Vec.html#method.dedup_by_key",
            "std/primitive.slice.html#method.partition_dedup",
            "std/primitive.slice.html#method.partition_dedup_by",
            "std/primitive.slice.html#method.partition_dedup_by_key",
        ]
    );
}

#[test]
fn search_with_a_union_and_an_intersection() {
    let seeker = sample();
    let either = Str::new("pop").union(Str::new("push"));
    assert_eq!(
        shown(seeker.search(&either)),
        vec![
            "std/vec/struct.Vec.html#method.pop",
            "std/vec/struct.Vec.html#method.push",
        ]
    );
    let both = Subsequence::new("by").intersection(Str::new("partition").starts_with());
    assert_eq!(
        shown(seeker.search(&both)),
        vec![
            "std/primitive.slice.html#method.partition_dedup_by",
            "std/primitive.slice.html#method.partition_dedup_by_key",
        ]
    );
}

#[test]
fn search_that_accepts_every_name_keeps_the_order_of_the_catalog() {
    let seeker = sample();
    let all: Vec<String> = seeker.items().iter().map(|item| item.to_string()).collect();
    assert_eq!(all.len(), 11);
    assert_eq!(shown(seeker.search(&AlwaysMatch)), all);
    assert_eq!(shown(seeker.search_prefix("")), all);
    assert_eq!(
        all,
        vec![
            "alloc/vec/struct.Vec.html#method.dedup",
            "std/vec/struct.Vec.html#method.dedup",
            "alloc/vec/struct.Vec.html#method.dedup_by",
            "std/vec/struct.Vec.html#method.dedup_by",
            "alloc/vec/struct.Vec.html#method.dedup_by_key",
            "std/vec/struct.Vec.html#method.dedup_by_key",
            "std/primitive.slice.html#method.partition_dedup",
            "std/primitive.slice.html#method.partition_dedup_by",
            "std/primitive.slice.html#method.partition_dedup_by_key",
            "std/vec/struct.Vec.html#method.pop",
            "std/vec/struct.Vec.html#method.push",
        ]
    );
}

#[test]
fn search_prefix_is_the_plain_filter() {
    let seeker = sample();
    for prefix in ["", "d", "dedup", "dedup_", "dedup_by_key", "p", "pa", "po", "x", "dedupe"] {
        let plain: Vec<String> = seeker
            .items()
            .iter()
            .filter(|item| item.name.as_ref().starts_with(prefix))
            .map(|item| item.to_string())
            .collect();
        assert_eq!(shown(seeker.search_prefix(prefix)), plain);
        let by_automaton = Str::new(prefix).starts_with();
        assert_eq!(shown(seeker.search(&by_automaton)), plain);
    }
    assert_eq!(
        shown(seeker.search_prefix("dedup_by")),
        vec![
            "alloc/vec/struct.Vec.html#method.dedup_by",
            "std/vec/struct.Vec.html#method.dedup_by",
            "alloc/vec/struct.Vec.html#method.dedup_by_key",
            "std/vec/struct.Vec.html#method.dedup_by_key",
        ]
    );
}

#[test]
fn search_exact_finds_one_name() {
    let seeker = sample();
    assert_eq!(
        shown(seeker.search_exact("dedup")),
        vec![
            "alloc/vec/struct.Vec.html#method.dedup",
            "std/vec/struct.Vec.html#method.dedup",
        ]
    );
    assert_eq!(
        shown(seeker.search_exact("pop")),
        vec!["std/vec/struct.Vec.html#method.pop"]
    );
    assert!(seeker.search_exact("dedu").is_empty());
    assert!(seeker.search_exact("").is_empty());
    assert_eq!(
        shown(seeker.search(&Str::new("dedup"))),
        shown(seeker.search_exact("dedup"))
    );
}

#[test]
fn ranges_part_the_items_by_name() {
    let seeker = sample();
    let entries = seeker.entries();
    let names: Vec<&[u8]> = entries.iter().map(|entry| entry.0.as_slice()).collect();
    let expected: Vec<&[u8]> = vec![
        b"dedup",
        b"dedup_by",
        b"dedup_by_key",
        b"partition_dedup",
        b"partition_dedup_by",
        b"partition_dedup_by_key",
        b"pop",
        b"push",
    ];
    assert_eq!(names, expected);
    let bounds: Vec<(usize, usize)> = entries.iter().map(|entry| (entry.1, entry.2)).collect();
    assert_eq!(
        bounds,
        vec![(0, 2), (2, 4), (4, 6), (6, 7), (7, 8), (8, 9), (9, 10), (10, 11)]
    );
    let items = seeker.items();
    let mut next = 0;
    for (name, start, end) in &entries {
        assert_eq!(*start, next);
        assert!(start < end);
        for item in &items[*start..*end] {
            assert_eq!(item.index_key(), name.as_slice());
        }
        next = *end;
    }
    assert_eq!(next, items.len());
}

#[test]
fn items_in_gathers_range_after_range() {
    let seeker = sample();
    let ranges = vec![pack(9, 11), pack(0, 1), pack(3, 3), pack(0, 2)];
    assert_eq!(
        shown(seeker.items_in(&ranges)),
        vec![
            "std/vec/struct.Vec.html#method.pop",
            "std/vec/struct.Vec.html#method.push",
            "alloc/vec/struct.Vec.html#method.dedup",
            "alloc/vec/struct.Vec.html#method.dedup",
            "std/vec/struct.Vec.html#method.dedup",
        ]
    );
    assert!(seeker.items_in(&Vec::new()).is_empty());
}

#[test]
fn ranges_pack_two_bounds_into_one_number() {
    assert_eq!(pack(0, 0), 0);
    assert_eq!(pack(0, 1), 1);
    assert_eq!(pack(1, 2), (1 << 32) + 2);
    assert_eq!(pack(3, 7), 0x0000_0003_0000_0007);
    assert_eq!(pack(MAX_ITEMS, MAX_ITEMS), u64::MAX);
    assert_eq!(unpack(0x0000_0003_0000_0007), (3, 7));
    assert_eq!(unpack(u64::MAX), (MAX_ITEMS, MAX_ITEMS));
    assert_eq!(unpack(pack(12, 34)), (12, 34));
    assert_eq!(MAX_ITEMS as u64, u32::MAX as u64);
}

#[test]
fn empty_catalog_builds_an_empty_seeker() {
    let seeker = RustDoc::new(Vec::new()).build().unwrap();
    assert!(seeker.items().is_empty());
    assert!(seeker.entries().is_empty());
    assert!(seeker.search(&AlwaysMatch).is_empty());
    assert!(seeker.search_prefix("").is_empty());
    assert!(seeker.search_exact("").is_empty());
}

#[test]
fn item_with_an_empty_name_is_found() {
    let items = vec![
        method("a", "S", "m"),
        method("", "S", "m"),
        method("", "T", "m"),
    ];
    let seeker = RustDoc::new(items).build().unwrap();
    assert_eq!(
        seeker.entries(),
        vec![(b"".to_vec(), 0, 2), (b"a".to_vec(), 2, 3)]
    );
    assert_eq!(
        shown(seeker.search_exact("")),
        vec!["m/struct.S.html#method.", "m/struct.T.html#method."]
    );
    assert_eq!(shown(seeker.search_prefix("")).len(), 3);
}

#[test]
fn names_are_ordered_by_their_bytes() {
    let items = vec![
        method("é", "S", "m"),
        method("z", "S", "m"),
        method("Z", "S", "m"),
        method("zz", "S", "m"),
        method("a", "S", "m"),
    ];
    let seeker = RustDoc::new(items).build().unwrap();
    let names: Vec<&str> = seeker.items().iter().map(|item| item.name.as_ref().as_str()).collect();
    assert_eq!(names, vec!["Z", "a", "z", "zz", "é"]);
    assert_eq!(shown(seeker.search_prefix("z")).len(), 2);
    assert_eq!(shown(seeker.search_prefix("é")).len(), 1);
}

#[test]
fn capacity_ends_at_the_greatest_packed_bound() {
    assert_eq!(check_capacity(0), Ok(()));
    assert_eq!(check_capacity(1), Ok(()));
    assert_eq!(check_capacity(0xffff_fffe), Ok(()));
    assert_eq!(check_capacity(0xffff_ffff), Ok(()));
    if let Some(beyond) = MAX_ITEMS.checked_add(1) {
        assert_eq!(check_capacity(beyond), Err(SeekerError::Capacity));
        assert_eq!(check_capacity(usize::MAX), Err(SeekerError::Capacity));
    }
}

#[test]
fn a_manifest_is_read_built_and_searched() {
    let manifest = r#"searchIndex["std"] = {"doc":"std","p":[[3,"Vec"]],"i":[[3,"Vec","std::vec","",N,N],[11,"dedup","","",0,N]]};"#;
    let seeker = RustDoc::from_str(manifest).unwrap().build().unwrap();
    let found = seeker.search_prefix("ded");
    assert_eq!(found.len(), 1);
    assert_eq!(found[0].to_string(), "std/vec/struct.Vec.html#method.dedup");
}
