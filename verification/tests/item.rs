use rustdoc_seeker::DocItem;
use rustdoc_seeker::SeekerError;
use rustdoc_seeker::TypeItem;

fn item(name: TypeItem, parent: Option<TypeItem>, path: &str) -> DocItem {
    DocItem::new(name, parent, path.to_string(), String::new())
}

#[test]
fn type_item_shows_its_kind_and_name() {
    assert_eq!(TypeItem::Module("vec".to_string()).to_string(), "module.vec");
    assert_eq!(TypeItem::Macro("vec".to_string()).to_string(), "macro.vec");
    assert_eq!(TypeItem::Function("vec".to_string()).to_string(), "fn.vec");
    assert_eq!(TypeItem::Typedef("vec".to_string()).to_string(), "type.vec");
}

#[test]
fn type_item_of_each_tag() {
    let words = [
        "module",
        "externcrate",
        "import",
        "struct",
        "enum",
        "fn",
        "type",
        "static",
        "trait",
        "impl",
        "tymethod",
        "method",
        "structfield",
        "variant",
        "macro",
        "primitive",
        "associatedtype",
        "constant",
        "associatedconst",
        "union",
        "foreigntype",
        "keyword",
        "existential",
    ];
    for (tag, word) in words.iter().enumerate() {
        let made = TypeItem::new(tag, "x".to_string()).unwrap();
        assert_eq!(made.kind_name(), *word);
        assert_eq!(made.as_ref(), "x");
        assert_eq!(made.to_string(), format!("{}.x", word));
    }
}

#[test]
fn type_item_of_an_unknown_tag() {
    assert_eq!(
        TypeItem::new(23, "x".to_string()),
        Err(SeekerError::UnknownTypeTag(23))
    );
    assert_eq!(
        TypeItem::new(usize::MAX, "x".to_string()),
        Err(SeekerError::UnknownTypeTag(usize::MAX))
    );
    assert_eq!(
        TypeItem::new(22, "x".to_string()),
        Ok(TypeItem::Existential("x".to_string()))
    );
    assert_eq!(
        TypeItem::new(0, "x".to_string()),
        Ok(TypeItem::Module("x".to_string()))
    );
}

#[test]
fn url_of_an_item_with_a_parent() {
    let vec_dedup = item(
        TypeItem::Function("dedup".to_string()),
        Some(TypeItem::Struct("Vec".to_string())),
        "std::vec",
    );
    assert_eq!(vec_dedup.to_string(), "std/vec/struct.Vec.html#fn.dedup");
}

#[test]
fn url_of_an_item_without_a_parent() {
    let vec_struct = item(TypeItem::Struct("Vec".to_string()), None, "std::vec");
    assert_eq!(vec_struct.to_string(), "std/vec/struct.Vec.html");
    let vec_macro = item(TypeItem::Macro("vec".to_string()), None, "std");
    assert_eq!(vec_macro.to_string(), "std/macro.vec.html");
}

#[test]
fn url_of_a_module() {
    let module = item(TypeItem::Module("vec".to_string()), None, "std");
    assert_eq!(module.to_string(), "std/vec/index.html");
    let inside = item(
        TypeItem::Module("vec".to_string()),
        Some(TypeItem::Module("std".to_string())),
        "std",
    );
    assert_eq!(inside.to_string(), "std/module.std.html#module.vec");
}

#[test]
fn url_splits_the_path_at_each_pair_of_colons() {
    assert_eq!(
        item(TypeItem::Enum("E".to_string()), None, "").to_string(),
        "/enum.E.html"
    );
    assert_eq!(
        item(TypeItem::Enum("E".to_string()), None, "a:::b").to_string(),
        "a/:b/enum.E.html"
    );
    assert_eq!(
        item(TypeItem::Enum("E".to_string()), None, "a::::b:").to_string(),
        "a//b:/enum.E.html"
    );
    assert_eq!(
        item(TypeItem::Enum("E".to_string()), None, "a::b::").to_string(),
        "a/b//enum.E.html"
    );
}

#[test]
fn fmt_url_appends() {
    let vec_struct = item(TypeItem::Struct("Vec".to_string()), None, "std::vec");
    let mut out = String::from("https://doc.rust-lang.org/");
    vec_struct.fmt_url(&mut out);
    assert_eq!(out, "https://doc.rust-lang.org/std/vec/struct.Vec.html");
}

#[test]
fn fmt_naive_joins_with_colons() {
    let vec_dedup = item(
        TypeItem::Function("dedup".to_string()),
        Some(TypeItem::Struct("Vec".to_string())),
        "std::vec",
    );
    let mut out = String::new();
    vec_dedup.fmt_naive(&mut out);
    assert_eq!(out, "std::vec::struct.Vec::fn.dedup");
    let vec_struct = item(TypeItem::Struct("Vec".to_string()), None, "std::vec");
    let mut out = String::from("> ");
    vec_struct.fmt_naive(&mut out);
    assert_eq!(out, "> std::vec::struct.Vec");
}

#[test]
fn new_keeps_its_parts() {
    let made = DocItem::new(
        TypeItem::Trait("Iterator".to_string()),
        None,
        "core::iter".to_string(),
        "An interface for iterators.".to_string(),
    );
    assert_eq!(made.name, TypeItem::Trait("Iterator".to_string()));
    assert_eq!(made.parent, None);
    assert_eq!(made.path, "core::iter");
    assert_eq!(made.desc, "An interface for iterators.");
    assert_eq!(made.index_key(), b"Iterator");
    assert_eq!(made.parent_atom(), None);
    let method = item(
        TypeItem::TyMethod("next".to_string()),
        Some(TypeItem::Trait("Iterator".to_string())),
        "core::iter",
    );
    assert_eq!(method.parent_atom(), Some(&"Iterator".to_string()));
}
