//! A searchable catalog of the items that rustdoc lists in its search manifest.
//!
//! The manifest text is normalized, decoded and resolved into a [`RustDoc`]
//! catalog, which is frozen into a [`RustDocSeeker`]: the sorted items and an
//! ordered map from each name to the range of items that carry it.
//!
//! ```
//! use rustdoc_seeker::RustDoc;
//!
//! let manifest = r#"searchIndex["std"] = {"doc":"std","p":[[3,"Vec"]],"i":[[3,"Vec","std::vec","",N,N],[11,"dedup","","",0,N]]};"#;
//! let seeker = RustDoc::from_str(manifest).unwrap().build().unwrap();
//! let found = seeker.search_prefix("ded");
//! assert_eq!(found.len(), 1);
//! assert_eq!(found[0].to_string(), "std/vec/struct.Vec.html#method.dedup");
//! ```
pub mod catalog;
pub mod document;
pub mod error;
pub mod index;
pub mod item;
pub mod json;
pub mod manifest;
pub mod merge;
pub mod ordering;
pub mod parser;
pub mod record;
pub mod seeker;
pub mod text;

pub use catalog::RustDoc;
pub use error::SeekerError;
pub use item::DocItem;
pub use item::TypeItem;
pub use json::fix_json;
pub use seeker::RustDocSeeker;
