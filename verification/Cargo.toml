[package]
name = "rustdoc_seeker"
version = "0.1.0"
edition = "2021"
publish = false

[dependencies]
fst = { version = "=0.4.7", features = ["levenshtein"] }
regex-automata = { version = "=0.1.10", features = ["transducer"] }
serde_json = "=1.0.154"
