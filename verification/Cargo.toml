[package]
name = "query_term"
version = "0.1.0"
edition = "2021"
publish = false

[dependencies]
charabia = { version = "=0.8.12", default-features = false }
flate2 = "1"
levenshtein_automata = "=0.2.1"
serde = { version = "=1.0.229", features = ["derive"] }
serde_json = "=1.0.154"
tar = "0.4"
tempfile = "3"
thiserror = "1"
time = { version = "0.3", features = ["serde", "formatting", "parsing"] }
uuid = "1"
