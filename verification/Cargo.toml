[package]
name = "weavatrix-rust-refactor"
version = "0.1.0"
edition = "2021"
publish = false

[dependencies]
blazingly-json = "*"
regex = "*"
weavatrix-graph = "*"
weavatrix-parse = "*"
weavatrix-refactor-plan = "*"
weavatrix-rust = "*"
weavatrix-worktree = "*"
