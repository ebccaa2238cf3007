[package]
name = "aoc"
version = "0.1.0"
edition = "2021"

[dependencies]
disjoint = "*"
itertools = "*"
regex = "1"
thiserror = "*"
