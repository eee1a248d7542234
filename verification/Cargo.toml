[package]
name = "spreadsheet"
version = "0.1.0"
edition = "2021"
publish = false

[dependencies]
log = "0.4"
fern = "0.6"
chrono = "0.4"
termion = "1.5"
tui = "0.6"
