[package]
name = "board_games"
version = "0.1.0"
edition = "2021"
publish = false

[dependencies]
rand = "*"
thiserror = "*"
yansi = "*"
