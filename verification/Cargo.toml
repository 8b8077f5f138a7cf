[package]
name = "polygon_unionfind"
version = "0.1.0"
edition = "2021"
publish = false

[dependencies]
i_overlay = "*"
rstar = "*"
rstared = "*"
maplike = "*"
num-traits = "0.2"
rand = "0.8"
macroquad = "0.4"
