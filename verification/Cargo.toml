[package]
name = "harfrust"
version = "0.1.0"
edition = "2021"
publish = false

[dependencies]
read-fonts = "=0.44.0"
hashbrown = "=0.17.1"
smallvec = "=1.16.4"
spin = "=0.12.3"
bytemuck = "=1.25.2"
clap = { version = "=4.6.7", features = ["derive"] }
