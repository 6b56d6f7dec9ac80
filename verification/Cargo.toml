[package]
name = "spellgrid"
version = "0.1.0"
edition = "2021"
publish = false

[dependencies]
rand = "=0.8.8"
topological-sort = "=0.3.1"
bevy = { version = "=0.6.1", default-features = false, features = ["render", "bevy_winit", "png", "x11"] }
bevy_rapier2d = "=0.12.0"
# bevy_rapier2d 0.12 is written against this pre-release of rapier2d and does not compile
# against the release 0.12.0, which is what its own version requirement would pick.
rapier2d = "=0.12.0-alpha.0"
nom = "=7.1.3"
simple-error = "=0.3.3"
anyhow = "=1.0.104"
bitflags = "=1.3.2"
lazy_static = "=1.5.1"
noise = "=0.7.0"
bytemuck = "=1.25.2"
