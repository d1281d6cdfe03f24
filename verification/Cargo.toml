[package]
name = "floorplan"
version = "0.1.0"
edition = "2021"
publish = false

[dependencies]
anyhow = "=1.0.104"
arrayref = "=0.3.9"
candle-core = "=0.6.0"
candle-nn = "=0.6.0"
del-candle = "=0.1.0"
del-canvas-core = "=0.1.1"
# del-geo-core, del-geo-nalgebra and half are not called here: they hold the versions
# that del-msh-core 0.1.34 and candle-core 0.6.0 build with.
del-geo-core = "=0.1.29"
del-geo-nalgebra = "=0.1.29"
del-msh-core = "=0.1.34"
half = "=2.4.1"
nalgebra = "=0.33.3"
rand = "=0.8.8"
