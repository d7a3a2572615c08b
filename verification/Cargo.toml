[package]
name = "gre"
version = "0.1.0"
edition = "2021"
publish = false

[dependencies]
rand = "=0.6.5"
svg = "=0.8.2"
geo = "=0.14.2"
image = "=0.23.14"
time = "=0.3.55"
travelling_salesman = "=1.1.22"
voronoi = "=0.1.4"
