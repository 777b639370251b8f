[package]
name = "psychopath"
version = "0.1.0"
edition = "2021"
publish = false

[dependencies]
glam = "=0.8.7"
copy_in_place = "=0.2.2"
docopt = "=1.1.1"
num_cpus = "=1.17.0"
nom = "=5.1.3"
kioku = "=0.3.1"
