[package]
name = "oxi_gen"
version = "0.1.0"
edition = "2021"
publish = false

[dependencies]
clap = { version = "=4.6.7", features = ["cargo"] }
csv = "=1.4.0"
flate2 = "=1.1.10"
num_cpus = "=1.17.0"
oxrdf = { version = "=0.3.5", features = ["rdf-12"] }
oxrdfio = { version = "=0.2.7", features = ["rdf-12"] }
regex = "=1.13.1"
spareval = { version = "=0.2.9", features = ["sparql-12"] }
spargebra = { version = "=0.4.8", features = ["sparql-12"] }
