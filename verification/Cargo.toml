[package]
name = "bitemporal"
version = "0.1.0"
edition = "2021"
publish = false

[dependencies]
abomonation = "0.7"
abomonation_derive = "0.3"
differential-dataflow = "0.8"
rand = "0.4"
timely = "0.8"
