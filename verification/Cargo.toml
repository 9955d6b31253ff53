[package]
name = "declarative_dataflow"
version = "0.1.0"
edition = "2021"
publish = false

[dependencies]
timely = "0.9"
differential-dataflow = "0.9"
num-rational = "0.2"
graphql-parser = "0.2"
serde = { version = "1", features = ["derive"] }
serde_derive = "1"
serde_json = "1"
getopts = "0.2"
mio = "0.6"
ws = "0.8"
slab = "0.4"
log = "0.4"
env_logger = "0.6"
abomonation = "0.7"
abomonation_derive = "0.3"
csv = "1"
