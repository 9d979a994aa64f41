[package]
name = "dag_flow"
version = "0.1.0"
edition = "2021"
publish = false

[dependencies]
dynosaur = "*"
futures = "*"
thiserror = "*"
trait-variant = "*"
