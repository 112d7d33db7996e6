[package]
name = "proposal_registry"
version = "0.1.0"
edition = "2021"

[dependencies]
ic-stable-structures = "=0.7.2"
candid = "=0.10.37"
ic-cdk = "=0.20.3"
serde = "*"
