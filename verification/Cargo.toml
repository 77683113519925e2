[package]
name = "secret_config"
version = "0.1.0"
edition = "2021"
publish = false

[dependencies]
jmespath = "*"
config = "*"
serde = "*"
aws-config = { version = "*", default-features = false }
aws-sdk-ssm = { version = "*", default-features = false }
aws-sdk-secretsmanager = { version = "*", default-features = false }
