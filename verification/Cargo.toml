[package]
name = "bonnibel"
version = "0.1.0"
edition = "2021"
publish = false

[dependencies]
tera = { version = "*", default-features = false }
serde_json = "*"
serde_yaml = "*"
url = "*"
serde = { version = "*", features = ["derive"] }
reqwest = { version = "*", default-features = false, features = ["blocking"] }
tempfile = "*"
git2 = { version = "*", default-features = false }
semver = "*"
structopt = "*"
clap-verbosity-flag = "*"
directories = "*"
exitfailure = "*"
failure = "*"
indicatif = "*"
log = "*"
