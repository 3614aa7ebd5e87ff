[package]
name = "passero"
version = "0.1.0"
edition = "2021"
publish = false

[dependencies]
sequoia-openpgp = { version = "1", default-features = false, features = ["crypto-rust", "allow-experimental-crypto", "allow-variable-time-crypto"] }
git2 = { version = "*", default-features = false }
ureq = { version = "2", default-features = false, features = ["json"] }
serde = { version = "1", features = ["derive"] }
serde_json = "1"
totp-rs = { version = "5", features = ["otpauth"] }
url = "2"
urlencoding = "2"
image = { version = "0.25", default-features = false, features = ["png", "jpeg"] }
rqrr = "*"
dirs = "5"
thiserror = "*"

[dev-dependencies]
mockito = "1"
tempfile = "3"
