[package]
name = "tomcrypt"
version = "0.1.0"
edition = "2021"
publish = false

[dependencies]
aes = "*"
blowfish = "*"
byteorder = "*"
des = "*"
getrandom = "*"
md-5 = "*"
sha1 = "*"
sha2 = "*"
tomcrypt-sys = "=0.1.0"

[dev-dependencies]
hex = "=0.4.3"
