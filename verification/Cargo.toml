[package]
name = "wombat_symx"
version = "0.1.0"
edition = "2021"
publish = false

[dependencies]
clap = { version = "=4.6.7", features = ["derive"] }
inkwell = { version = "=0.2.0", default-features = false, features = ["llvm14-0"] }
# inkwell links LLVM through llvm-sys; it is named only to link LLVM as a shared library
llvm-sys = { version = "=140.1.3", features = ["prefer-dynamic"] }
rustc-demangle = "=0.1.28"
tracing = "=0.1.44"
tracing-core = "=0.1.36"
tracing-subscriber = "=0.3.23"
z3 = "=0.10.0"
