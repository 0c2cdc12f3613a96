[package]
name = "jitter"
version = "0.1.0"
edition = "2021"
publish = false

[dependencies]
bimap = "=0.6.3"
iced-x86 = { version = "=1.21.0", features = ["code_asm"] }
libc = "=0.2.190"
winapi = { version = "=0.3.9", features = ["memoryapi", "sysinfoapi", "errhandlingapi", "winnt", "basetsd"] }
structopt = "=0.3.26"
log = "=0.4.34"
env_logger = "=0.11.11"
