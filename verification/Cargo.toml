[package]
name = "vhost-user-nvrm"
version = "0.1.0"
edition = "2021"
publish = false

[dependencies]
anyhow = "*"
libc = "*"
vhost = { version = "*", features = ["vhost-user", "vhost-user-backend", "vhost-user-frontend"] }
vhost-user-backend = "*"
virtio-queue = "*"
vm-memory = { version = "*", features = ["backend-mmap", "backend-atomic"] }
vmm-sys-util = "*"
