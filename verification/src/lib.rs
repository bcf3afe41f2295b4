//! Host side of a paravirtual NVIDIA resource-manager device.

pub mod abi;
pub mod accounts;
pub mod bytes;
pub mod caps;
pub mod client_policy;
pub mod errno;
pub mod events;
pub mod execute;
pub mod grid;
pub mod guest_words;
pub mod host_pool;
pub mod mediate;
pub mod mirror;
pub mod nvrm;
pub mod plan;
pub mod polls;
pub mod pool_state;
pub mod prepare;
pub mod profile;
pub mod request_shape;
pub mod seqs;
pub mod session;
pub mod table;
pub mod text;
pub mod vram;
pub mod waiters;
pub mod window;
pub mod wire;
