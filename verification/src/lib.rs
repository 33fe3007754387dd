//! Backends that apply firewall directives: at once, staged for one atomic
//! restore, not at all, or only recorded.

pub mod dummy;
pub mod errors;
pub mod iptables;
pub mod laws;
pub mod logger;
pub mod order;
pub mod restore;
pub mod sorted;
pub mod staged;
pub mod text;
