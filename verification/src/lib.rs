//! Building blocks of a small peer-to-peer node: the packet wire format,
//! the bounded waiting list, the connection table and the table of
//! message digests already seen, each with its contract.

pub mod text;
pub mod hashing;
pub mod ppacket;
pub mod wlist;
pub mod connections;
pub mod client;
pub mod jsonize;
