//! A proof-of-work ledger node: blocks, transactions, the UTXO set, the
//! mempool, difficulty retargeting, the wire protocol and the persisted layout.
pub mod uint;
pub mod primitives;
pub mod hash;
pub mod text;
pub mod crypto;
pub mod types;
pub mod merkle;
pub mod utxo;
pub mod rules;
pub mod chain;
pub mod wallet;
pub mod protocol;
pub mod gossip;
