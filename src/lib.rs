//! A light wallet for a simplified UTXO chain: it follows a node's best
//! chain, keeps the unspent coins of the addresses it tracks, undoes blocks
//! that leave the best chain, and builds transactions from what it holds.

pub mod types;
pub mod encoding;
pub mod node;
pub mod ledger;
pub mod wallet;
pub mod builder;
pub mod addresses;
pub mod presets;
pub mod laws;

pub use node::MockNode;
pub use wallet::Wallet;
pub use types::{Address, AddressKind, Block, BlockId, Coin, CoinId, Input, Signature, Transaction, WalletError};
