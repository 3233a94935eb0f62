//! Value types of the ledger: addresses, coins, inputs, transactions, blocks.

use vstd::prelude::*;

verus! {

/// An address that can own coins.
#[derive(Clone, Copy, Debug, PartialEq, Eq, Hash, Structural)]
pub enum Address {
    Alice,
    Bob,
    Charlie,
    Dave,
    Eve,
    Custom(u64),
}

/// Identity of a coin: a digest of the creating transaction and the output's position.
#[derive(Clone, Copy, Debug, PartialEq, Eq, Hash, Structural)]
pub struct CoinId(pub u64);

/// Identity of a block: a digest of its parent and its transactions.
#[derive(Clone, Copy, Debug, PartialEq, Eq, Hash, Structural)]
pub struct BlockId(pub u64);

/// A value owned by an address.
#[derive(Clone, Copy, Debug, PartialEq, Eq, Hash, Structural)]
pub struct Coin {
    pub value: u64,
    pub owner: Address,
}

/// Authorisation of a spend.
#[derive(Clone, Copy, Debug, PartialEq, Eq, Hash, Structural)]
pub enum Signature {
    Valid(Address),
    Invalid,
}

/// A reference to the coin that a transaction consumes.
#[derive(Clone, Copy, Debug, PartialEq, Eq, Hash, Structural)]
pub struct Input {
    pub coin_id: CoinId,
    pub signature: Signature,
}

impl Input {
    /// An input that refers to no coin the wallet could know.
    pub fn dummy() -> (r: Input)
        ensures
            r == (Input { coin_id: CoinId(0), signature: Signature::Invalid }),
    {
        Input { coin_id: CoinId(0), signature: Signature::Invalid }
    }
}

/// Consumes the coins named by its inputs and creates its outputs.
#[derive(Clone, Debug, PartialEq, Eq, Hash)]
pub struct Transaction {
    pub inputs: Vec<Input>,
    pub outputs: Vec<Coin>,
}

/// A block of the chain.
#[derive(Clone, Debug, PartialEq, Eq, Hash)]
pub struct Block {
    pub parent: BlockId,
    pub transactions: Vec<Transaction>,
}

/// How the wallet holds an address.
#[derive(Clone, Copy, Debug, PartialEq, Eq, Hash, Structural)]
pub enum AddressKind {
    Owned,
    WatchOnly,
}

/// The ways a query or a construction can fail.
#[derive(Clone, Copy, Debug, PartialEq, Eq, Hash, Structural)]
pub enum WalletError {
    NoOwnedAddresses,
    ForeignAddress,
    UnknownCoin,
    OutputsExceedInputs,
}

} // verus!
