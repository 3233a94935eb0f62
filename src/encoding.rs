//! Content identity: a byte encoding of transactions and blocks, and the
//! digest that turns it into coin and block identities.

use vstd::prelude::*;
use crate::types::{Address, Block, BlockId, Coin, CoinId, Input, Signature, Transaction};

verus! {

/// What the digest of a byte string is.
pub uninterp spec fn digest_of(bytes: Seq<u8>) -> u64;

/// Relies on std's `BuildHasher::hash_one` over `BuildHasherDefault<DefaultHasher>`:
/// every `DefaultHasher` made by `default` starts from the same fixed keys, so
/// within one build of the library the result depends on the bytes alone.
#[verifier::external_body]
fn digest(bytes: &Vec<u8>) -> (r: u64)
    ensures
        r == digest_of(bytes@),
{
    std::hash::BuildHasher::hash_one(
        &std::hash::BuildHasherDefault::<std::hash::DefaultHasher>::default(),
        bytes.as_slice(),
    )
}

/// Eight bytes, least significant first.
pub open spec fn u64_le(x: u64) -> Seq<u8> {
    seq![
        (x & 0xff) as u8,
        ((x >> 8u64) & 0xff) as u8,
        ((x >> 16u64) & 0xff) as u8,
        ((x >> 24u64) & 0xff) as u8,
        ((x >> 32u64) & 0xff) as u8,
        ((x >> 40u64) & 0xff) as u8,
        ((x >> 48u64) & 0xff) as u8,
        ((x >> 56u64) & 0xff) as u8,
    ]
}

pub open spec fn enc_address(a: Address) -> Seq<u8> {
    match a {
        Address::Alice => seq![0u8],
        Address::Bob => seq![1u8],
        Address::Charlie => seq![2u8],
        Address::Dave => seq![3u8],
        Address::Eve => seq![4u8],
        Address::Custom(n) => seq![5u8] + u64_le(n),
    }
}

pub open spec fn enc_signature(s: Signature) -> Seq<u8> {
    match s {
        Signature::Valid(a) => seq![1u8] + enc_address(a),
        Signature::Invalid => seq![0u8],
    }
}

pub open spec fn enc_input(i: Input) -> Seq<u8> {
    u64_le(i.coin_id.0) + enc_signature(i.signature)
}

pub open spec fn enc_coin(c: Coin) -> Seq<u8> {
    u64_le(c.value) + enc_address(c.owner)
}

pub open spec fn enc_inputs(s: Seq<Input>) -> Seq<u8>
    decreases s.len(),
{
    if s.len() == 0 {
        seq![]
    } else {
        enc_inputs(s.drop_last()) + enc_input(s.last())
    }
}

pub open spec fn enc_coins(s: Seq<Coin>) -> Seq<u8>
    decreases s.len(),
{
    if s.len() == 0 {
        seq![]
    } else {
        enc_coins(s.drop_last()) + enc_coin(s.last())
    }
}

/// A transaction: the count and encodings of its inputs, then of its outputs.
pub open spec fn enc_tx(t: Transaction) -> Seq<u8> {
    u64_le(t.inputs@.len() as u64) + enc_inputs(t.inputs@) + u64_le(t.outputs@.len() as u64)
        + enc_coins(t.outputs@)
}

pub open spec fn enc_txs(s: Seq<Transaction>) -> Seq<u8>
    decreases s.len(),
{
    if s.len() == 0 {
        seq![]
    } else {
        enc_txs(s.drop_last()) + enc_tx(s.last())
    }
}

/// A block: its parent's identity, the count of its transactions, and their encodings.
pub open spec fn enc_block(parent: BlockId, txs: Seq<Transaction>) -> Seq<u8> {
    u64_le(parent.0) + u64_le(txs.len() as u64) + enc_txs(txs)
}

/// The identity of output `index` of `t`.
pub open spec fn coin_id_of(t: Transaction, index: int) -> CoinId {
    CoinId(digest_of(enc_tx(t) + u64_le(index as u64)))
}

/// The identity of the block with this parent and these transactions.
pub open spec fn block_id_of(parent: BlockId, txs: Seq<Transaction>) -> BlockId {
    BlockId(digest_of(enc_block(parent, txs)))
}

/// The parent recorded in the genesis block.
pub open spec fn genesis_parent() -> BlockId {
    BlockId(0)
}

/// The identity of the genesis block.
pub open spec fn genesis_id() -> BlockId {
    block_id_of(genesis_parent(), seq![])
}

fn push_u64(out: &mut Vec<u8>, x: u64)
    ensures
        final(out)@ == old(out)@ + u64_le(x),
{
    out.push((x & 0xff) as u8);
    out.push(((x >> 8u64) & 0xff) as u8);
    out.push(((x >> 16u64) & 0xff) as u8);
    out.push(((x >> 24u64) & 0xff) as u8);
    out.push(((x >> 32u64) & 0xff) as u8);
    out.push(((x >> 40u64) & 0xff) as u8);
    out.push(((x >> 48u64) & 0xff) as u8);
    out.push(((x >> 56u64) & 0xff) as u8);
    assert(final(out)@ =~= old(out)@ + u64_le(x));
}

fn push_address(out: &mut Vec<u8>, a: Address)
    ensures
        final(out)@ == old(out)@ + enc_address(a),
{
    match a {
        Address::Alice => out.push(0u8),
        Address::Bob => out.push(1u8),
        Address::Charlie => out.push(2u8),
        Address::Dave => out.push(3u8),
        Address::Eve => out.push(4u8),
        Address::Custom(n) => {
            out.push(5u8);
            push_u64(out, n);
        },
    }
    assert(final(out)@ =~= old(out)@ + enc_address(a));
}

fn push_input(out: &mut Vec<u8>, i: &Input)
    ensures
        final(out)@ == old(out)@ + enc_input(*i),
{
    push_u64(out, i.coin_id.0);
    match i.signature {
        Signature::Valid(a) => {
            out.push(1u8);
            push_address(out, a);
        },
        Signature::Invalid => out.push(0u8),
    }
    assert(final(out)@ =~= old(out)@ + enc_input(*i));
}

fn push_coin(out: &mut Vec<u8>, c: &Coin)
    ensures
        final(out)@ == old(out)@ + enc_coin(*c),
{
    push_u64(out, c.value);
    push_address(out, c.owner);
    assert(final(out)@ =~= old(out)@ + enc_coin(*c));
}

fn push_tx(out: &mut Vec<u8>, t: &Transaction)
    ensures
        final(out)@ == old(out)@ + enc_tx(*t),
{
    let ghost start = out@;
    push_u64(out, t.inputs.len() as u64);
    let mut i: usize = 0;
    while i < t.inputs.len()
        invariant
            i <= t.inputs@.len(),
            out@ == start + u64_le(t.inputs@.len() as u64) + enc_inputs(t.inputs@.subrange(0, i as int)),
        decreases t.inputs@.len() - i,
    {
        push_input(out, &t.inputs[i]);
        assert(t.inputs@.subrange(0, i + 1).drop_last() =~= t.inputs@.subrange(0, i as int));
        i = i + 1;
    }
    assert(t.inputs@.subrange(0, t.inputs@.len() as int) =~= t.inputs@);
    let ghost mid = out@;
    push_u64(out, t.outputs.len() as u64);
    let mut j: usize = 0;
    while j < t.outputs.len()
        invariant
            j <= t.outputs@.len(),
            out@ == mid + u64_le(t.outputs@.len() as u64) + enc_coins(t.outputs@.subrange(0, j as int)),
        decreases t.outputs@.len() - j,
    {
        push_coin(out, &t.outputs[j]);
        assert(t.outputs@.subrange(0, j + 1).drop_last() =~= t.outputs@.subrange(0, j as int));
        j = j + 1;
    }
    assert(t.outputs@.subrange(0, t.outputs@.len() as int) =~= t.outputs@);
    assert(final(out)@ =~= old(out)@ + enc_tx(*t));
}

impl Transaction {
    /// A copy with the same inputs and outputs.
    pub fn duplicate(&self) -> (r: Transaction)
        ensures
            r.inputs@ == self.inputs@,
            r.outputs@ == self.outputs@,
    {
        let mut inputs: Vec<Input> = Vec::new();
        let mut i: usize = 0;
        while i < self.inputs.len()
            invariant
                i <= self.inputs@.len(),
                inputs@ == self.inputs@.subrange(0, i as int),
            decreases self.inputs@.len() - i,
        {
            inputs.push(self.inputs[i]);
            assert(inputs@ =~= self.inputs@.subrange(0, i + 1));
            i = i + 1;
        }
        let mut outputs: Vec<Coin> = Vec::new();
        let mut j: usize = 0;
        while j < self.outputs.len()
            invariant
                j <= self.outputs@.len(),
                outputs@ == self.outputs@.subrange(0, j as int),
            decreases self.outputs@.len() - j,
        {
            outputs.push(self.outputs[j]);
            assert(outputs@ =~= self.outputs@.subrange(0, j + 1));
            j = j + 1;
        }
        assert(inputs@ =~= self.inputs@);
        assert(outputs@ =~= self.outputs@);
        Transaction { inputs, outputs }
    }

    /// The identity of this transaction's output at `index`.
    pub fn coin_id(&self, index: usize) -> (r: CoinId)
        ensures
            r == coin_id_of(*self, index as int),
    {
        let mut bytes: Vec<u8> = Vec::new();
        push_tx(&mut bytes, self);
        push_u64(&mut bytes, index as u64);
        assert(bytes@ =~= enc_tx(*self) + u64_le(index as u64));
        CoinId(digest(&bytes))
    }
}

impl Block {
    /// The genesis block: no transactions, a fixed parent.
    pub fn genesis() -> (r: Block)
        ensures
            r.parent == genesis_parent(),
            r.transactions@.len() == 0,
    {
        Block { parent: BlockId(0), transactions: Vec::new() }
    }

    /// This block's identity.
    pub fn id(&self) -> (r: BlockId)
        ensures
            r == block_id_of(self.parent, self.transactions@),
    {
        block_id(self.parent, &self.transactions)
    }
}

/// The identity of a block with this parent and these transactions.
pub fn block_id(parent: BlockId, txs: &Vec<Transaction>) -> (r: BlockId)
    ensures
        r == block_id_of(parent, txs@),
{
    let mut bytes: Vec<u8> = Vec::new();
    push_u64(&mut bytes, parent.0);
    push_u64(&mut bytes, txs.len() as u64);
    let mut i: usize = 0;
    while i < txs.len()
        invariant
            i <= txs@.len(),
            bytes@ == u64_le(parent.0) + u64_le(txs@.len() as u64) + enc_txs(txs@.subrange(0, i as int)),
        decreases txs@.len() - i,
    {
        push_tx(&mut bytes, &txs[i]);
        assert(txs@.subrange(0, i + 1).drop_last() =~= txs@.subrange(0, i as int));
        i = i + 1;
    }
    assert(txs@.subrange(0, txs@.len() as int) =~= txs@);
    BlockId(digest(&bytes))
}

} // verus!
