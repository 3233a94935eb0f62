//! Properties of syncing that relate several calls.

use vstd::prelude::*;
use crate::encoding::genesis_id;
use crate::node::{NodeView, lemma_chain};
use crate::ledger::{tx_same, txs_same, Entry, apply_tx, created_by, lemma_canonical, lemma_create_effect, lemma_spend_effect, represents, scope_of, spend, spent_by};
use crate::types::{Address, BlockId, CoinId, Transaction};
use crate::encoding::coin_id_of;
use crate::wallet::{Wallet, fork_height, lemma_replay_prefix, sync_cost};

verus! {

/// A sync from a wallet whose tip is the node's best block costs one query.
/// Every sync leaves the tip at the node's best block and raises the node's
/// query count by exactly `sync_cost`, and a sync that finds the tip
/// unchanged leaves the wallet as it was (see `Wallet::sync`): so a second
/// sync against an unchanged node changes nothing and raises the count by one.
pub proof fn lemma_resync_costs_one(w: &Wallet, n: NodeView)
    requires
        w.wf(),
        w.view().tip == n.best,
    ensures
        sync_cost(w.chain_view(), n) == 1,
{
    w.lemma_ledger();
}

/// Two wallets with the same registry that are synced to the same node agree
/// in everything queries see. A fresh wallet is consistent with every node,
/// a node that grows keeps its wallets consistent, and a sync from a
/// consistent wallet ends synced (see `Wallet::new`, `Wallet::sync` and
/// `Wallet::lemma_consistent_extends`): so a wallet that followed one branch
/// and then synced to another ends exactly where a fresh wallet synced
/// straight to the second branch ends.
pub proof fn lemma_sync_converges(w1: &Wallet, w2: &Wallet, n: NodeView)
    requires
        w1.wf(),
        w2.wf(),
        n.wf(),
        w1.synced_to(n),
        w2.synced_to(n),
        w1.view().registry == w2.view().registry,
    ensures
        w1.view() == w2.view(),
{
    w1.lemma_ledger();
    w2.lemma_ledger();
    w1.lemma_synced(n);
    w2.lemma_synced(n);
    let h = w1.view().height;
    assert forall|k: int| 1 <= k <= h implies #[trigger] txs_same(w1.block_txs()[k], w2.block_txs()[k]) by {
        assert(w1.chain_view()[k] == w2.chain_view()[k]);
        let t = n.blocks[w1.chain_view()[k]].txs;
        assert(txs_same(w1.block_txs()[k], t));
        assert(txs_same(w2.block_txs()[k], t));
        assert forall|i: int| 0 <= i < w1.block_txs()[k].len() implies #[trigger] tx_same(w1.block_txs()[k][i], w2.block_txs()[k][i]) by {
            assert(tx_same(w1.block_txs()[k][i], t[i]));
            assert(tx_same(w2.block_txs()[k][i], t[i]));
        }
    }
    lemma_replay_prefix(scope_of(w1.view().registry), w1.block_txs(), w2.block_txs(), h);
    assert(w1.coin_map() == w2.coin_map());
    assert(represents(w1.view().coins, w1.coin_map()));
    assert(represents(w2.view().coins, w2.coin_map()));
    lemma_canonical(w1.view().coins, w2.view().coins, w1.coin_map());
    lemma_chain(n, n.best);
}

proof fn lemma_fork_at_most(c: Seq<BlockId>, nc: Seq<BlockId>, h: nat)
    ensures
        fork_height(c, nc, h) <= h,
    decreases h,
{
    if h > 0 {
        lemma_fork_at_most(c, nc, (h - 1) as nat);
    }
}

proof fn lemma_fork_of_genesis(nc: Seq<BlockId>, h: nat)
    ensures
        fork_height(seq![genesis_id()], nc, h) == 0,
    decreases h,
{
    if h > 0 {
        lemma_fork_of_genesis(nc, (h - 1) as nat);
    }
}

/// A reorganisation whose fork lies above genesis costs fewer node queries
/// than syncing the same best chain from genesis (a fresh wallet's chain is
/// genesis alone; `Wallet::sync` raises the node's count by `sync_cost`).
pub proof fn lemma_reorg_cheaper(c: Seq<BlockId>, n: NodeView)
    requires
        n.wf(),
        c.len() >= 1,
        c.last() != n.best,
        fork_height(c, n.best_chain(), n.best_height()) > 0,
    ensures
        sync_cost(c, n) < sync_cost(seq![genesis_id()], n),
{
    lemma_fork_at_most(c, n.best_chain(), n.best_height());
    lemma_fork_of_genesis(n.best_chain(), n.best_height());
    if n.best == genesis_id() {
        assert(n.best_height() == 0);
    }
    assert(seq![genesis_id()].last() == genesis_id());
}

/// Applying a transaction accounts for every coin: the coins its inputs name
/// leave the ledger, every other coin stays with its value, and exactly its
/// outputs owned by followed addresses come in, each with its own value.
pub proof fn lemma_apply_tx_accounts(m: Map<CoinId, Entry>, t: Transaction, scope: Seq<(Address, u64)>, h: int)
    ensures
        forall|id: CoinId| #[trigger] apply_tx(m, t, scope, h).contains_key(id) == (created_by(t, t.outputs@.len() as int, scope, h, id)
            || (m.contains_key(id) && !spent_by(t.inputs@, id))),
        forall|id: CoinId| !created_by(t, t.outputs@.len() as int, scope, h, id) && #[trigger] apply_tx(m, t, scope, h).contains_key(id)
            ==> apply_tx(m, t, scope, h)[id] == m[id],
        forall|id: CoinId| #[trigger] created_by(t, t.outputs@.len() as int, scope, h, id) ==> exists|i: int|
            0 <= i < t.outputs@.len() && #[trigger] coin_id_of(t, i) == id && apply_tx(m, t, scope, h)[id] == (Entry {
                id,
                coin: t.outputs@[i],
                position: i as u64,
            }),
{
    lemma_spend_effect(m, t.inputs@);
    lemma_create_effect(spend(m, t.inputs@), t, t.outputs@.len(), scope, h);
}

} // verus!
