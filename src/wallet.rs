//! The wallet: follows a node's best chain, keeps the ledger of the addresses
//! it holds, and answers queries from that ledger alone.

use vstd::prelude::*;
use crate::types::{Address, AddressKind, Block, BlockId, Coin, CoinId, Transaction, WalletError};
use crate::encoding::genesis_id;
use crate::node::{MockNode, NodeView, lemma_chain, lemma_chain_extends, lemma_chain_prefix};
use crate::ledger::{Change, Entry, Ledger, Watched, lemma_apply_txs_same, tx_same, txs_same, apply_block, replay, revert, undo, apply_txs, scope_of, follows, lemma_replay_agree};

verus! {

/// The highest height at or below `h` where both chains hold the same block.
pub open spec fn fork_height(c: Seq<BlockId>, nc: Seq<BlockId>, h: nat) -> nat
    decreases h,
{
    if h < c.len() && h < nc.len() && c[h as int] == nc[h as int] {
        h
    } else if h == 0 {
        0
    } else {
        fork_height(c, nc, (h - 1) as nat)
    }
}

/// The node queries a sync costs from a wallet whose chain is `c`: one when
/// the tip is unchanged, else two for the tip and its height, and one for
/// each block above the fork.
pub open spec fn sync_cost(c: Seq<BlockId>, n: NodeView) -> nat {
    if c.last() == n.best {
        1
    } else {
        (2 + n.best_height() - fork_height(c, n.best_chain(), n.best_height())) as nat
    }
}

/// The registry of a wallet created with `addresses`: each address once, owned, from genesis.
pub open spec fn initial_registry(addresses: Seq<Address>) -> Seq<Watched>
    decreases addresses.len(),
{
    if addresses.len() == 0 {
        seq![]
    } else {
        let r = initial_registry(addresses.drop_last());
        if exists|i: int| 0 <= i < r.len() && (#[trigger] r[i]).address == addresses.last() {
            r
        } else {
            r.push(Watched { address: addresses.last(), kind: AddressKind::Owned, from: 0, active: true })
        }
    }
}

/// The blocks a rescan from height `lo` fetches from a wallet at `height`:
/// every block from `lo` up, and at least those above genesis.
pub open spec fn rescan_cost(height: nat, lo: nat) -> nat {
    if lo <= 1 {
        height
    } else if lo - 1 < height {
        (height - (lo - 1)) as nat
    } else {
        0
    }
}

/// The transactions of the node's best chain, by height; genesis has none.
pub open spec fn best_chain_txs(n: NodeView) -> Seq<Seq<Transaction>> {
    Seq::new(n.best_height() + 1, |j: int| if j == 0 { Seq::empty() } else { n.blocks[n.best_chain()[j]].txs })
}

/// Replay depends on the blocks up to the height replayed, and on nothing above.
pub proof fn lemma_replay_prefix(reg: Seq<(Address, u64)>, b1: Seq<Seq<Transaction>>, b2: Seq<Seq<Transaction>>, n: nat)
    requires
        forall|k: int| 1 <= k <= n ==> #[trigger] txs_same(b1[k], b2[k]),
    ensures
        replay(reg, b1, n) == replay(reg, b2, n),
    decreases n,
{
    if n > 0 {
        lemma_replay_prefix(reg, b1, b2, (n - 1) as nat);
        lemma_apply_txs_same(replay(reg, b1, (n - 1) as nat), b1[n as int], b2[n as int], reg, n as int);
    }
}

/// The kind of `a` if the registry holds it and queries see it.
pub open spec fn active_kind(reg: Seq<Watched>, a: Address) -> Option<AddressKind>
    decreases reg.len(),
{
    if reg.len() == 0 {
        None
    } else if reg.last().address == a {
        if reg.last().active {
            Some(reg.last().kind)
        } else {
            None
        }
    } else {
        active_kind(reg.drop_last(), a)
    }
}

/// Some address is visible to queries.
pub open spec fn any_active(reg: Seq<Watched>) -> bool {
    exists|i: int| 0 <= i < reg.len() && (#[trigger] reg[i]).active
}

/// The error a query about `a` fails with, if any.
pub open spec fn query_error(reg: Seq<Watched>, a: Address) -> Option<WalletError> {
    if !any_active(reg) {
        Some(WalletError::NoOwnedAddresses)
    } else if active_kind(reg, a) is None {
        Some(WalletError::ForeignAddress)
    } else {
        None
    }
}

/// The sum of the values of the coins of `a`.
pub open spec fn balance(coins: Seq<Entry>, a: Address) -> int
    decreases coins.len(),
{
    if coins.len() == 0 {
        0
    } else {
        balance(coins.drop_last(), a) + if coins.last().coin.owner == a {
            coins.last().coin.value as int
        } else {
            0
        }
    }
}

/// The identities and values of the coins of `a`, in ledger order.
pub open spec fn listing(coins: Seq<Entry>, a: Address) -> Seq<(CoinId, u64)>
    decreases coins.len(),
{
    if coins.len() == 0 {
        seq![]
    } else if coins.last().coin.owner == a {
        listing(coins.drop_last(), a).push((coins.last().id, coins.last().coin.value))
    } else {
        listing(coins.drop_last(), a)
    }
}

/// The sum of the values of the coins whose owner is visible to queries.
pub open spec fn worth(coins: Seq<Entry>, reg: Seq<Watched>) -> int
    decreases coins.len(),
{
    if coins.len() == 0 {
        0
    } else {
        worth(coins.drop_last(), reg) + if active_kind(reg, coins.last().coin.owner) is Some {
            coins.last().coin.value as int
        } else {
            0
        }
    }
}

/// A sum over a prefix is at most the sum over the whole.
pub proof fn lemma_balance_prefix(coins: Seq<Entry>, a: Address, i: int)
    requires
        0 <= i <= coins.len(),
    ensures
        balance(coins.subrange(0, i), a) <= balance(coins, a),
        balance(coins.subrange(0, i), a) >= 0,
    decreases coins.len(),
{
    if coins.len() > 0 {
        if i == coins.len() {
            assert(coins.subrange(0, i) =~= coins);
            lemma_balance_prefix(coins.drop_last(), a, i - 1);
            assert(coins.drop_last().subrange(0, i - 1) =~= coins.subrange(0, i - 1));
        } else {
            lemma_balance_prefix(coins.drop_last(), a, i);
            assert(coins.drop_last().subrange(0, i) =~= coins.subrange(0, i));
        }
    }
}

/// A sum over a prefix is at most the sum over the whole.
pub proof fn lemma_worth_prefix(coins: Seq<Entry>, reg: Seq<Watched>, i: int)
    requires
        0 <= i <= coins.len(),
    ensures
        worth(coins.subrange(0, i), reg) <= worth(coins, reg),
        worth(coins.subrange(0, i), reg) >= 0,
    decreases coins.len(),
{
    if coins.len() > 0 {
        if i == coins.len() {
            assert(coins.subrange(0, i) =~= coins);
            lemma_worth_prefix(coins.drop_last(), reg, i - 1);
            assert(coins.drop_last().subrange(0, i - 1) =~= coins.subrange(0, i - 1));
        } else {
            lemma_worth_prefix(coins.drop_last(), reg, i);
            assert(coins.drop_last().subrange(0, i) =~= coins.subrange(0, i));
        }
    }
}

/// The index of the registry entry for `a`, if any.
pub(crate) fn find_address(reg: &Vec<Watched>, a: Address) -> (r: Option<usize>)
    ensures
        r matches Some(i) ==> i < reg@.len() && reg@[i as int].address == a,
        r is None ==> forall|k: int| 0 <= k < reg@.len() ==> (#[trigger] reg@[k]).address != a,
{
    let mut i: usize = 0;
    while i < reg.len()
        invariant
            i <= reg@.len(),
            forall|k: int| 0 <= k < i ==> (#[trigger] reg@[k]).address != a,
        decreases reg@.len() - i,
    {
        if reg[i].address == a {
            return Some(i);
        }
        i = i + 1;
    }
    None
}

/// The kind the registry gives `a` is that of its entry for `a`.
pub proof fn lemma_active_kind(reg: Seq<Watched>, a: Address)
    requires
        forall|i: int, j: int| 0 <= i < j < reg.len() ==> #[trigger] reg[i].address != #[trigger] reg[j].address,
    ensures
        forall|i: int| 0 <= i < reg.len() && (#[trigger] reg[i]).address == a ==> active_kind(reg, a) == if reg[i].active {
            Some(reg[i].kind)
        } else {
            None::<AddressKind>
        },
        (forall|i: int| 0 <= i < reg.len() ==> (#[trigger] reg[i]).address != a) ==> active_kind(reg, a) is None,
    decreases reg.len(),
{
    if reg.len() > 0 {
        lemma_active_kind(reg.drop_last(), a);
        assert forall|i: int| 0 <= i < reg.len() && (#[trigger] reg[i]).address == a implies active_kind(reg, a) == if reg[i].active {
            Some(reg[i].kind)
        } else {
            None::<AddressKind>
        } by {
            if i < reg.len() - 1 {
                assert(reg.drop_last()[i] == reg[i]);
            }
        }
        if forall|i: int| 0 <= i < reg.len() ==> (#[trigger] reg[i]).address != a {
            assert(reg.last() == reg[reg.len() - 1]);
            assert forall|i: int| 0 <= i < reg.drop_last().len() implies (#[trigger] reg.drop_last()[i]).address != a by {
                assert(reg.drop_last()[i] == reg[i]);
            }
        }
    }
}

/// Following one more address from height `from` changes nothing below `from`.
proof fn lemma_follows_push(s: Seq<(Address, u64)>, e: (Address, u64))
    ensures
        forall|a: Address, h: int| h < e.1 ==> #[trigger] follows(s.push(e), a, h) == follows(s, a, h),
{
    assert forall|a: Address, h: int| h < e.1 implies #[trigger] follows(s.push(e), a, h) == follows(s, a, h) by {
        if follows(s, a, h) {
            let i = choose|i: int| 0 <= i < s.len() && (#[trigger] s[i]).0 == a && s[i].1 <= h;
            assert(s.push(e)[i] == s[i]);
        }
        if follows(s.push(e), a, h) {
            let i = choose|i: int| 0 <= i < s.push(e).len() && (#[trigger] s.push(e)[i]).0 == a && s.push(e)[i].1 <= h;
            assert(i < s.len());
            assert(s[i] == s.push(e)[i]);
        }
    }
}

/// Following an address from an earlier height changes nothing below it.
proof fn lemma_follows_update(s: Seq<(Address, u64)>, i: int, from: u64)
    requires
        0 <= i < s.len(),
    ensures
        forall|a: Address, h: int| h < from && h < s[i].1 ==> #[trigger] follows(s.update(i, (s[i].0, from)), a, h) == follows(s, a, h),
{
    let t = s.update(i, (s[i].0, from));
    assert forall|a: Address, h: int| h < from && h < s[i].1 implies #[trigger] follows(t, a, h) == follows(s, a, h) by {
        if follows(s, a, h) {
            let j = choose|j: int| 0 <= j < s.len() && (#[trigger] s[j]).0 == a && s[j].1 <= h;
            assert(j != i);
            assert(t[j] == s[j]);
        }
        if follows(t, a, h) {
            let j = choose|j: int| 0 <= j < t.len() && (#[trigger] t[j]).0 == a && t[j].1 <= h;
            assert(j != i);
            assert(s[j] == t[j]);
        }
    }
}

/// The position of the registry entry for `a`, if any.
pub open spec fn slot_of(reg: Seq<Watched>, a: Address) -> Option<int>
    decreases reg.len(),
{
    if reg.len() == 0 {
        None
    } else if reg.last().address == a {
        Some(reg.len() - 1)
    } else {
        slot_of(reg.drop_last(), a)
    }
}

/// In a registry that lists each address once, the entry for `a` is where it stands.
pub proof fn lemma_slot_of(reg: Seq<Watched>, a: Address)
    requires
        forall|i: int, j: int| 0 <= i < j < reg.len() ==> #[trigger] reg[i].address != #[trigger] reg[j].address,
    ensures
        forall|i: int| 0 <= i < reg.len() && (#[trigger] reg[i]).address == a ==> slot_of(reg, a) == Some(i),
        (forall|i: int| 0 <= i < reg.len() ==> (#[trigger] reg[i]).address != a) ==> slot_of(reg, a) is None,
    decreases reg.len(),
{
    if reg.len() > 0 {
        lemma_slot_of(reg.drop_last(), a);
        assert forall|i: int| 0 <= i < reg.len() && (#[trigger] reg[i]).address == a implies slot_of(reg, a) == Some(i) by {
            if i < reg.len() - 1 {
                assert(reg.drop_last()[i] == reg[i]);
            }
        }
        if forall|i: int| 0 <= i < reg.len() ==> (#[trigger] reg[i]).address != a {
            assert(reg.last() == reg[reg.len() - 1]);
            assert forall|i: int| 0 <= i < reg.drop_last().len() implies (#[trigger] reg.drop_last()[i]).address != a by {
                assert(reg.drop_last()[i] == reg[i]);
            }
        }
    }
}

/// A light wallet over a node's best chain.
pub struct Wallet {
    pub(crate) chain: Vec<BlockId>,
    pub(crate) logs: Vec<Vec<Change>>,
    pub(crate) ledger: Ledger,
    pub(crate) registry: Vec<Watched>,
    pub(crate) blocks: Ghost<Seq<Seq<Transaction>>>,
}

/// What queries can see of a wallet.
pub struct WalletView {
    pub tip: BlockId,
    pub height: nat,
    pub coins: Seq<Entry>,
    pub registry: Seq<Watched>,
}

impl Wallet {
    /// The tip, its height, the ledger in ledger order, and the registry.
    pub closed spec fn view(&self) -> WalletView {
        WalletView {
            tip: self.chain@.last(),
            height: (self.chain@.len() - 1) as nat,
            coins: self.ledger.seq(),
            registry: self.registry@,
        }
    }

    /// The block identities the wallet has applied, by height.
    pub closed spec fn chain_view(&self) -> Seq<BlockId> {
        self.chain@
    }

    /// The ledger as a map from coin identity.
    pub closed spec fn coin_map(&self) -> Map<CoinId, Entry> {
        self.ledger.view()
    }

    /// The transactions of each applied block, by height.
    pub closed spec fn block_txs(&self) -> Seq<Seq<Transaction>> {
        self.blocks@
    }

    spec fn top(&self) -> nat {
        (self.chain@.len() - 1) as nat
    }

    spec fn state(&self, h: nat) -> Map<CoinId, Entry> {
        replay(scope_of(self.registry@), self.blocks@, h)
    }

    /// Genesis at height 0; one undo log per applied block, which takes the
    /// ledger of that height back to the one below; the ledger is the replay
    /// of the applied blocks; each address is listed once.
    pub closed spec fn wf(&self) -> bool {
        &&& self.chain@.len() >= 1
        &&& self.chain@.len() <= u64::MAX
        &&& self.chain@[0] == genesis_id()
        &&& self.logs@.len() == self.top()
        &&& self.blocks@.len() == self.chain@.len()
        &&& self.ledger.wf()
        &&& self.ledger.view() == self.state(self.top())
        &&& forall|h: int|
            1 <= h <= self.top() ==> undo(self.state(h as nat), #[trigger] self.logs@[h - 1]@)
                == self.state((h - 1) as nat)
        &&& forall|i: int, j: int|
            0 <= i < j < self.registry@.len() ==> #[trigger] self.registry@[i].address
                != #[trigger] self.registry@[j].address
    }

    /// The wallet's chain and blocks are those the node holds for them.
    pub closed spec fn consistent_with(&self, n: NodeView) -> bool {
        &&& n.blocks.contains_key(self.chain@.last())
        &&& n.blocks[self.chain@.last()].height == self.top()
        &&& self.chain@ == n.chain(self.chain@.last(), self.top())
        &&& forall|j: int| 1 <= j <= self.top() ==> txs_same(#[trigger] self.blocks@[j], n.blocks[self.chain@[j]].txs)
    }

    /// Consistent with the node and at its best block.
    pub open spec fn synced_to(&self, n: NodeView) -> bool {
        self.consistent_with(n) && self.view().tip == n.best
    }

    /// The ledger is the replay of the applied blocks for the registry.
    pub proof fn lemma_ledger(&self)
        requires
            self.wf(),
        ensures
            self.coin_map() == replay(scope_of(self.view().registry), self.block_txs(), self.view().height),
            self.chain_view().len() == self.view().height + 1,
            self.chain_view().last() == self.view().tip,
            self.chain_view()[0] == genesis_id(),
            crate::ledger::sorted(self.view().coins),
            forall|i: int| #![trigger self.view().coins[i]] 0 <= i < self.view().coins.len() ==> self.coin_map().contains_key(self.view().coins[i].id)
                && self.coin_map()[self.view().coins[i].id] == self.view().coins[i],
            forall|id: CoinId| #[trigger] self.coin_map().contains_key(id) ==> exists|i: int|
                0 <= i < self.view().coins.len() && #[trigger] self.view().coins[i].id == id,
    {
        self.ledger.lemma_seq();
    }

    /// A wallet synced to a node holds the node's best chain and, above
    /// genesis, the node's transactions for each of its blocks.
    pub proof fn lemma_synced(&self, n: NodeView)
        requires
            self.wf(),
            n.wf(),
            self.synced_to(n),
        ensures
            self.chain_view() == n.best_chain(),
            self.view().height == n.best_height(),
            self.block_txs().len() == self.chain_view().len(),
            forall|j: int| 1 <= j <= self.view().height ==> txs_same(#[trigger] self.block_txs()[j], n.blocks[self.chain_view()[j]].txs),
    {
    }

    /// The ledger of a wallet synced to a node is the replay of the node's best chain.
    pub proof fn lemma_synced_replay(&self, n: NodeView)
        requires
            self.wf(),
            n.wf(),
            self.synced_to(n),
        ensures
            self.coin_map() == replay(scope_of(self.view().registry), best_chain_txs(n), n.best_height()),
    {
        let h = n.best_height();
        assert forall|k: int| 1 <= k <= h implies #[trigger] txs_same(self.blocks@[k], best_chain_txs(n)[k]) by {}
        lemma_replay_prefix(scope_of(self.registry@), self.blocks@, best_chain_txs(n), h);
    }

    /// A consistent wallet's chain is the node's chain below its tip.
    pub proof fn lemma_consistent_chain(&self, n: NodeView)
        requires
            self.wf(),
            n.wf(),
            self.consistent_with(n),
        ensures
            forall|k: int| 0 <= k < self.chain_view().len() ==> #[trigger] n.blocks.contains_key(self.chain_view()[k]),
            forall|k: int| 1 <= k < self.chain_view().len() ==> txs_same(#[trigger] self.block_txs()[k], n.blocks[self.chain_view()[k]].txs),
    {
        lemma_chain(n, self.chain@.last());
    }

    /// Growing the node keeps a consistent wallet consistent.
    pub proof fn lemma_consistent_extends(&self, old: NodeView, n: NodeView)
        requires
            old.wf(),
            n.extends(old),
            self.consistent_with(old),
        ensures
            self.consistent_with(n),
    {
        lemma_chain_extends(n, old, self.chain@.last(), self.top());
        assert forall|j: int| 1 <= j <= self.top() implies txs_same(#[trigger] self.blocks@[j], n.blocks[self.chain@[j]].txs) by {
            lemma_chain(old, self.chain@.last());
        }
    }

    /// A wallet at genesis that owns each of `addresses`.
    pub fn new(addresses: Vec<Address>) -> (r: Wallet)
        ensures
            r.wf(),
            r.view().tip == genesis_id(),
            r.view().height == 0,
            r.view().coins.len() == 0,
            r.chain_view() == seq![genesis_id()],
            r.view().registry == initial_registry(addresses@),
            any_active(r.view().registry) == (addresses@.len() > 0),
            forall|a: Address| #[trigger] active_kind(r.view().registry, a) == if addresses@.contains(a) {
                Some(AddressKind::Owned)
            } else {
                None::<AddressKind>
            },
            forall|n: NodeView| #[trigger] n.wf() ==> r.consistent_with(n),
    {
        let g = Block::genesis();
        assert(g.transactions@ =~= Seq::<Transaction>::empty());
        let mut chain: Vec<BlockId> = Vec::new();
        chain.push(g.id());
        let mut registry: Vec<Watched> = Vec::new();
        let mut i: usize = 0;
        assert(registry@ =~= initial_registry(addresses@.subrange(0, 0)));
        while i < addresses.len()
            invariant
                i <= addresses@.len(),
                forall|x: int, y: int|
                    0 <= x < y < registry@.len() ==> #[trigger] registry@[x].address != #[trigger] registry@[y].address,
                forall|x: int| 0 <= x < registry@.len() ==> (#[trigger] registry@[x]).kind == AddressKind::Owned
                    && registry@[x].from == 0 && registry@[x].active,
                forall|a: Address| #[trigger] active_kind(registry@, a) == if addresses@.subrange(0, i as int).contains(a) {
                    Some(AddressKind::Owned)
                } else {
                    None::<AddressKind>
                },
                registry@ == initial_registry(addresses@.subrange(0, i as int)),
                (i > 0) == (registry@.len() > 0),
            decreases addresses@.len() - i,
        {
            let a = addresses[i];
            let ghost before = registry@;
            let found = find_address(&registry, a);
            proof {
                lemma_active_kind(before, a);
                assert(addresses@.subrange(0, i + 1).drop_last() =~= addresses@.subrange(0, i as int));
                if found.is_some() {
                    let fi = found.unwrap();
                    assert(before[fi as int].address == a);
                }
            }
            if found.is_none() {
                registry.push(Watched { address: a, kind: AddressKind::Owned, from: 0, active: true });
                proof {
                    assert(registry@.drop_last() == before);
                    assert forall|x: int, y: int| 0 <= x < y < registry@.len() implies #[trigger] registry@[x].address
                        != #[trigger] registry@[y].address by {
                        if y == registry@.len() - 1 {
                            assert(registry@[x] == before[x]);
                        }
                    }
                }
            }
            proof {
                assert(addresses@.subrange(0, i + 1) =~= addresses@.subrange(0, i as int).push(a));
                assert forall|b: Address| #[trigger] active_kind(registry@, b) == if addresses@.subrange(0, i + 1).contains(b) {
                    Some(AddressKind::Owned)
                } else {
                    None::<AddressKind>
                } by {
                    assert(active_kind(before, b) == if addresses@.subrange(0, i as int).contains(b) {
                        Some(AddressKind::Owned)
                    } else {
                        None::<AddressKind>
                    });
                    if addresses@.subrange(0, i as int).contains(b) {
                        let w = choose|w: int| 0 <= w < i && #[trigger] addresses@.subrange(0, i as int)[w] == b;
                        assert(addresses@.subrange(0, i + 1)[w] == b);
                    }
                    if b == a {
                        assert(addresses@.subrange(0, i + 1)[i as int] == a);
                    }
                    if addresses@.subrange(0, i + 1).contains(b) && b != a {
                        let w = choose|w: int| 0 <= w < i + 1 && #[trigger] addresses@.subrange(0, i + 1)[w] == b;
                        assert(addresses@.subrange(0, i as int)[w] == b);
                    }
                    if found.is_none() {
                        assert(registry@.last().address == a);
                        assert(registry@.drop_last() == before);
                    } else {
                        let fi = found.unwrap();
                        assert(before[fi as int].address == a);
                    }
                }
            }
            i = i + 1;
        }
        assert(addresses@.subrange(0, addresses@.len() as int) =~= addresses@);
        if registry.len() > 0 {
            assert(registry@[0].active);
        }
        let ghost genesis_blocks = seq![Seq::<Transaction>::empty()];
        let r = Wallet {
            chain,
            logs: Vec::new(),
            ledger: Ledger::new(),
            registry,
            blocks: Ghost(genesis_blocks),
        };
        assert forall|n: NodeView| #[trigger] n.wf() implies r.consistent_with(n) by {
            assert(r.chain@ =~= n.chain(genesis_id(), 0));
        }
        assert(r.chain@ =~= seq![genesis_id()]);
        r
    }

    /// The height of the wallet's tip.
    pub fn best_height(&self) -> (r: u64)
        requires
            self.wf(),
        ensures
            r == self.view().height,
    {
        (self.chain.len() - 1) as u64
    }

    /// The identity of the wallet's tip.
    pub fn best_hash(&self) -> (r: BlockId)
        requires
            self.wf(),
        ensures
            r == self.view().tip,
    {
        self.chain[self.chain.len() - 1]
    }

    pub(crate) fn kind_of(&self, a: Address) -> (r: Option<AddressKind>)
        ensures
            r == active_kind(self.registry@, a),
            r == active_kind(self.view().registry, a),
    {
        let mut i: usize = self.registry.len();
        assert(self.registry@.subrange(0, i as int) =~= self.registry@);
        while i > 0
            invariant
                i <= self.registry@.len(),
                active_kind(self.registry@, a) == active_kind(self.registry@.subrange(0, i as int), a),
            decreases i,
        {
            let ghost sub = self.registry@.subrange(0, i as int);
            assert(sub.drop_last() =~= self.registry@.subrange(0, i - 1));
            let w = self.registry[i - 1];
            if w.address == a {
                if w.active {
                    return Some(w.kind);
                } else {
                    return None;
                }
            }
            i = i - 1;
        }
        None
    }

    pub(crate) fn has_active(&self) -> (r: bool)
        ensures
            r == any_active(self.registry@),
            r == any_active(self.view().registry),
    {
        let mut i: usize = 0;
        while i < self.registry.len()
            invariant
                i <= self.registry@.len(),
                forall|k: int| 0 <= k < i ==> !(#[trigger] self.registry@[k]).active,
            decreases self.registry@.len() - i,
        {
            if self.registry[i].active {
                return true;
            }
            i = i + 1;
        }
        false
    }

    /// The sum of the values of the unspent coins of `address`.
    pub fn total_assets_of(&self, address: Address) -> (r: Result<u64, WalletError>)
        requires
            self.wf(),
            balance(self.view().coins, address) <= u64::MAX,
        ensures
            r == match query_error(self.view().registry, address) {
                Some(e) => Err(e),
                None => Ok(balance(self.view().coins, address) as u64),
            },
    {
        if !self.has_active() {
            return Err(WalletError::NoOwnedAddresses);
        }
        if self.kind_of(address).is_none() {
            return Err(WalletError::ForeignAddress);
        }
        let ghost coins = self.ledger.seq();
        let mut sum: u64 = 0;
        let mut i: usize = 0;
        while i < self.ledger.len()
            invariant
                self.wf(),
                coins == self.ledger.seq(),
                i <= coins.len(),
                sum == balance(coins.subrange(0, i as int), address),
                balance(coins, address) <= u64::MAX,
            decreases coins.len() - i,
        {
            let e = self.ledger.at(i);
            assert(coins.subrange(0, i + 1).drop_last() =~= coins.subrange(0, i as int));
            proof {
                lemma_balance_prefix(coins, address, i + 1);
            }
            if e.coin.owner == address {
                sum = sum + e.coin.value;
            }
            i = i + 1;
        }
        assert(coins.subrange(0, coins.len() as int) =~= coins);
        Ok(sum)
    }

    /// The identities and values of the unspent coins of `address`, in ledger order.
    pub fn all_coins_of(&self, address: Address) -> (r: Result<Vec<(CoinId, u64)>, WalletError>)
        requires
            self.wf(),
        ensures
            match query_error(self.view().registry, address) {
                Some(e) => r == Err::<Vec<(CoinId, u64)>, WalletError>(e),
                None => r matches Ok(v) && v@ == listing(self.view().coins, address),
            },
    {
        if !self.has_active() {
            return Err(WalletError::NoOwnedAddresses);
        }
        if self.kind_of(address).is_none() {
            return Err(WalletError::ForeignAddress);
        }
        let ghost coins = self.ledger.seq();
        let mut out: Vec<(CoinId, u64)> = Vec::new();
        let mut i: usize = 0;
        while i < self.ledger.len()
            invariant
                coins == self.ledger.seq(),
                i <= coins.len(),
                out@ == listing(coins.subrange(0, i as int), address),
            decreases coins.len() - i,
        {
            let e = self.ledger.at(i);
            assert(coins.subrange(0, i + 1).drop_last() =~= coins.subrange(0, i as int));
            if e.coin.owner == address {
                out.push((e.id, e.coin.value));
            }
            i = i + 1;
        }
        assert(coins.subrange(0, coins.len() as int) =~= coins);
        Ok(out)
    }

    /// The sum of the values of the unspent coins of every address that
    /// queries see, owned or watched.
    pub fn net_worth(&self) -> (r: u64)
        requires
            self.wf(),
            worth(self.view().coins, self.view().registry) <= u64::MAX,
        ensures
            r == worth(self.view().coins, self.view().registry),
    {
        let ghost coins = self.ledger.seq();
        let ghost reg = self.registry@;
        let mut sum: u64 = 0;
        let mut i: usize = 0;
        while i < self.ledger.len()
            invariant
                coins == self.ledger.seq(),
                reg == self.registry@,
                i <= coins.len(),
                sum == worth(coins.subrange(0, i as int), reg),
                worth(coins, reg) <= u64::MAX,
            decreases coins.len() - i,
        {
            let e = self.ledger.at(i);
            assert(coins.subrange(0, i + 1).drop_last() =~= coins.subrange(0, i as int));
            proof {
                lemma_worth_prefix(coins, reg, i + 1);
            }
            if self.kind_of(e.coin.owner).is_some() {
                sum = sum + e.coin.value;
            }
            i = i + 1;
        }
        assert(coins.subrange(0, coins.len() as int) =~= coins);
        sum
    }

    /// The coin of this identity, if it is unspent and its owner is visible to queries.
    pub fn coin_details(&self, coin_id: &CoinId) -> (r: Result<Coin, WalletError>)
        requires
            self.wf(),
        ensures
            r == if self.coin_map().contains_key(*coin_id) && active_kind(
                self.view().registry,
                self.coin_map()[*coin_id].coin.owner,
            ) is Some {
                Ok(self.coin_map()[*coin_id].coin)
            } else {
                Err(WalletError::UnknownCoin)
            },
    {
        match self.ledger.get(*coin_id) {
            Some(e) => {
                if self.kind_of(e.coin.owner).is_some() {
                    Ok(e.coin)
                } else {
                    Err(WalletError::UnknownCoin)
                }
            },
            None => Err(WalletError::UnknownCoin),
        }
    }

    /// The ledger entry of this identity, if any.
    pub(crate) fn lookup(&self, id: CoinId) -> (r: Option<Entry>)
        requires
            self.wf(),
        ensures
            r == (if self.coin_map().contains_key(id) { Some(self.coin_map()[id]) } else { None::<Entry> }),
    {
        self.ledger.get(id)
    }

    pub(crate) fn coin_count(&self) -> (r: usize)
        ensures
            r == self.view().coins.len(),
    {
        self.ledger.len()
    }

    pub(crate) fn coin_at(&self, i: usize) -> (r: Entry)
        requires
            i < self.view().coins.len(),
        ensures
            r == self.view().coins[i as int],
    {
        self.ledger.at(i)
    }

    pub(crate) fn registry_len(&self) -> (r: usize)
        ensures
            r == self.view().registry.len(),
    {
        self.registry.len()
    }

    pub(crate) fn registry_at(&self, i: usize) -> (r: Watched)
        requires
            i < self.view().registry.len(),
        ensures
            r == self.view().registry[i as int],
    {
        self.registry[i]
    }

    /// Puts `w` in the registry, at `slot` or at the end, and catches the
    /// ledger up for it from height `w.from`.
    pub(crate) fn rescan(&mut self, node: &mut MockNode, w: Watched, slot: Option<usize>)
        requires
            old(self).wf(),
            old(node).wf(),
            old(node).queries() + old(self).view().height <= u64::MAX,
            old(self).consistent_with(old(node).view()),
            match slot {
                Some(i) => i < old(self).view().registry.len() && old(self).view().registry[i as int].address == w.address,
                None => forall|k: int| 0 <= k < old(self).view().registry.len() ==> (#[trigger] old(self).view().registry[k]).address != w.address,
            },
        ensures
            final(node).wf(),
            final(node).view() == old(node).view(),
            final(node).queries() == old(node).queries() + rescan_cost(
                old(self).view().height,
                match slot {
                    Some(i) => if old(self).view().registry[i as int].from < w.from {
                        old(self).view().registry[i as int].from
                    } else {
                        w.from
                    },
                    None => w.from,
                } as nat,
            ),
            final(self).wf(),
            final(self).consistent_with(old(node).view()),
            final(self).view().tip == old(self).view().tip,
            final(self).view().height == old(self).view().height,
            final(self).view().registry == match slot {
                Some(i) => old(self).view().registry.update(i as int, w),
                None => old(self).view().registry.push(w),
            },
    {
        let ghost nv = node.view();
        let ghost old_chain = self.chain@;
        let ghost old_blocks = self.blocks@;
        let top: usize = self.chain.len() - 1;
        let lo: u64 = match slot {
            Some(i) => if self.registry[i].from < w.from { self.registry[i].from } else { w.from },
            None => w.from,
        };
        let target: u64 = if lo == 0 { 0 } else { lo - 1 };
        let fork: u64 = if target < top as u64 { target } else { top as u64 };
        let mut fetched: Vec<(BlockId, Block)> = Vec::new();
        let mut h: usize = top;
        while h as u64 > target
            invariant
                h >= fork,
                fork <= top,
                fork == (if target < top { target } else { top as u64 }),
                self.wf(),
                node.wf(),
                nv == node.view(),
                nv == old(node).view(),
                node.queries() == old(node).queries() + fetched@.len(),
                old(node).queries() + top <= u64::MAX,
                self.consistent_with(nv),
                self.chain@ == old_chain,
                self.blocks@ == old_blocks,
                top == self.chain@.len() - 1,
                h <= top,
                fetched@.len() == top - h,
                forall|k: int|
                    #![trigger fetched@[k]]
                    0 <= k < fetched@.len() ==> fetched@[k].0 == self.chain@[top - k]
                        && txs_same(fetched@[k].1.transactions@, nv.blocks[self.chain@[top - k]].txs),
            decreases h,
        {
            proof {
                node.lemma_wf();
                self.lemma_consistent_chain(nv);
            }
            let id = self.chain[h];
            assert(self.chain_view()[h as int] == id);
            let blk = node.get_block(id);
            fetched.push((id, blk));
            h = h - 1;
        }
        let ghost rewound_from = self.chain@;
        self.rewind(fork);
        let ghost rew_chain = self.chain@;
        let ghost rew_blocks = self.blocks@;
        let ghost s_old = scope_of(self.registry@);
        match slot {
            Some(i) => {
                proof {
                    assert(scope_of(self.registry@)[i as int] == (self.registry@[i as int].address, self.registry@[i as int].from));
                    lemma_follows_update(s_old, i as int, w.from);
                    assert(scope_of(self.registry@.update(i as int, w)) =~= s_old.update(i as int, (s_old[i as int].0, w.from)));
                }
                self.registry[i] = w;
            },
            None => {
                proof {
                    lemma_follows_push(s_old, (w.address, w.from));
                    assert(scope_of(self.registry@.push(w)) =~= s_old.push((w.address, w.from)));
                }
                self.registry.push(w);
            },
        }
        proof {
            let s_new = scope_of(self.registry@);
            assert forall|k: nat| k <= fork implies #[trigger] replay(s_new, self.blocks@, k) == replay(s_old, self.blocks@, k) by {
                lemma_replay_agree(s_new, s_old, self.blocks@, k);
            }
            assert forall|x: int, y: int| 0 <= x < y < self.registry@.len() implies #[trigger] self.registry@[x].address
                != #[trigger] self.registry@[y].address by {
                match slot {
                    Some(i) => {},
                    None => {
                        if y == self.registry@.len() - 1 {
                            assert(self.registry@[x] == old(self).registry@[x]);
                        }
                    },
                }
            }
        }
        self.advance(&fetched);
        proof {
            assert forall|x: int| 0 <= x < old_chain.len() implies #[trigger] self.chain@[x] == old_chain[x]
                && (x >= 1 ==> txs_same(self.blocks@[x], nv.blocks[old_chain[x]].txs)) by {
                if x > fork {
                    let j = top - x;
                    assert(rew_chain.len() == fork + 1);
                    assert(fetched@.len() == top - fork);
                    assert(x == rew_chain.len() + fetched@.len() - 1 - j);
                    assert(self.chain@[x] == fetched@[j].0);
                    assert(self.blocks@[x] == fetched@[j].1.transactions@);
                    assert(fetched@[j].0 == old_chain[top - j]);
                } else {
                    assert(rew_chain.len() == fork + 1);
                    assert(self.chain@[x] == rew_chain[x]);
                    assert(self.blocks@[x] == rew_blocks[x]);
                    assert(rew_chain[x] == old_chain[x]);
                    assert(rew_blocks[x] == old_blocks[x]);
                }
            }
            assert(self.chain@ =~= old_chain);
        }
    }

    /// Rewrites registry entry `i` keeping its address and its first height.
    pub(crate) fn update_entry(&mut self, i: usize, w: Watched)
        requires
            old(self).wf(),
            i < old(self).view().registry.len(),
            w.address == old(self).view().registry[i as int].address,
            w.from == old(self).view().registry[i as int].from,
        ensures
            final(self).wf(),
            final(self).view() == (WalletView { registry: old(self).view().registry.update(i as int, w), ..old(self).view() }),
            final(self).coin_map() == old(self).coin_map(),
            forall|n: NodeView| old(self).consistent_with(n) ==> #[trigger] final(self).consistent_with(n),
    {
        let ghost s0 = scope_of(self.registry@);
        self.registry[i] = w;
        assert(scope_of(self.registry@) =~= s0);
        assert forall|x: int, y: int| 0 <= x < y < self.registry@.len() implies #[trigger] self.registry@[x].address
            != #[trigger] self.registry@[y].address by {
            assert(self.registry@[x].address == old(self).registry@[x].address);
            assert(self.registry@[y].address == old(self).registry@[y].address);
        }
    }

    pub(crate) fn registry_at_index(&self, a: Address) -> (r: Option<usize>)
        ensures
            r matches Some(i) ==> i < self.view().registry.len() && self.view().registry[i as int].address == a,
            r is None ==> forall|k: int| 0 <= k < self.view().registry.len() ==> (#[trigger] self.view().registry[k]).address != a,
    {
        find_address(&self.registry, a)
    }

    /// Each address is listed once in the registry.
    pub proof fn lemma_registry_unique(&self)
        requires
            self.wf(),
        ensures
            forall|i: int, j: int| 0 <= i < j < self.view().registry.len() ==> #[trigger] self.view().registry[i].address
                != #[trigger] self.view().registry[j].address,
    {
    }

    fn knows(&self, h: u64, id: BlockId) -> (r: bool)
        requires
            self.wf(),
        ensures
            r == (h < self.chain@.len() && self.chain@[h as int] == id),
    {
        h < self.chain.len() as u64 && self.chain[h as usize] == id
    }

    /// Walks down from the node's best block, fetching each block the wallet
    /// does not hold at its height, and returns them, highest first, with the
    /// height of the fork.
    fn walk(&self, node: &mut MockNode, best: BlockId, height: u64) -> (r: (Vec<(BlockId, Block)>, u64))
        requires
            self.wf(),
            old(node).wf(),
            old(node).queries() + height <= u64::MAX,
            best == old(node).view().best,
            height == old(node).view().best_height(),
        ensures
            final(node).wf(),
            final(node).view() == old(node).view(),
            final(node).queries() == old(node).queries() + r.0@.len(),
            r.1 <= height,
            r.1 == fork_height(self.chain@, old(node).view().best_chain(), height as nat),
            r.1 < self.chain@.len(),
            self.chain@[r.1 as int] == old(node).view().best_chain()[r.1 as int],
            r.0@.len() == height - r.1,
            forall|k: int|
                #![trigger r.0@[k]]
                0 <= k < r.0@.len() ==> {
                    let id = old(node).view().best_chain()[height - k];
                    &&& r.0@[k].0 == id
                    &&& r.0@[k].1.parent == old(node).view().blocks[id].parent
                    &&& txs_same(r.0@[k].1.transactions@, old(node).view().blocks[id].txs)
                },
    {
        let ghost nv = node.view();
        let ghost nc = nv.best_chain();
        proof {
            node.lemma_wf();
            lemma_chain(nv, nv.best);
        }
        let mut fetched: Vec<(BlockId, Block)> = Vec::new();
        let mut cur = best;
        let mut h: u64 = height;
        while !self.knows(h, cur)
            invariant
                self.wf(),
                node.wf(),
                nv == node.view(),
                nv == old(node).view(),
                node.queries() == old(node).queries() + fetched@.len(),
                old(node).queries() + height <= u64::MAX,
                nc == nv.best_chain(),
                height == nv.best_height(),
                nc.len() == height + 1,
                nc[0] == genesis_id(),
                forall|k: int| 0 <= k < nc.len() ==> #[trigger] nv.blocks.contains_key(nc[k]) && nv.blocks[nc[k]].height == k,
                forall|k: int| 1 <= k < nc.len() ==> nv.blocks[#[trigger] nc[k]].parent == nc[k - 1],
                h <= height,
                cur == nc[h as int],
                fetched@.len() == height - h,
                fork_height(self.chain@, nc, height as nat) == fork_height(self.chain@, nc, h as nat),
                forall|k: int|
                    #![trigger fetched@[k]]
                    0 <= k < fetched@.len() ==> {
                        let id = nc[height - k];
                        &&& fetched@[k].0 == id
                        &&& fetched@[k].1.parent == nv.blocks[id].parent
                        &&& txs_same(fetched@[k].1.transactions@, nv.blocks[id].txs)
                    },
            decreases h,
        {
            if h == 0 {
                assert(self.chain@[0] == nc[0]);
            }
            let blk = node.get_block(cur);
            let parent = blk.parent;
            fetched.push((cur, blk));
            cur = parent;
            h = h - 1;
        }
        (fetched, h)
    }

    /// Takes back the blocks above height `fork`.
    fn rewind(&mut self, fork: u64)
        requires
            old(self).wf(),
            fork < old(self).chain@.len(),
        ensures
            final(self).wf(),
            final(self).registry@ == old(self).registry@,
            final(self).chain@ == old(self).chain@.subrange(0, fork + 1),
            final(self).blocks@ == old(self).blocks@.subrange(0, fork + 1),
    {
        let mut top: usize = self.chain.len() - 1;
        assert(self.chain@ =~= old(self).chain@.subrange(0, self.chain@.len() as int));
        assert(self.blocks@ =~= old(self).blocks@.subrange(0, self.chain@.len() as int));
        while top > fork as usize
            invariant
                self.wf(),
                top == self.chain@.len() - 1,
                fork <= top,
                self.registry@ == old(self).registry@,
                self.chain@.len() <= old(self).chain@.len(),
                old(self).blocks@.len() == old(self).chain@.len(),
                self.chain@ == old(self).chain@.subrange(0, self.chain@.len() as int),
                self.blocks@ == old(self).blocks@.subrange(0, self.chain@.len() as int),
            decreases top,
        {
            let ghost c0 = self.chain@;
            let ghost l0 = self.logs@;
            let ghost b = self.blocks@;
            let ghost st = self.state(top as nat);
            let ghost below = self.state((top - 1) as nat);
            let log = self.logs.pop().unwrap();
            assert(log == l0[top - 1]);
            assert(undo(st, log@) == below);
            revert(&mut self.ledger, log);
            self.chain.pop();
            self.blocks = Ghost(self.blocks@.drop_last());
            top = top - 1;
            proof {
                assert(self.chain@ == c0.drop_last());
                assert(self.logs@ == l0.drop_last());
                assert forall|k: nat| k <= top implies #[trigger] replay(scope_of(self.registry@), self.blocks@, k) == replay(scope_of(self.registry@), b, k) by {
                    lemma_replay_prefix(scope_of(self.registry@), self.blocks@, b, k);
                }
                assert(self.ledger.view() == self.state(top as nat));
                assert forall|h: int| 1 <= h <= self.top() implies undo(self.state(h as nat), #[trigger] self.logs@[h - 1]@)
                    == self.state((h - 1) as nat) by {
                    assert(self.logs@[h - 1] == l0[h - 1]);
                    assert(undo(replay(scope_of(self.registry@), b, h as nat), l0[h - 1]@) == replay(scope_of(self.registry@), b, (h - 1) as nat));
                }
                assert(self.chain@ =~= old(self).chain@.subrange(0, self.chain@.len() as int));
                assert(self.blocks@ =~= old(self).blocks@.subrange(0, self.chain@.len() as int));
            }
        }
    }

    /// Applies the fetched blocks, which come highest first, on top of the chain.
    #[verifier::rlimit(50)]
    fn advance(&mut self, fetched: &Vec<(BlockId, Block)>)
        requires
            old(self).wf(),
            old(self).chain@.len() + fetched@.len() <= u64::MAX,
        ensures
            final(self).wf(),
            final(self).registry@ == old(self).registry@,
            final(self).chain@.len() == old(self).chain@.len() + fetched@.len(),
            forall|j: int| 0 <= j < old(self).chain@.len() ==> #[trigger] final(self).chain@[j] == old(self).chain@[j]
                && final(self).blocks@[j] == old(self).blocks@[j],
            forall|j: int|
                #![trigger fetched@[j]]
                0 <= j < fetched@.len() ==> {
                    let at = old(self).chain@.len() + fetched@.len() - 1 - j;
                    &&& final(self).chain@[at] == fetched@[j].0
                    &&& final(self).blocks@[at] == fetched@[j].1.transactions@
                },
    {
        let mut k: usize = fetched.len();
        assert(self.chain@.subrange(0, old(self).chain@.len() as int) =~= old(self).chain@);
        assert(self.blocks@.subrange(0, old(self).chain@.len() as int) =~= old(self).blocks@);
        while k > 0
            invariant
                self.wf(),
                self.registry@ == old(self).registry@,
                k <= fetched@.len(),
                old(self).chain@.len() + fetched@.len() <= u64::MAX,
                old(self).blocks@.len() == old(self).chain@.len(),
                self.chain@.len() == old(self).chain@.len() + fetched@.len() - k,
                self.chain@.subrange(0, old(self).chain@.len() as int) == old(self).chain@,
                self.blocks@.subrange(0, old(self).chain@.len() as int) == old(self).blocks@,
                forall|j: int|
                    #![trigger fetched@[j]]
                    k <= j < fetched@.len() ==> {
                        let at = old(self).chain@.len() + fetched@.len() - 1 - j;
                        &&& self.chain@[at] == fetched@[j].0
                        &&& self.blocks@[at] == fetched@[j].1.transactions@
                    },
            decreases k,
        {
            let id = fetched[k - 1].0;
            let blk = &fetched[k - 1].1;
            let hh: u64 = self.chain.len() as u64;
            let mut log: Vec<Change> = Vec::new();
            let ghost b = self.blocks@;
            let ghost c0 = self.chain@;
            let ghost l0 = self.logs@;
            apply_block(&mut self.ledger, &mut log, &blk.transactions, &self.registry, hh);
            self.chain.push(id);
            self.logs.push(log);
            self.blocks = Ghost(self.blocks@.push(blk.transactions@));
            k = k - 1;
            proof {
                assert forall|j: nat| j < self.chain@.len() - 1 implies #[trigger] replay(scope_of(self.registry@), self.blocks@, j) == replay(scope_of(self.registry@), b, j) by {
                    lemma_replay_prefix(scope_of(self.registry@), self.blocks@, b, j);
                }
                assert(self.blocks@[hh as int] == blk.transactions@);
                assert(undo(self.ledger.view(), log@) == undo(replay(scope_of(self.registry@), b, (hh - 1) as nat), Seq::<Change>::empty()));
                assert(replay(scope_of(self.registry@), self.blocks@, hh as nat) == apply_txs(replay(scope_of(self.registry@), self.blocks@, (hh - 1) as nat), self.blocks@[hh as int], scope_of(self.registry@), hh as int));
                assert(replay(scope_of(self.registry@), self.blocks@, (hh - 1) as nat) == replay(scope_of(self.registry@), b, (hh - 1) as nat));
                assert(self.ledger.view() == self.state(hh as nat));
                assert forall|h: int| 1 <= h <= self.top() implies undo(self.state(h as nat), #[trigger] self.logs@[h - 1]@)
                    == self.state((h - 1) as nat) by {
                    if h < hh {
                        assert(self.logs@[h - 1] == l0[h - 1]);
                        assert(undo(replay(scope_of(self.registry@), b, h as nat), l0[h - 1]@) == replay(scope_of(self.registry@), b, (h - 1) as nat));
                    } else {
                        assert(self.logs@[h - 1] == log);
                    }
                }
                assert(self.chain@.subrange(0, old(self).chain@.len() as int) =~= c0.subrange(0, old(self).chain@.len() as int));
                assert(self.blocks@.subrange(0, old(self).chain@.len() as int) =~= b.subrange(0, old(self).chain@.len() as int));
                assert forall|j: int| #![trigger fetched@[j]] k <= j < fetched@.len() implies {
                        let at = old(self).chain@.len() + fetched@.len() - 1 - j;
                        &&& self.chain@[at] == fetched@[j].0
                        &&& self.blocks@[at] == fetched@[j].1.transactions@
                    } by {
                    let at = old(self).chain@.len() + fetched@.len() - 1 - j;
                    if j > k {
                        assert(self.chain@[at] == c0[at]);
                        assert(self.blocks@[at] == b[at]);
                    }
                }
            }
        }
        assert forall|j: int| 0 <= j < old(self).chain@.len() implies #[trigger] self.chain@[j] == old(self).chain@[j]
            && self.blocks@[j] == old(self).blocks@[j] by {
            assert(self.chain@.subrange(0, old(self).chain@.len() as int)[j] == self.chain@[j]);
            assert(self.blocks@.subrange(0, old(self).chain@.len() as int)[j] == self.blocks@[j]);
        }
    }

    /// Brings the wallet to the node's best chain: finds the fork, takes back
    /// the blocks above it, and applies the node's blocks above it. Returns
    /// the number of node queries made.
    #[verifier::rlimit(100)]
    pub fn sync(&mut self, node: &mut MockNode) -> (queries: u64)
        requires
            old(self).wf(),
            old(node).wf(),
            old(node).queries() + old(node).view().best_height() + 2 <= u64::MAX,
        ensures
            final(node).wf(),
            final(node).view() == old(node).view(),
            final(node).queries() == old(node).queries() + queries,
            final(self).wf(),
            final(self).view().registry == old(self).view().registry,
            final(self).view().tip == old(node).view().best,
            old(self).view().tip != old(node).view().best ==> final(self).view().height == old(node).view().best_height(),
            queries == sync_cost(old(self).chain_view(), old(node).view()),
            old(self).view().tip == old(node).view().best ==> queries == 1,
            old(self).view().tip == old(node).view().best ==> final(self).view() == old(self).view(),
            old(self).consistent_with(old(node).view()) ==> final(self).synced_to(old(node).view()),
            old(self).consistent_with(old(node).view()) ==> final(self).coin_map() == replay(
                scope_of(final(self).view().registry),
                best_chain_txs(old(node).view()),
                old(node).view().best_height(),
            ),
    {
        let best = node.best_block_id();
        if best == self.chain[self.chain.len() - 1] {
            proof {
                node.lemma_wf();
                if self.consistent_with(node.view()) {
                    self.lemma_synced_replay(node.view());
                }
            }
            return 1;
        }
        let height = node.best_height();
        let ghost nv = node.view();
        let ghost nc = nv.best_chain();
        let ghost was_consistent = self.consistent_with(nv);
        proof {
            node.lemma_wf();
            lemma_chain(nv, nv.best);
        }
        let (fetched, fork) = self.walk(node, best, height);
        proof {
            if was_consistent {
                lemma_chain(nv, self.chain@.last());
                lemma_chain_prefix(nv, self.chain@.last(), fork as nat);
                lemma_chain_prefix(nv, nv.best, fork as nat);
                assert(self.chain@ =~= self.chain@.subrange(0, self.chain@.len() as int));
                assert(self.chain@.subrange(0, fork + 1) == nc.subrange(0, fork + 1));
            }
        }
        let ghost mid_blocks = self.blocks@;
        let ghost mid_chain = self.chain@;
        self.rewind(fork);
        self.advance(&fetched);
        proof {
            assert(self.chain@.len() == height + 1);
            if fetched@.len() > 0 {
                assert(self.chain@.last() == fetched@[0].0);
            } else {
                assert(self.chain@.last() == mid_chain[fork as int]);
            }
            if was_consistent {
                assert forall|j: int| 0 <= j < self.chain@.len() implies #[trigger] self.chain@[j] == nc[j] by {
                    if j > fork {
                        let f = height - j;
                        assert(fetched@[f].0 == nc[height - f]);
                    } else {
                        assert(self.chain@[j] == mid_chain.subrange(0, fork + 1)[j]);
                        assert(nc.subrange(0, fork + 1)[j] == nc[j]);
                    }
                }
                assert(self.chain@ =~= nc);
                assert forall|j: int| 1 <= j <= self.top() implies txs_same(#[trigger] self.blocks@[j], nv.blocks[self.chain@[j]].txs) by {
                    if j > fork {
                        let f = height - j;
                        assert(txs_same(fetched@[f].1.transactions@, nv.blocks[nc[height - f]].txs));
                    } else {
                        assert(self.blocks@[j] == mid_blocks.subrange(0, fork + 1)[j]);
                        assert(self.chain@[j] == mid_chain[j]);
                    }
                }
            }
        }
        proof {
            if was_consistent {
                self.lemma_synced_replay(nv);
            }
        }
        2 + (height - fork)
    }
}

} // verus!
