//! An in-memory node: it holds blocks by identity, knows its best block, and
//! counts the queries it answers.

use vstd::prelude::*;
use crate::types::{Block, BlockId, Transaction};
use crate::encoding::{block_id, block_id_of, genesis_id, genesis_parent};
use crate::ledger::{tx_same, txs_same};

verus! {

/// What the node knows of one block.
pub struct BlockInfo {
    pub parent: BlockId,
    pub txs: Seq<Transaction>,
    pub height: nat,
}

/// The node as a map from block identity to block, and its best block.
pub struct NodeView {
    pub blocks: Map<BlockId, BlockInfo>,
    pub best: BlockId,
}

impl NodeView {
    /// Genesis is present at height 0 with no transactions; every other
    /// block sits one above a present parent; the best block is present.
    pub open spec fn wf(self) -> bool {
        &&& self.blocks.contains_key(genesis_id())
        &&& self.blocks[genesis_id()].height == 0
        &&& self.blocks[genesis_id()].txs.len() == 0
        &&& self.blocks.contains_key(self.best)
        &&& forall|id: BlockId| #[trigger] self.blocks.contains_key(id) ==> self.blocks[id].height + 1 < u64::MAX
        &&& forall|id: BlockId|
            #![trigger self.blocks[id]]
            self.blocks.contains_key(id) && id != genesis_id() ==> {
                &&& self.blocks[id].height >= 1
                &&& self.blocks.contains_key(self.blocks[id].parent)
                &&& self.blocks[self.blocks[id].parent].height + 1 == self.blocks[id].height
            }
    }

    /// The identities from genesis up to `id`, which stands at height `h`.
    pub open spec fn chain(self, id: BlockId, h: nat) -> Seq<BlockId>
        decreases h,
    {
        if h == 0 {
            seq![id]
        } else {
            self.chain(self.blocks[id].parent, (h - 1) as nat).push(id)
        }
    }

    pub open spec fn best_height(self) -> nat {
        self.blocks[self.best].height
    }

    /// The best chain, indexed by height.
    pub open spec fn best_chain(self) -> Seq<BlockId> {
        self.chain(self.best, self.best_height())
    }

    /// Every block of `old` is here, unchanged.
    pub open spec fn extends(self, old: NodeView) -> bool {
        forall|id: BlockId| #[trigger]
            old.blocks.contains_key(id) ==> self.blocks.contains_key(id) && self.blocks[id]
                == old.blocks[id]
    }
}

/// The chain below a present block runs down to genesis, one height per step.
pub proof fn lemma_chain(n: NodeView, id: BlockId)
    requires
        n.wf(),
        n.blocks.contains_key(id),
    ensures
        ({
            let c = n.chain(id, n.blocks[id].height);
            &&& c.len() == n.blocks[id].height + 1
            &&& c[0] == genesis_id()
            &&& c.last() == id
            &&& forall|k: int| 0 <= k < c.len() ==> #[trigger] n.blocks.contains_key(c[k])
                && n.blocks[c[k]].height == k
            &&& forall|k: int| 1 <= k < c.len() ==> n.blocks[#[trigger] c[k]].parent == c[k - 1]
        }),
    decreases n.blocks[id].height,
{
    let h = n.blocks[id].height;
    if h == 0 {
        if id != genesis_id() {
            assert(n.blocks[id].height >= 1);
        }
    } else {
        if id == genesis_id() {
            assert(false);
        }
        let p = n.blocks[id].parent;
        lemma_chain(n, p);
        assert(n.blocks[p].height == h - 1);
        let c = n.chain(id, h);
        let cp = n.chain(p, (h - 1) as nat);
        assert(c == cp.push(id));
        assert forall|k: int| 0 <= k < c.len() implies #[trigger] n.blocks.contains_key(c[k])
            && n.blocks[c[k]].height == k by {
            if k < c.len() - 1 {
                assert(c[k] == cp[k]);
            }
        }
        assert forall|k: int| 1 <= k < c.len() implies n.blocks[#[trigger] c[k]].parent == c[k
            - 1] by {
            if k < c.len() - 1 {
                assert(c[k] == cp[k]);
                assert(c[k - 1] == cp[k - 1]);
            }
        }
    }
}

/// The first `k + 1` blocks of a chain are the chain below its block at height `k`.
pub proof fn lemma_chain_prefix(n: NodeView, id: BlockId, k: nat)
    requires
        n.wf(),
        n.blocks.contains_key(id),
        k <= n.blocks[id].height,
    ensures
        n.chain(id, n.blocks[id].height).subrange(0, k as int + 1) == n.chain(
            n.chain(id, n.blocks[id].height)[k as int],
            k,
        ),
    decreases n.blocks[id].height,
{
    let h = n.blocks[id].height;
    lemma_chain(n, id);
    let c = n.chain(id, h);
    if k == h {
        assert(c.subrange(0, k as int + 1) =~= c);
    } else {
        if id == genesis_id() {
            assert(false);
        }
        let p = n.blocks[id].parent;
        lemma_chain(n, p);
        lemma_chain_prefix(n, p, k);
        let cp = n.chain(p, (h - 1) as nat);
        assert(c == cp.push(id));
        assert(c.subrange(0, k as int + 1) =~= cp.subrange(0, k as int + 1));
        assert(c[k as int] == cp[k as int]);
    }
}

/// Growing a node keeps the chain below each of its old blocks.
pub proof fn lemma_chain_extends(n: NodeView, old: NodeView, id: BlockId, h: nat)
    requires
        old.wf(),
        n.extends(old),
        old.blocks.contains_key(id),
        h == old.blocks[id].height,
    ensures
        n.chain(id, h) == old.chain(id, h),
    decreases h,
{
    if h > 0 {
        if id == genesis_id() {
            assert(false);
        }
        lemma_chain_extends(n, old, old.blocks[id].parent, (h - 1) as nat);
    }
}

struct Stored {
    id: BlockId,
    block: Block,
    height: u64,
}

/// A node for driving a wallet: blocks are added by hand, and one of them is
/// the best block.
pub struct MockNode {
    stored: Vec<Stored>,
    best: usize,
    known: Ghost<Map<BlockId, BlockInfo>>,
    queries: u64,
}

impl MockNode {
    pub closed spec fn view(&self) -> NodeView {
        NodeView { blocks: self.known@, best: self.stored@[self.best as int].id }
    }

    /// The number of queries answered so far.
    pub closed spec fn queries(&self) -> nat {
        self.queries as nat
    }

    /// The stored blocks are exactly the known map, with distinct identities.
    pub closed spec fn wf(&self) -> bool {
        &&& self.view().wf()
        &&& self.best < self.stored@.len()
        &&& forall|i: int, j: int|
            0 <= i < j < self.stored@.len() ==> #[trigger] self.stored@[i].id
                != #[trigger] self.stored@[j].id
        &&& forall|i: int|
            #![trigger self.stored@[i]]
            0 <= i < self.stored@.len() ==> {
                &&& self.known@.contains_key(self.stored@[i].id)
                &&& self.known@[self.stored@[i].id] == (BlockInfo {
                    parent: self.stored@[i].block.parent,
                    txs: self.stored@[i].block.transactions@,
                    height: self.stored@[i].height as nat,
                })
            }
        &&& forall|id: BlockId|
            #[trigger] self.known@.contains_key(id) ==> exists|i: int|
                0 <= i < self.stored@.len() && #[trigger] self.stored@[i].id == id
    }

    pub proof fn lemma_wf(&self)
        requires
            self.wf(),
        ensures
            self.view().wf(),
    {
    }

    /// A node that holds genesis alone.
    pub fn new() -> (r: MockNode)
        ensures
            r.wf(),
            r.view().best == genesis_id(),
            r.view().blocks.dom() == set![genesis_id()],
            r.queries() == 0,
    {
        let g = Block::genesis();
        assert(g.transactions@ =~= Seq::<Transaction>::empty());
        let id = g.id();
        let ghost info = BlockInfo { parent: genesis_parent(), txs: seq![], height: 0 };
        let mut stored: Vec<Stored> = Vec::new();
        stored.push(Stored { id, block: g, height: 0 });
        let r = MockNode {
            stored,
            best: 0,
            known: Ghost(Map::empty().insert(id, info)),
            queries: 0,
        };
        assert(r.view().blocks[genesis_id()].txs =~= seq![]);
        assert(r.stored@[0].id == id);
        assert(r.view().blocks.dom() =~= set![genesis_id()]);
        r
    }

    fn find(&self, id: BlockId) -> (r: Option<usize>)
        requires
            self.wf(),
        ensures
            r matches Some(i) ==> i < self.stored@.len() && self.stored@[i as int].id == id,
            r is None ==> !self.view().blocks.contains_key(id),
    {
        let mut i: usize = 0;
        while i < self.stored.len()
            invariant
                i <= self.stored@.len(),
                forall|k: int| 0 <= k < i ==> self.stored@[k].id != id,
            decreases self.stored@.len() - i,
        {
            if self.stored[i].id == id {
                return Some(i);
            }
            i = i + 1;
        }
        None
    }

    /// Adds the block with this parent and these transactions, unless a block
    /// of that identity is already present, and returns its identity.
    pub fn add_block(&mut self, parent: BlockId, transactions: Vec<Transaction>) -> (r: BlockId)
        requires
            old(self).wf(),
            old(self).view().blocks.contains_key(parent),
            old(self).view().blocks[parent].height + 2 < u64::MAX,
        ensures
            final(self).wf(),
            final(self).queries() == old(self).queries(),
            r == block_id_of(parent, transactions@),
            final(self).view().best == old(self).view().best,
            final(self).view().extends(old(self).view()),
            final(self).view().blocks == (if old(self).view().blocks.contains_key(r) {
                old(self).view().blocks
            } else {
                old(self).view().blocks.insert(r, BlockInfo {
                    parent,
                    txs: transactions@,
                    height: old(self).view().blocks[parent].height + 1,
                })
            }),
    {
        let id = block_id(parent, &transactions);
        match self.find(id) {
            Some(_) => {},
            None => {
                let p = self.find(parent);
                let pi = p.unwrap();
                let h = self.stored[pi].height + 1;
                let ghost info = BlockInfo { parent, txs: transactions@, height: h as nat };
                let ghost old_stored = self.stored@;
                self.stored.push(Stored { id, block: Block { parent, transactions }, height: h });
                self.known = Ghost(self.known@.insert(id, info));
                assert(self.stored@[self.stored@.len() - 1].id == id);
                assert forall|i: int| 0 <= i < old_stored.len() implies self.stored@[i] == old_stored[i] by {}
                assert forall|x: BlockId| #[trigger] self.known@.contains_key(x) implies exists|i: int|
                    0 <= i < self.stored@.len() && #[trigger] self.stored@[i].id == x by {
                    if x != id {
                        let i = choose|i: int| 0 <= i < old_stored.len() && #[trigger] old_stored[i].id == x;
                        assert(self.stored@[i].id == x);
                    }
                }
                assert(id != genesis_id());
            },
        }
        id
    }

    /// Adds the block as `add_block` does and makes it the best block.
    pub fn add_block_as_best(&mut self, parent: BlockId, transactions: Vec<Transaction>) -> (r: BlockId)
        requires
            old(self).wf(),
            old(self).view().blocks.contains_key(parent),
            old(self).view().blocks[parent].height + 2 < u64::MAX,
        ensures
            final(self).wf(),
            final(self).queries() == old(self).queries(),
            r == block_id_of(parent, transactions@),
            final(self).view().best == r,
            final(self).view().extends(old(self).view()),
            final(self).view().blocks == (if old(self).view().blocks.contains_key(r) {
                old(self).view().blocks
            } else {
                old(self).view().blocks.insert(r, BlockInfo {
                    parent,
                    txs: transactions@,
                    height: old(self).view().blocks[parent].height + 1,
                })
            }),
    {
        let id = self.add_block(parent, transactions);
        let i = self.find(id).unwrap();
        self.best = i;
        id
    }

    fn count_query(&mut self)
        requires
            old(self).queries() < u64::MAX,
        ensures
            final(self).queries() == old(self).queries() + 1,
            final(self).stored == old(self).stored,
            final(self).best == old(self).best,
            final(self).known == old(self).known,
    {
        self.queries = self.queries + 1;
    }

    /// The number of queries answered so far.
    pub fn how_many_queries(&self) -> (r: u64)
        ensures
            r == self.queries(),
    {
        self.queries
    }

    /// Query: the identity of the best block.
    pub fn best_block_id(&mut self) -> (r: BlockId)
        requires
            old(self).wf(),
            old(self).queries() < u64::MAX,
        ensures
            final(self).wf(),
            final(self).view() == old(self).view(),
            final(self).queries() == old(self).queries() + 1,
            r == old(self).view().best,
    {
        self.count_query();
        self.stored[self.best].id
    }

    /// Query: the height of the best block.
    pub fn best_height(&mut self) -> (r: u64)
        requires
            old(self).wf(),
            old(self).queries() < u64::MAX,
        ensures
            final(self).wf(),
            final(self).view() == old(self).view(),
            final(self).queries() == old(self).queries() + 1,
            r == old(self).view().best_height(),
    {
        self.count_query();
        self.stored[self.best].height
    }

    /// Query: a copy of the block of this identity.
    pub fn get_block(&mut self, id: BlockId) -> (r: Block)
        requires
            old(self).wf(),
            old(self).queries() < u64::MAX,
            old(self).view().blocks.contains_key(id),
        ensures
            final(self).wf(),
            final(self).view() == old(self).view(),
            final(self).queries() == old(self).queries() + 1,
            r.parent == old(self).view().blocks[id].parent,
            txs_same(r.transactions@, old(self).view().blocks[id].txs),
    {
        self.count_query();
        let i = self.find(id).unwrap();
        let src = &self.stored[i].block;
        let mut txs: Vec<Transaction> = Vec::new();
        let mut k: usize = 0;
        while k < src.transactions.len()
            invariant
                k <= src.transactions@.len(),
                txs@.len() == k,
                forall|j: int| 0 <= j < k ==> #[trigger] tx_same(txs@[j], src.transactions@[j]),
            decreases src.transactions@.len() - k,
        {
            txs.push(src.transactions[k].duplicate());
            k = k + 1;
        }
        Block { parent: src.parent, transactions: txs }
    }
}

} // verus!
