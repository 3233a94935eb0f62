//! The UTXO ledger: unspent coins of followed addresses, kept in a canonical
//! order, with undo logs that take a block's effect back exactly.

use vstd::prelude::*;
use crate::types::{Address, AddressKind, Coin, CoinId, Input, Transaction};
use crate::encoding::coin_id_of;

verus! {

/// An unspent coin, its identity, and its position among its transaction's outputs.
#[derive(Clone, Copy, Debug, PartialEq, Eq, Structural)]
pub struct Entry {
    pub id: CoinId,
    pub coin: Coin,
    pub position: u64,
}

/// One step of a block's effect, recorded so that it can be taken back.
#[derive(Clone, Copy, Debug, PartialEq, Eq, Structural)]
pub enum Change {
    Created(CoinId),
    Removed(Entry),
}

/// An address the wallet follows: its kind, the first height whose outputs
/// count for it, and whether queries see it.
#[derive(Clone, Copy, Debug, PartialEq, Eq, Structural)]
pub struct Watched {
    pub address: Address,
    pub kind: AddressKind,
    pub from: u64,
    pub active: bool,
}

/// The ledger order: output position, then value, then identity.
pub open spec fn key_lt(a: Entry, b: Entry) -> bool {
    a.position < b.position || (a.position == b.position && (a.coin.value < b.coin.value || (
    a.coin.value == b.coin.value && a.id.0 < b.id.0)))
}

pub open spec fn sorted(s: Seq<Entry>) -> bool {
    forall|i: int, j: int| 0 <= i < j < s.len() ==> key_lt(#[trigger] s[i], #[trigger] s[j])
}

/// Each followed address with the first height whose outputs count for it.
pub open spec fn scope_of(reg: Seq<Watched>) -> Seq<(Address, u64)> {
    reg.map_values(|w: Watched| (w.address, w.from))
}

/// Outputs at height `h` that belong to `a` are followed.
pub open spec fn follows(scope: Seq<(Address, u64)>, a: Address, h: int) -> bool {
    exists|i: int| 0 <= i < scope.len() && (#[trigger] scope[i]).0 == a && scope[i].1 <= h
}

/// The ledger after the coins named by `inputs` are spent.
pub open spec fn spend(m: Map<CoinId, Entry>, inputs: Seq<Input>) -> Map<CoinId, Entry>
    decreases inputs.len(),
{
    if inputs.len() == 0 {
        m
    } else {
        spend(m, inputs.drop_last()).remove(inputs.last().coin_id)
    }
}

/// The ledger after the first `k` outputs of `t` at height `h` are created.
pub open spec fn create(m: Map<CoinId, Entry>, t: Transaction, k: nat, scope: Seq<(Address, u64)>, h: int) -> Map<CoinId, Entry>
    decreases k,
{
    if k == 0 {
        m
    } else {
        let prev = create(m, t, (k - 1) as nat, scope, h);
        let c = t.outputs@[k - 1];
        if follows(scope, c.owner, h) {
            prev.insert(coin_id_of(t, k - 1), Entry { id: coin_id_of(t, k - 1), coin: c, position: (k - 1) as u64 })
        } else {
            prev
        }
    }
}

/// One transaction at height `h`: its inputs are spent, then its followed outputs created.
pub open spec fn apply_tx(m: Map<CoinId, Entry>, t: Transaction, scope: Seq<(Address, u64)>, h: int) -> Map<CoinId, Entry> {
    create(spend(m, t.inputs@), t, t.outputs@.len(), scope, h)
}

/// A block's transactions at height `h`, in order.
pub open spec fn apply_txs(m: Map<CoinId, Entry>, txs: Seq<Transaction>, scope: Seq<(Address, u64)>, h: int) -> Map<CoinId, Entry>
    decreases txs.len(),
{
    if txs.len() == 0 {
        m
    } else {
        apply_tx(apply_txs(m, txs.drop_last(), scope, h), txs.last(), scope, h)
    }
}

/// The ledger after the blocks of heights 1 to `n`, where `blocks[h]` holds
/// the transactions at height `h`.
pub open spec fn replay(scope: Seq<(Address, u64)>, blocks: Seq<Seq<Transaction>>, n: nat) -> Map<CoinId, Entry>
    decreases n,
{
    if n == 0 {
        Map::empty()
    } else {
        apply_txs(replay(scope, blocks, (n - 1) as nat), blocks[n as int], scope, n as int)
    }
}

/// The ledger before the changes of `log` were made, taken back last first.
pub open spec fn undo(m: Map<CoinId, Entry>, log: Seq<Change>) -> Map<CoinId, Entry>
    decreases log.len(),
{
    if log.len() == 0 {
        m
    } else {
        let back = match log.last() {
            Change::Created(id) => m.remove(id),
            Change::Removed(e) => m.insert(e.id, e),
        };
        undo(back, log.drop_last())
    }
}

/// The coins of the ledger in the ledger order.
pub struct Ledger {
    entries: Vec<Entry>,
    coins: Ghost<Map<CoinId, Entry>>,
}

impl Ledger {
    pub closed spec fn view(&self) -> Map<CoinId, Entry> {
        self.coins@
    }

    pub closed spec fn seq(&self) -> Seq<Entry> {
        self.entries@
    }

    /// The vector holds each coin of the map once, in the ledger order.
    pub closed spec fn wf(&self) -> bool {
        &&& sorted(self.entries@)
        &&& forall|i: int|
            #![trigger self.entries@[i]]
            0 <= i < self.entries@.len() ==> self.coins@.contains_key(self.entries@[i].id)
                && self.coins@[self.entries@[i].id] == self.entries@[i]
        &&& forall|id: CoinId|
            #[trigger] self.coins@.contains_key(id) ==> exists|i: int|
                0 <= i < self.entries@.len() && #[trigger] self.entries@[i].id == id
    }

    pub proof fn lemma_seq(&self)
        requires
            self.wf(),
        ensures
            sorted(self.seq()),
            forall|i: int| #![trigger self.seq()[i]] 0 <= i < self.seq().len() ==> self.view().contains_key(self.seq()[i].id)
                && self.view()[self.seq()[i].id] == self.seq()[i],
            forall|id: CoinId| #[trigger] self.view().contains_key(id) ==> exists|i: int|
                0 <= i < self.seq().len() && #[trigger] self.seq()[i].id == id,
    {
    }

    pub fn new() -> (r: Ledger)
        ensures
            r.wf(),
            r.view() == Map::<CoinId, Entry>::empty(),
            r.seq().len() == 0,
    {
        Ledger { entries: Vec::new(), coins: Ghost(Map::empty()) }
    }

    pub fn len(&self) -> (r: usize)
        ensures
            r == self.seq().len(),
    {
        self.entries.len()
    }

    pub fn at(&self, i: usize) -> (r: Entry)
        requires
            i < self.seq().len(),
        ensures
            r == self.seq()[i as int],
    {
        self.entries[i]
    }

    fn index_of(&self, id: CoinId) -> (r: Option<usize>)
        requires
            self.wf(),
        ensures
            r matches Some(i) ==> i < self.entries@.len() && self.entries@[i as int].id == id,
            r is None ==> !self.view().contains_key(id),
    {
        let mut i: usize = 0;
        while i < self.entries.len()
            invariant
                i <= self.entries@.len(),
                forall|k: int| 0 <= k < i ==> self.entries@[k].id != id,
            decreases self.entries@.len() - i,
        {
            if self.entries[i].id == id {
                return Some(i);
            }
            i = i + 1;
        }
        None
    }

    /// The coin of this identity, if the ledger holds it.
    pub fn get(&self, id: CoinId) -> (r: Option<Entry>)
        requires
            self.wf(),
        ensures
            r == (if self.view().contains_key(id) { Some(self.view()[id]) } else { None::<Entry> }),
    {
        match self.index_of(id) {
            Some(i) => Some(self.entries[i]),
            None => None,
        }
    }

    /// Takes the coin of this identity out, if present, and returns it.
    pub fn remove(&mut self, id: CoinId) -> (r: Option<Entry>)
        requires
            old(self).wf(),
        ensures
            final(self).wf(),
            final(self).view() == old(self).view().remove(id),
            r == (if old(self).view().contains_key(id) { Some(old(self).view()[id]) } else { None::<Entry> }),
            r matches Some(e) ==> e.id == id,
    {
        match self.index_of(id) {
            None => {
                assert(self.coins@.remove(id) =~= self.coins@);
                None
            },
            Some(i) => {
                let ghost old_entries = self.entries@;
                let e = self.entries.remove(i);
                self.coins = Ghost(self.coins@.remove(id));
                assert forall|a: int, b: int| 0 <= a < b < self.entries@.len() implies key_lt(
                    #[trigger] self.entries@[a], #[trigger] self.entries@[b]) by {
                    let a0 = if a < i { a } else { a + 1 };
                    let b0 = if b < i { b } else { b + 1 };
                    assert(self.entries@[a] == old_entries[a0]);
                    assert(self.entries@[b] == old_entries[b0]);
                }
                assert forall|k: int| #![trigger self.entries@[k]] 0 <= k < self.entries@.len() implies self.coins@.contains_key(self.entries@[k].id)
                    && self.coins@[self.entries@[k].id] == self.entries@[k] by {
                    let k0 = if k < i { k } else { k + 1 };
                    assert(self.entries@[k] == old_entries[k0]);
                    assert(k0 != i);
                    if old_entries[k0].id == id {
                        assert(old_entries[k0] == old_entries[i as int]);
                        if k0 < i {
                            assert(key_lt(old_entries[k0], old_entries[i as int]));
                        } else {
                            assert(key_lt(old_entries[i as int], old_entries[k0]));
                        }
                    }
                }
                assert forall|x: CoinId| #[trigger] self.coins@.contains_key(x) implies exists|k: int|
                    0 <= k < self.entries@.len() && #[trigger] self.entries@[k].id == x by {
                    let k0 = choose|k0: int| 0 <= k0 < old_entries.len() && #[trigger] old_entries[k0].id == x;
                    assert(k0 != i);
                    let k = if k0 < i { k0 } else { k0 - 1 };
                    assert(self.entries@[k] == old_entries[k0]);
                }
                Some(e)
            },
        }
    }

    /// Puts in a coin whose identity the ledger does not hold.
    pub fn insert(&mut self, e: Entry)
        requires
            old(self).wf(),
            !old(self).view().contains_key(e.id),
        ensures
            final(self).wf(),
            final(self).view() == old(self).view().insert(e.id, e),
    {
        let mut i: usize = 0;
        while i < self.entries.len() && !self.entry_before(e, i)
            invariant
                self.wf(),
                i <= self.entries@.len(),
                forall|k: int| 0 <= k < i ==> !key_lt(e, #[trigger] self.entries@[k]),
            decreases self.entries@.len() - i,
        {
            i = i + 1;
        }
        let ghost old_entries = self.entries@;
        assert forall|k: int| 0 <= k < old_entries.len() implies (#[trigger] old_entries[k]).id != e.id by {
            assert(self.coins@.contains_key(old_entries[k].id));
        }
        self.entries.insert(i, e);
        self.coins = Ghost(self.coins@.insert(e.id, e));
        assert forall|a: int, b: int| 0 <= a < b < self.entries@.len() implies key_lt(
            #[trigger] self.entries@[a], #[trigger] self.entries@[b]) by {
            if a < i && b < i {
                assert(self.entries@[a] == old_entries[a] && self.entries@[b] == old_entries[b]);
            } else if a < i && b == i {
                assert(self.entries@[a] == old_entries[a]);
                assert(!key_lt(e, old_entries[a]));
            } else if a < i {
                assert(self.entries@[a] == old_entries[a] && self.entries@[b] == old_entries[b - 1]);
            } else if a == i {
                assert(self.entries@[b] == old_entries[b - 1]);
                if b - 1 > i {
                    assert(key_lt(old_entries[i as int], old_entries[b - 1]));
                }
            } else {
                assert(self.entries@[a] == old_entries[a - 1] && self.entries@[b] == old_entries[b - 1]);
            }
        }
        assert forall|k: int| #![trigger self.entries@[k]] 0 <= k < self.entries@.len() implies self.coins@.contains_key(self.entries@[k].id)
            && self.coins@[self.entries@[k].id] == self.entries@[k] by {
            if k < i {
                assert(self.entries@[k] == old_entries[k]);
            } else if k > i {
                assert(self.entries@[k] == old_entries[k - 1]);
            }
        }
        assert forall|x: CoinId| #[trigger] self.coins@.contains_key(x) implies exists|k: int|
            0 <= k < self.entries@.len() && #[trigger] self.entries@[k].id == x by {
            if x == e.id {
                assert(self.entries@[i as int].id == x);
            } else {
                let k0 = choose|k0: int| 0 <= k0 < old_entries.len() && #[trigger] old_entries[k0].id == x;
                let k = if k0 < i { k0 } else { k0 + 1 };
                assert(self.entries@[k] == old_entries[k0]);
            }
        }
    }

    fn entry_before(&self, e: Entry, i: usize) -> (r: bool)
        requires
            i < self.entries@.len(),
        ensures
            r == key_lt(e, self.entries@[i as int]),
    {
        let o = self.entries[i];
        e.position < o.position || (e.position == o.position && (e.coin.value < o.coin.value || (
        e.coin.value == o.coin.value && e.id.0 < o.id.0)))
    }
}


/// Taking back one more change, made last, first.
proof fn lemma_undo_push(m: Map<CoinId, Entry>, log: Seq<Change>, c: Change)
    ensures
        undo(m, log.push(c)) == undo(
            match c {
                Change::Created(id) => m.remove(id),
                Change::Removed(e) => m.insert(e.id, e),
            },
            log,
        ),
{
    assert(log.push(c).drop_last() =~= log);
}

/// Whether outputs of `a` at height `h` are followed.
pub fn follows_at(reg: &Vec<Watched>, a: Address, h: u64) -> (r: bool)
    ensures
        r == follows(scope_of(reg@), a, h as int),
{
    let ghost scope = scope_of(reg@);
    let mut i: usize = 0;
    while i < reg.len()
        invariant
            i <= reg@.len(),
            scope == scope_of(reg@),
            forall|k: int| 0 <= k < i ==> !((#[trigger] reg@[k]).address == a && reg@[k].from <= h),
        decreases reg@.len() - i,
    {
        if reg[i].address == a && reg[i].from <= h {
            assert(scope[i as int] == (reg@[i as int].address, reg@[i as int].from));
            return true;
        }
        i = i + 1;
    }
    assert forall|k: int| 0 <= k < scope.len() implies !((#[trigger] scope[k]).0 == a && scope[k].1 <= h) by {
        assert(scope[k] == (reg@[k].address, reg@[k].from));
    }
    false
}

/// Applies one transaction at height `h`, recording each change in `log`.
pub fn apply_transaction(ledger: &mut Ledger, log: &mut Vec<Change>, t: &Transaction, reg: &Vec<Watched>, h: u64)
    requires
        old(ledger).wf(),
    ensures
        final(ledger).wf(),
        final(ledger).view() == apply_tx(old(ledger).view(), *t, scope_of(reg@), h as int),
        undo(final(ledger).view(), final(log)@) == undo(old(ledger).view(), old(log)@),
{
    let ghost m0 = ledger.view();
    let mut i: usize = 0;
    while i < t.inputs.len()
        invariant
            ledger.wf(),
            i <= t.inputs@.len(),
            ledger.view() == spend(m0, t.inputs@.subrange(0, i as int)),
            undo(ledger.view(), log@) == undo(m0, old(log)@),
        decreases t.inputs@.len() - i,
    {
        let id = t.inputs[i].coin_id;
        let ghost before = ledger.view();
        let ghost log_before = log@;
        match ledger.remove(id) {
            Some(e) => {
                log.push(Change::Removed(e));
                proof {
                    lemma_undo_push(ledger.view(), log_before, Change::Removed(e));
                    assert(ledger.view().insert(e.id, e) =~= before);
                }
            },
            None => {
                assert(ledger.view() =~= before);
            },
        }
        assert(t.inputs@.subrange(0, i + 1).drop_last() =~= t.inputs@.subrange(0, i as int));
        i = i + 1;
    }
    assert(t.inputs@.subrange(0, t.inputs@.len() as int) =~= t.inputs@);
    let ghost spent = ledger.view();
    let mut k: usize = 0;
    while k < t.outputs.len()
        invariant
            ledger.wf(),
            k <= t.outputs@.len(),
            spent == spend(m0, t.inputs@),
            ledger.view() == create(spent, *t, k as nat, scope_of(reg@), h as int),
            undo(ledger.view(), log@) == undo(m0, old(log)@),
        decreases t.outputs@.len() - k,
    {
        let c = t.outputs[k];
        if follows_at(reg, c.owner, h) {
            let id = t.coin_id(k);
            let ghost before = ledger.view();
            let ghost log_before = log@;
            match ledger.remove(id) {
                Some(e) => {
                    log.push(Change::Removed(e));
                    proof {
                        lemma_undo_push(ledger.view(), log_before, Change::Removed(e));
                        assert(ledger.view().insert(e.id, e) =~= before);
                    }
                },
                None => {
                    assert(ledger.view() =~= before);
                },
            }
            let ghost mid = ledger.view();
            let ghost log_mid = log@;
            let e = Entry { id, coin: c, position: k as u64 };
            ledger.insert(e);
            log.push(Change::Created(id));
            proof {
                lemma_undo_push(ledger.view(), log_mid, Change::Created(id));
                assert(ledger.view().remove(id) =~= mid);
                assert(ledger.view() =~= before.insert(id, e));
            }
        }
        k = k + 1;
    }
}

/// Applies a block's transactions at height `h`, recording each change in `log`.
pub fn apply_block(ledger: &mut Ledger, log: &mut Vec<Change>, txs: &Vec<Transaction>, reg: &Vec<Watched>, h: u64)
    requires
        old(ledger).wf(),
    ensures
        final(ledger).wf(),
        final(ledger).view() == apply_txs(old(ledger).view(), txs@, scope_of(reg@), h as int),
        undo(final(ledger).view(), final(log)@) == undo(old(ledger).view(), old(log)@),
{
    let ghost m0 = ledger.view();
    let mut i: usize = 0;
    while i < txs.len()
        invariant
            ledger.wf(),
            i <= txs@.len(),
            ledger.view() == apply_txs(m0, txs@.subrange(0, i as int), scope_of(reg@), h as int),
            undo(ledger.view(), log@) == undo(m0, old(log)@),
        decreases txs@.len() - i,
    {
        apply_transaction(ledger, log, &txs[i], reg, h);
        assert(txs@.subrange(0, i + 1).drop_last() =~= txs@.subrange(0, i as int));
        i = i + 1;
    }
    assert(txs@.subrange(0, txs@.len() as int) =~= txs@);
}

/// Takes back every change of `log`, last first.
pub fn revert(ledger: &mut Ledger, log: Vec<Change>)
    requires
        old(ledger).wf(),
    ensures
        final(ledger).wf(),
        final(ledger).view() == undo(old(ledger).view(), log@),
{
    let ghost target = undo(ledger.view(), log@);
    let mut log = log;
    while log.len() > 0
        invariant
            ledger.wf(),
            undo(ledger.view(), log@) == target,
        decreases log@.len(),
    {
        let ghost before = ledger.view();
        let ghost rest = log@.drop_last();
        let c = log.pop().unwrap();
        proof {
            assert(rest.push(c) =~= log@.push(c));
            lemma_undo_push(before, log@, c);
        }
        match c {
            Change::Created(id) => {
                ledger.remove(id);
            },
            Change::Removed(e) => {
                ledger.remove(e.id);
                ledger.insert(e);
                assert(ledger.view() =~= before.insert(e.id, e));
            },
        }
    }
}

/// Creation depends on the scope only through which owners it follows at `h`.
proof fn lemma_create_agree(m: Map<CoinId, Entry>, t: Transaction, k: nat, s1: Seq<(Address, u64)>, s2: Seq<(Address, u64)>, h: int)
    requires
        forall|a: Address| #[trigger] follows(s1, a, h) == follows(s2, a, h),
    ensures
        create(m, t, k, s1, h) == create(m, t, k, s2, h),
    decreases k,
{
    if k > 0 {
        lemma_create_agree(m, t, (k - 1) as nat, s1, s2, h);
        assert(follows(s1, t.outputs@[k - 1].owner, h) == follows(s2, t.outputs@[k - 1].owner, h));
    }
}

proof fn lemma_apply_txs_agree(m: Map<CoinId, Entry>, txs: Seq<Transaction>, s1: Seq<(Address, u64)>, s2: Seq<(Address, u64)>, h: int)
    requires
        forall|a: Address| #[trigger] follows(s1, a, h) == follows(s2, a, h),
    ensures
        apply_txs(m, txs, s1, h) == apply_txs(m, txs, s2, h),
    decreases txs.len(),
{
    if txs.len() > 0 {
        lemma_apply_txs_agree(m, txs.drop_last(), s1, s2, h);
        lemma_create_agree(spend(apply_txs(m, txs.drop_last(), s1, h), txs.last().inputs@), txs.last(), txs.last().outputs@.len(), s1, s2, h);
    }
}

/// Two scopes that follow the same owners at every height up to `n` replay
/// the same ledger up to `n`.
pub proof fn lemma_replay_agree(s1: Seq<(Address, u64)>, s2: Seq<(Address, u64)>, blocks: Seq<Seq<Transaction>>, n: nat)
    requires
        forall|a: Address, h: int| 1 <= h <= n ==> #[trigger] follows(s1, a, h) == follows(s2, a, h),
    ensures
        replay(s1, blocks, n) == replay(s2, blocks, n),
    decreases n,
{
    if n > 0 {
        lemma_replay_agree(s1, s2, blocks, (n - 1) as nat);
        assert forall|a: Address| #[trigger] follows(s1, a, n as int) == follows(s2, a, n as int) by {}
        lemma_apply_txs_agree(replay(s1, blocks, (n - 1) as nat), blocks[n as int], s1, s2, n as int);
    }
}

/// `s` holds each coin of `m` once, at its identity.
pub open spec fn represents(s: Seq<Entry>, m: Map<CoinId, Entry>) -> bool {
    &&& forall|i: int| #![trigger s[i]] 0 <= i < s.len() ==> m.contains_key(s[i].id) && m[s[i].id] == s[i]
    &&& forall|id: CoinId| #[trigger] m.contains_key(id) ==> exists|i: int| 0 <= i < s.len() && #[trigger] s[i].id == id
}

/// The ledger order leaves one sequence for each set of coins.
pub proof fn lemma_canonical(s1: Seq<Entry>, s2: Seq<Entry>, m: Map<CoinId, Entry>)
    requires
        sorted(s1),
        sorted(s2),
        represents(s1, m),
        represents(s2, m),
    ensures
        s1 == s2,
    decreases s1.len(),
{
    if s1.len() == 0 {
        if s2.len() > 0 {
            assert(m.contains_key(s2[0].id));
            let i = choose|i: int| 0 <= i < s1.len() && #[trigger] s1[i].id == s2[0].id;
        }
        assert(s1 =~= s2);
    } else {
        assert(m.contains_key(s1[0].id));
        let j = choose|j: int| 0 <= j < s2.len() && #[trigger] s2[j].id == s1[0].id;
        assert(s2[j] == s1[0]);
        assert(m.contains_key(s2[0].id));
        let k = choose|k: int| 0 <= k < s1.len() && #[trigger] s1[k].id == s2[0].id;
        assert(s1[k] == s2[0]);
        if j > 0 {
            assert(key_lt(s2[0], s2[j]));
            if k > 0 {
                assert(key_lt(s1[0], s1[k]));
            }
        }
        if k > 0 {
            assert(key_lt(s1[0], s1[k]));
        }
        assert(s1[0] == s2[0]);
        let e = s1[0];
        let t1 = s1.drop_first();
        let t2 = s2.drop_first();
        let m2 = m.remove(e.id);
        assert forall|i: int| 0 <= i < t1.len() implies (#[trigger] t1[i]).id != e.id by {
            assert(t1[i] == s1[i + 1]);
            if s1[i + 1].id == e.id {
                assert(s1[i + 1] == e);
                assert(key_lt(s1[0], s1[i + 1]));
            }
        }
        assert forall|i: int| 0 <= i < t2.len() implies (#[trigger] t2[i]).id != e.id by {
            assert(t2[i] == s2[i + 1]);
            if s2[i + 1].id == e.id {
                assert(s2[i + 1] == e);
                assert(key_lt(s2[0], s2[i + 1]));
            }
        }
        assert(sorted(t1)) by {
            assert forall|a: int, b: int| 0 <= a < b < t1.len() implies key_lt(#[trigger] t1[a], #[trigger] t1[b]) by {
                assert(t1[a] == s1[a + 1] && t1[b] == s1[b + 1]);
            }
        }
        assert(sorted(t2)) by {
            assert forall|a: int, b: int| 0 <= a < b < t2.len() implies key_lt(#[trigger] t2[a], #[trigger] t2[b]) by {
                assert(t2[a] == s2[a + 1] && t2[b] == s2[b + 1]);
            }
        }
        assert(represents(t1, m2)) by {
            assert forall|i: int| #![trigger t1[i]] 0 <= i < t1.len() implies m2.contains_key(t1[i].id) && m2[t1[i].id] == t1[i] by {
                assert(t1[i] == s1[i + 1]);
            }
            assert forall|id: CoinId| #[trigger] m2.contains_key(id) implies exists|i: int| 0 <= i < t1.len() && #[trigger] t1[i].id == id by {
                let i = choose|i: int| 0 <= i < s1.len() && #[trigger] s1[i].id == id;
                assert(i > 0);
                assert(t1[i - 1] == s1[i]);
            }
        }
        assert(represents(t2, m2)) by {
            assert forall|i: int| #![trigger t2[i]] 0 <= i < t2.len() implies m2.contains_key(t2[i].id) && m2[t2[i].id] == t2[i] by {
                assert(t2[i] == s2[i + 1]);
            }
            assert forall|id: CoinId| #[trigger] m2.contains_key(id) implies exists|i: int| 0 <= i < t2.len() && #[trigger] t2[i].id == id by {
                let i = choose|i: int| 0 <= i < s2.len() && #[trigger] s2[i].id == id;
                assert(i > 0);
                assert(t2[i - 1] == s2[i]);
            }
        }
        lemma_canonical(t1, t2, m2);
        assert(s1 =~= s2) by {
            assert forall|i: int| 0 <= i < s1.len() implies s1[i] == s2[i] by {
                if i > 0 {
                    assert(s1[i] == t1[i - 1]);
                    assert(s2[i] == t2[i - 1]);
                }
            }
        }
    }
}

/// Some input of `ins` names `id`.
pub open spec fn spent_by(ins: Seq<Input>, id: CoinId) -> bool {
    exists|j: int| 0 <= j < ins.len() && (#[trigger] ins[j]).coin_id == id
}

/// One of the first `k` outputs of `t` has identity `id` and is followed at `h`.
pub open spec fn created_by(t: Transaction, k: int, scope: Seq<(Address, u64)>, h: int, id: CoinId) -> bool {
    exists|i: int| 0 <= i < k && #[trigger] coin_id_of(t, i) == id && follows(scope, t.outputs@[i].owner, h)
}

/// Spending removes exactly the coins named by the inputs and keeps every other coin as it was.
pub proof fn lemma_spend_effect(m: Map<CoinId, Entry>, ins: Seq<Input>)
    ensures
        forall|id: CoinId| #[trigger] spend(m, ins).contains_key(id) == (m.contains_key(id) && !spent_by(ins, id)),
        forall|id: CoinId| #[trigger] spend(m, ins).contains_key(id) ==> spend(m, ins)[id] == m[id],
    decreases ins.len(),
{
    if ins.len() > 0 {
        let rest = ins.drop_last();
        lemma_spend_effect(m, rest);
        assert(spend(m, ins) == spend(m, rest).remove(ins.last().coin_id));
        assert forall|id: CoinId| #[trigger] spend(m, ins).contains_key(id) == (m.contains_key(id) && !spent_by(ins, id)) by {
            if spent_by(rest, id) {
                let j = choose|j: int| 0 <= j < rest.len() && (#[trigger] rest[j]).coin_id == id;
                assert(ins[j] == rest[j]);
            }
            if spent_by(ins, id) && ins.last().coin_id != id {
                let j = choose|j: int| 0 <= j < ins.len() && (#[trigger] ins[j]).coin_id == id;
                assert(j < ins.len() - 1);
                assert(rest[j] == ins[j]);
            }
            if ins.last().coin_id == id {
                assert(ins[ins.len() - 1].coin_id == id);
            }
        }
    }
}

/// Creating the first `k` outputs adds exactly the followed ones, each with
/// its own coin, and keeps every other coin as it was.
pub proof fn lemma_create_effect(m: Map<CoinId, Entry>, t: Transaction, k: nat, scope: Seq<(Address, u64)>, h: int)
    requires
        k <= t.outputs@.len(),
    ensures
        forall|id: CoinId| #[trigger] create(m, t, k, scope, h).contains_key(id) == (m.contains_key(id) || created_by(t, k as int, scope, h, id)),
        forall|id: CoinId| !created_by(t, k as int, scope, h, id) && #[trigger] create(m, t, k, scope, h).contains_key(id)
            ==> create(m, t, k, scope, h)[id] == m[id],
        forall|id: CoinId| #[trigger] created_by(t, k as int, scope, h, id) ==> exists|i: int| 0 <= i < k && #[trigger] coin_id_of(t, i) == id
            && create(m, t, k, scope, h)[id] == (Entry { id, coin: t.outputs@[i], position: i as u64 }),
    decreases k,
{
    if k > 0 {
        let j = k - 1;
        lemma_create_effect(m, t, (k - 1) as nat, scope, h);
        let prev = create(m, t, (k - 1) as nat, scope, h);
        let cur = create(m, t, k, scope, h);
        let nid = coin_id_of(t, j as int);
        let f = follows(scope, t.outputs@[j as int].owner, h);
        assert forall|id: CoinId| created_by(t, k as int, scope, h, id) == (created_by(t, (k - 1) as int, scope, h, id) || (f && nid == id)) by {
            if created_by(t, k as int, scope, h, id) {
                let i = choose|i: int| 0 <= i < k && #[trigger] coin_id_of(t, i) == id && follows(scope, t.outputs@[i].owner, h);
                if i < k - 1 {
                    assert(created_by(t, (k - 1) as int, scope, h, id));
                }
            }
            if created_by(t, (k - 1) as int, scope, h, id) {
                let i = choose|i: int| 0 <= i < k - 1 && #[trigger] coin_id_of(t, i) == id && follows(scope, t.outputs@[i].owner, h);
                assert(created_by(t, k as int, scope, h, id));
            }
            if f && nid == id {
                assert(coin_id_of(t, j as int) == id);
                assert(created_by(t, k as int, scope, h, id));
            }
        }
        assert forall|id: CoinId| #[trigger] created_by(t, k as int, scope, h, id) implies exists|i: int| 0 <= i < k && #[trigger] coin_id_of(t, i) == id
            && cur[id] == (Entry { id, coin: t.outputs@[i], position: i as u64 }) by {
            if f && nid == id {
                assert(coin_id_of(t, j as int) == id && cur[id] == (Entry { id, coin: t.outputs@[j as int], position: j as u64 }));
            } else {
                assert(created_by(t, (k - 1) as int, scope, h, id));
                let i = choose|i: int| 0 <= i < k - 1 && #[trigger] coin_id_of(t, i) == id
                    && prev[id] == (Entry { id, coin: t.outputs@[i], position: i as u64 });
                assert(cur[id] == prev[id]);
            }
        }
    }
}

/// Two transactions with the same inputs and outputs.
pub open spec fn tx_same(a: Transaction, b: Transaction) -> bool {
    a.inputs@ == b.inputs@ && a.outputs@ == b.outputs@
}

/// Two lists of transactions that agree one by one.
pub open spec fn txs_same(a: Seq<Transaction>, b: Seq<Transaction>) -> bool {
    a.len() == b.len() && forall|i: int| 0 <= i < a.len() ==> #[trigger] tx_same(a[i], b[i])
}

proof fn lemma_create_same(m: Map<CoinId, Entry>, t1: Transaction, t2: Transaction, k: nat, scope: Seq<(Address, u64)>, h: int)
    requires
        tx_same(t1, t2),
    ensures
        create(m, t1, k, scope, h) == create(m, t2, k, scope, h),
    decreases k,
{
    if k > 0 {
        lemma_create_same(m, t1, t2, (k - 1) as nat, scope, h);
        assert(crate::encoding::enc_tx(t1) == crate::encoding::enc_tx(t2));
    }
}

/// A block's effect depends on what its transactions hold, not on which copy is applied.
pub proof fn lemma_apply_txs_same(m: Map<CoinId, Entry>, a: Seq<Transaction>, b: Seq<Transaction>, scope: Seq<(Address, u64)>, h: int)
    requires
        txs_same(a, b),
    ensures
        apply_txs(m, a, scope, h) == apply_txs(m, b, scope, h),
    decreases a.len(),
{
    if a.len() > 0 {
        assert(tx_same(a[a.len() - 1], b[b.len() - 1]));
        assert(txs_same(a.drop_last(), b.drop_last())) by {
            assert forall|i: int| 0 <= i < a.drop_last().len() implies #[trigger] tx_same(a.drop_last()[i], b.drop_last()[i]) by {
                assert(tx_same(a[i], b[i]));
            }
        }
        lemma_apply_txs_same(m, a.drop_last(), b.drop_last(), scope, h);
        let prev = apply_txs(m, a.drop_last(), scope, h);
        lemma_create_same(spend(prev, a.last().inputs@), a.last(), b.last(), a.last().outputs@.len(), scope, h);
    }
}

} // verus!
