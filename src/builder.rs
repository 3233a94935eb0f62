//! Building transactions from the wallet's coins: by hand, by automatic coin
//! selection, and by merging an address's coins.

use vstd::prelude::*;
use crate::types::{Address, AddressKind, Coin, CoinId, Input, Signature, Transaction, WalletError};
use crate::ledger::{Entry, Watched};
use crate::wallet::{Wallet, active_kind, any_active, query_error, listing, balance};

verus! {

/// The signed inputs for `ids`, or the error of the first that cannot be spent.
pub open spec fn resolve(m: Map<CoinId, Entry>, reg: Seq<Watched>, ids: Seq<CoinId>) -> Result<Seq<Input>, WalletError>
    decreases ids.len(),
{
    if ids.len() == 0 {
        Ok(seq![])
    } else {
        match resolve(m, reg, ids.drop_last()) {
            Err(e) => Err(e),
            Ok(ins) => {
                let id = ids.last();
                if !m.contains_key(id) || active_kind(reg, m[id].coin.owner) is None {
                    Err(WalletError::UnknownCoin)
                } else if active_kind(reg, m[id].coin.owner) == Some(AddressKind::WatchOnly) {
                    Err(WalletError::ForeignAddress)
                } else {
                    Ok(ins.push(Input { coin_id: id, signature: Signature::Valid(m[id].coin.owner) }))
                }
            },
        }
    }
}

/// The sum of the values of the coins named by `ids`.
pub open spec fn input_total(m: Map<CoinId, Entry>, ids: Seq<CoinId>) -> int
    decreases ids.len(),
{
    if ids.len() == 0 {
        0
    } else {
        input_total(m, ids.drop_last()) + m[ids.last()].coin.value
    }
}

/// The sum of the values of `outs`.
pub open spec fn output_total(outs: Seq<Coin>) -> int
    decreases outs.len(),
{
    if outs.len() == 0 {
        0
    } else {
        output_total(outs.drop_last()) + outs.last().value
    }
}

/// The inputs of a manual transaction spending `ids` into `outs`, or its error.
pub open spec fn manual_outcome(m: Map<CoinId, Entry>, reg: Seq<Watched>, ids: Seq<CoinId>, outs: Seq<Coin>) -> Result<Seq<Input>, WalletError> {
    if !any_active(reg) {
        Err(WalletError::NoOwnedAddresses)
    } else {
        match resolve(m, reg, ids) {
            Err(e) => Err(e),
            Ok(ins) => if output_total(outs) > input_total(m, ids) {
                Err(WalletError::OutputsExceedInputs)
            } else {
                Ok(ins)
            },
        }
    }
}

/// The coins of `a`, in ledger order.
pub open spec fn coins_of(coins: Seq<Entry>, a: Address) -> Seq<Entry>
    decreases coins.len(),
{
    if coins.len() == 0 {
        seq![]
    } else if coins.last().coin.owner == a {
        coins_of(coins.drop_last(), a).push(coins.last())
    } else {
        coins_of(coins.drop_last(), a)
    }
}

/// The coins automatic selection tries, in order: the owned addresses from
/// the most recently registered back, each address's coins in ledger order.
pub open spec fn candidates(reg: Seq<Watched>, coins: Seq<Entry>) -> Seq<Entry>
    decreases reg.len(),
{
    if reg.len() == 0 {
        seq![]
    } else {
        let w = reg.last();
        (if w.active && w.kind == AddressKind::Owned {
            coins_of(coins, w.address)
        } else {
            seq![]
        }) + candidates(reg.drop_last(), coins)
    }
}

/// The sum of the values of `s`.
pub open spec fn total(s: Seq<Entry>) -> int
    decreases s.len(),
{
    if s.len() == 0 {
        0
    } else {
        total(s.drop_last()) + s.last().coin.value
    }
}

/// The first visible owned address, in registration order.
pub open spec fn first_owned(reg: Seq<Watched>) -> Option<Address>
    decreases reg.len(),
{
    if reg.len() == 0 {
        None
    } else {
        match first_owned(reg.drop_last()) {
            Some(a) => Some(a),
            None => if reg.last().active && reg.last().kind == AddressKind::Owned {
                Some(reg.last().address)
            } else {
                None
            },
        }
    }
}

/// The inputs that spend `s`, each signed by its owner.
pub open spec fn signed(s: Seq<Entry>) -> Seq<Input> {
    s.map_values(|e: Entry| Input { coin_id: e.id, signature: Signature::Valid(e.coin.owner) })
}

/// The outputs of an automatic transaction that selected `selected` in value.
pub open spec fn automatic_outputs(reg: Seq<Watched>, recipient: Address, amount: u64, tip: u64, selected: int) -> Seq<Coin> {
    if amount == 0 && tip == 0 {
        seq![]
    } else if selected == amount + tip {
        seq![Coin { value: amount, owner: recipient }]
    } else {
        seq![
            Coin { value: amount, owner: recipient },
            Coin { value: (selected - amount - tip) as u64, owner: first_owned(reg).unwrap() },
        ]
    }
}

proof fn lemma_total_bound(s: Seq<Entry>)
    ensures
        0 <= total(s) <= s.len() * 0xffff_ffff_ffff_ffffint,
    decreases s.len(),
{
    if s.len() > 0 {
        lemma_total_bound(s.drop_last());
        assert(total(s.drop_last()) + s.last().coin.value <= s.len() * 0xffff_ffff_ffff_ffffint) by (nonlinear_arith)
            requires
                total(s.drop_last()) <= (s.len() - 1) * 0xffff_ffff_ffff_ffffint,
                s.last().coin.value <= 0xffff_ffff_ffff_ffffint;
    }
}

/// Whenever selection has a candidate, some visible address is owned.
proof fn lemma_candidates_owner(reg: Seq<Watched>, coins: Seq<Entry>)
    ensures
        candidates(reg, coins).len() > 0 ==> first_owned(reg) is Some,
    decreases reg.len(),
{
    if reg.len() > 0 {
        lemma_candidates_owner(reg.drop_last(), coins);
    }
}

proof fn lemma_total_prefix(s: Seq<Entry>, i: int)
    requires
        0 <= i <= s.len(),
    ensures
        total(s.subrange(0, i)) <= total(s),
    decreases s.len(),
{
    if s.len() > 0 {
        if i == s.len() {
            assert(s.subrange(0, i) =~= s);
        } else {
            lemma_total_prefix(s.drop_last(), i);
            assert(s.drop_last().subrange(0, i) =~= s.subrange(0, i));
            lemma_total_bound(s.drop_last());
        }
    }
}

proof fn lemma_total_push(s: Seq<Entry>, e: Entry)
    ensures
        total(s.push(e)) == total(s) + e.coin.value,
{
    assert(s.push(e).drop_last() =~= s);
}

impl Wallet {
    /// A transaction that spends `input_coin_ids`, in that order, each signed
    /// by its owner, into `output_coins`. It is built, not sent.
    pub fn create_manual_transaction(&self, input_coin_ids: Vec<CoinId>, output_coins: Vec<Coin>) -> (r: Result<Transaction, WalletError>)
        requires
            self.wf(),
        ensures
            match manual_outcome(self.coin_map(), self.view().registry, input_coin_ids@, output_coins@) {
                Ok(ins) => r matches Ok(t) && t.inputs@ == ins && t.outputs@ == output_coins@,
                Err(e) => r matches Err(x) && x == e,
            },
    {
        if !self.has_active() {
            return Err(WalletError::NoOwnedAddresses);
        }
        let ghost m = self.coin_map();
        let ghost reg = self.view().registry;
        let mut inputs: Vec<Input> = Vec::new();
        let mut in_sum: u128 = 0;
        let mut i: usize = 0;
        while i < input_coin_ids.len()
            invariant
                self.wf(),
                m == self.coin_map(),
                reg == self.view().registry,
                any_active(reg),
                i <= input_coin_ids@.len(),
                resolve(m, reg, input_coin_ids@.subrange(0, i as int)) == Ok::<Seq<Input>, WalletError>(inputs@),
                in_sum == input_total(m, input_coin_ids@.subrange(0, i as int)),
                in_sum <= i * 0xffff_ffff_ffff_ffffint,
            decreases input_coin_ids@.len() - i,
        {
            let id = input_coin_ids[i];
            let ghost pre = input_coin_ids@.subrange(0, i as int);
            let ghost cur = input_coin_ids@.subrange(0, i + 1);
            assert(cur.drop_last() =~= pre);
            match self.lookup(id) {
                None => {
                    proof {
                        assert(cur.last() == id);
                        assert(resolve(m, reg, cur) == Err::<Seq<Input>, WalletError>(WalletError::UnknownCoin));
                        lemma_resolve_err(m, reg, input_coin_ids@, i + 1);
                    }
                    return Err(WalletError::UnknownCoin);
                },
                Some(e) => {
                    match self.kind_of(e.coin.owner) {
                        None => {
                            proof {
                                assert(cur.last() == id);
                                assert(resolve(m, reg, cur) == Err::<Seq<Input>, WalletError>(WalletError::UnknownCoin));
                                lemma_resolve_err(m, reg, input_coin_ids@, i + 1);
                            }
                            return Err(WalletError::UnknownCoin);
                        },
                        Some(AddressKind::WatchOnly) => {
                            proof {
                                lemma_resolve_err(m, reg, input_coin_ids@, i + 1);
                            }
                            return Err(WalletError::ForeignAddress);
                        },
                        Some(AddressKind::Owned) => {
                            inputs.push(Input { coin_id: id, signature: Signature::Valid(e.coin.owner) });
                            assert(in_sum + e.coin.value <= (i + 1) * 0xffff_ffff_ffff_ffffint) by (nonlinear_arith)
                                requires
                                    in_sum <= i * 0xffff_ffff_ffff_ffffint,
                                    e.coin.value <= 0xffff_ffff_ffff_ffffint;
                            in_sum = in_sum + e.coin.value as u128;
                        },
                    }
                },
            }
            i = i + 1;
        }
        assert(input_coin_ids@.subrange(0, input_coin_ids@.len() as int) =~= input_coin_ids@);
        let mut out_sum: u128 = 0;
        let mut j: usize = 0;
        while j < output_coins.len()
            invariant
                j <= output_coins@.len(),
                out_sum == output_total(output_coins@.subrange(0, j as int)),
                out_sum <= j * 0xffff_ffff_ffff_ffffint,
            decreases output_coins@.len() - j,
        {
            let c = output_coins[j];
            assert(output_coins@.subrange(0, j + 1).drop_last() =~= output_coins@.subrange(0, j as int));
            assert(out_sum + c.value <= (j + 1) * 0xffff_ffff_ffff_ffffint) by (nonlinear_arith)
                requires
                    out_sum <= j * 0xffff_ffff_ffff_ffffint,
                    c.value <= 0xffff_ffff_ffff_ffffint;
            out_sum = out_sum + c.value as u128;
            j = j + 1;
        }
        assert(output_coins@.subrange(0, output_coins@.len() as int) =~= output_coins@);
        if out_sum > in_sum {
            return Err(WalletError::OutputsExceedInputs);
        }
        Ok(Transaction { inputs, outputs: output_coins })
    }
}

impl Wallet {
    fn first_owned_address(&self) -> (r: Option<Address>)
        ensures
            r == first_owned(self.view().registry),
    {
        let ghost reg = self.view().registry;
        let mut i: usize = 0;
        while i < self.registry_len()
            invariant
                reg == self.view().registry,
                i <= reg.len(),
                first_owned(reg.subrange(0, i as int)) is None,
            decreases reg.len() - i,
        {
            let w = self.registry_at(i);
            assert(reg.subrange(0, i + 1).drop_last() =~= reg.subrange(0, i as int));
            if w.active && w.kind == AddressKind::Owned {
                proof {
                    lemma_first_owned_prefix(reg, i + 1);
                }
                return Some(w.address);
            }
            i = i + 1;
        }
        assert(reg.subrange(0, reg.len() as int) =~= reg);
        None
    }

    fn selection_candidates(&self) -> (r: Vec<Entry>)
        ensures
            r@ == candidates(self.view().registry, self.view().coins),
    {
        let ghost reg = self.view().registry;
        let ghost coins = self.view().coins;
        let mut cands: Vec<Entry> = Vec::new();
        let mut r: usize = self.registry_len();
        assert(reg.subrange(0, r as int) =~= reg);
        assert(cands@ + candidates(reg, coins) =~= candidates(reg, coins));
        while r > 0
            invariant
                reg == self.view().registry,
                coins == self.view().coins,
                r <= reg.len(),
                cands@ + candidates(reg.subrange(0, r as int), coins) == candidates(reg, coins),
            decreases r,
        {
            let w = self.registry_at(r - 1);
            let ghost base = cands@;
            let ghost sub = reg.subrange(0, r as int);
            assert(sub.drop_last() =~= reg.subrange(0, r - 1));
            assert(sub.last() == w);
            if w.active && w.kind == AddressKind::Owned {
                let mut i: usize = 0;
                while i < self.coin_count()
                    invariant
                        coins == self.view().coins,
                        i <= coins.len(),
                        cands@ == base + coins_of(coins.subrange(0, i as int), w.address),
                    decreases coins.len() - i,
                {
                    let e = self.coin_at(i);
                    assert(coins.subrange(0, i + 1).drop_last() =~= coins.subrange(0, i as int));
                    if e.coin.owner == w.address {
                        cands.push(e);
                        assert(cands@ =~= base + coins_of(coins.subrange(0, i + 1), w.address));
                    }
                    i = i + 1;
                }
                assert(coins.subrange(0, coins.len() as int) =~= coins);
                assert(cands@ + candidates(reg.subrange(0, r - 1), coins) =~= base + candidates(sub, coins));
            } else {
                assert(cands@ + candidates(reg.subrange(0, r - 1), coins) =~= base + candidates(sub, coins));
            }
            r = r - 1;
        }
        assert(cands@ + candidates(reg.subrange(0, 0), coins) =~= cands@);
        cands
    }

    /// A transaction that pays `amount` to `recipient` and leaves `tip`
    /// unclaimed, spending owned coins in selection order until they cover
    /// both; what they hold beyond that returns to the first owned address.
    pub fn create_automatic_transaction(&self, recipient: Address, amount: u64, tip: u64) -> (r: Result<Transaction, WalletError>)
        requires
            self.wf(),
        ensures
            ({
                let cands = candidates(self.view().registry, self.view().coins);
                let target = amount + tip;
                if !any_active(self.view().registry) {
                    r matches Err(x) && x == WalletError::NoOwnedAddresses
                } else if total(cands) < target {
                    r matches Err(x) && x == WalletError::OutputsExceedInputs
                } else {
                    r matches Ok(t) && {
                        let k = t.inputs@.len() as int;
                        &&& k <= cands.len()
                        &&& t.inputs@ == signed(cands.subrange(0, k))
                        &&& total(cands.subrange(0, k)) >= target
                        &&& (k > 0 ==> total(cands.subrange(0, k - 1)) < target)
                        &&& t.outputs@ == automatic_outputs(self.view().registry, recipient, amount, tip, total(cands.subrange(0, k)))
                    }
                }
            }),
    {
        if !self.has_active() {
            return Err(WalletError::NoOwnedAddresses);
        }
        let cands = self.selection_candidates();
        let target: u128 = amount as u128 + tip as u128;
        let mut acc: u128 = 0;
        let mut k: usize = 0;
        while k < cands.len() && acc < target
            invariant
                k <= cands@.len(),
                acc == total(cands@.subrange(0, k as int)),
                acc <= k * 0xffff_ffff_ffff_ffffint,
                k > 0 ==> total(cands@.subrange(0, k - 1)) < target,
            decreases cands@.len() - k,
        {
            let v = cands[k].coin.value;
            assert(cands@.subrange(0, k + 1) =~= cands@.subrange(0, k as int).push(cands@[k as int]));
            proof {
                lemma_total_push(cands@.subrange(0, k as int), cands@[k as int]);
            }
            assert(acc + v <= (k + 1) * 0xffff_ffff_ffff_ffffint) by (nonlinear_arith)
                requires
                    acc <= k * 0xffff_ffff_ffff_ffffint,
                    v <= 0xffff_ffff_ffff_ffffint;
            assert(cands@.subrange(0, k + 1).drop_last() =~= cands@.subrange(0, k as int));
            acc = acc + v as u128;
            k = k + 1;
        }
        if acc < target {
            assert(cands@.subrange(0, k as int) =~= cands@);
            return Err(WalletError::OutputsExceedInputs);
        }
        let mut inputs: Vec<Input> = Vec::new();
        let mut j: usize = 0;
        while j < k
            invariant
                k <= cands@.len(),
                j <= k,
                inputs@ == signed(cands@.subrange(0, j as int)),
            decreases k - j,
        {
            let e = cands[j];
            inputs.push(Input { coin_id: e.id, signature: Signature::Valid(e.coin.owner) });
            assert(inputs@ =~= signed(cands@.subrange(0, j + 1)));
            j = j + 1;
        }
        let mut outputs: Vec<Coin> = Vec::new();
        if !(amount == 0 && tip == 0) {
            outputs.push(Coin { value: amount, owner: recipient });
            if acc > target {
                proof {
                    lemma_candidates_owner(self.view().registry, self.view().coins);
                    assert(cands@.subrange(0, k as int) =~= cands@.subrange(0, k - 1).push(cands@[k - 1]));
                    lemma_total_push(cands@.subrange(0, k - 1), cands@[k - 1]);
                }
                let owner = self.first_owned_address().unwrap();
                outputs.push(Coin { value: (acc - target) as u64, owner });
            }
        }
        proof {
            lemma_total_prefix(cands@, k as int);
        }
        let t = Transaction { inputs, outputs };
        assert(t.outputs@ =~= automatic_outputs(self.view().registry, recipient, amount, tip, acc as int));
        Ok(t)
    }

    /// A transaction that spends every coin of `address` into one output of
    /// their whole value back to `address`.
    pub fn unify_address_utxos(&self, address: Address) -> (r: Result<Transaction, WalletError>)
        requires
            self.wf(),
            balance(self.view().coins, address) <= u64::MAX,
        ensures
            match query_error(self.view().registry, address) {
                Some(e) => r matches Err(x) && x == e,
                None => {
                    let ids = listing(self.view().coins, address).map_values(|p: (CoinId, u64)| p.0);
                    let outs = seq![Coin { value: balance(self.view().coins, address) as u64, owner: address }];
                    match manual_outcome(self.coin_map(), self.view().registry, ids, outs) {
                        Ok(ins) => r matches Ok(t) && t.inputs@ == ins && t.outputs@ == outs,
                        Err(e) => r matches Err(x) && x == e,
                    }
                },
            },
    {
        let coins = match self.all_coins_of(address) {
            Ok(c) => c,
            Err(e) => return Err(e),
        };
        let value = match self.total_assets_of(address) {
            Ok(v) => v,
            Err(e) => return Err(e),
        };
        let ghost listed = listing(self.view().coins, address);
        let mut ids: Vec<CoinId> = Vec::new();
        let mut i: usize = 0;
        while i < coins.len()
            invariant
                coins@ == listed,
                i <= coins@.len(),
                ids@ == listed.subrange(0, i as int).map_values(|p: (CoinId, u64)| p.0),
            decreases coins@.len() - i,
        {
            ids.push(coins[i].0);
            assert(ids@ =~= listed.subrange(0, i + 1).map_values(|p: (CoinId, u64)| p.0));
            i = i + 1;
        }
        assert(listed.subrange(0, listed.len() as int) =~= listed);
        let mut outs: Vec<Coin> = Vec::new();
        outs.push(Coin { value, owner: address });
        assert(outs@ =~= seq![Coin { value: balance(self.view().coins, address) as u64, owner: address }]);
        self.create_manual_transaction(ids, outs)
    }
}

/// A visible owned address in a prefix of the registry is the first of the whole.
proof fn lemma_first_owned_prefix(reg: Seq<Watched>, n: int)
    requires
        0 < n <= reg.len(),
        first_owned(reg.subrange(0, n)) is Some,
    ensures
        first_owned(reg) == first_owned(reg.subrange(0, n)),
    decreases reg.len() - n,
{
    if n < reg.len() {
        assert(reg.subrange(0, n + 1).drop_last() =~= reg.subrange(0, n));
        lemma_first_owned_prefix(reg, n + 1);
    } else {
        assert(reg.subrange(0, n) =~= reg);
    }
}

/// Once a prefix of `ids` fails to resolve, every longer prefix fails the same way.
proof fn lemma_resolve_err(m: Map<CoinId, Entry>, reg: Seq<Watched>, ids: Seq<CoinId>, n: int)
    requires
        0 < n <= ids.len(),
        resolve(m, reg, ids.subrange(0, n)) is Err,
    ensures
        resolve(m, reg, ids) == resolve(m, reg, ids.subrange(0, n)),
    decreases ids.len() - n,
{
    if n < ids.len() {
        assert(ids.subrange(0, n + 1).drop_last() =~= ids.subrange(0, n));
        lemma_resolve_err(m, reg, ids, n + 1);
    } else {
        assert(ids.subrange(0, n) =~= ids);
    }
}

} // verus!
