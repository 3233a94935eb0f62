//! Ready-made wallets and transactions for driving the library by hand.

use vstd::prelude::*;
use crate::types::{Address, AddressKind, Coin, CoinId, Input, Signature, Transaction};
use crate::wallet::{Wallet, active_kind, any_active, initial_registry};
use crate::node::NodeView;
use crate::encoding::genesis_id;

verus! {

/// A wallet at genesis that owns each of `addresses`.
pub fn wallet_with_addresses(addresses: Vec<Address>) -> (r: Wallet)
    ensures
        r.wf(),
        r.view().tip == genesis_id(),
        r.view().height == 0,
        r.view().coins.len() == 0,
        r.chain_view() == seq![genesis_id()],
        r.view().registry == initial_registry(addresses@),
        any_active(r.view().registry) == (addresses@.len() > 0),
        forall|n: NodeView| #[trigger] n.wf() ==> r.consistent_with(n),
        forall|a: Address| #[trigger] active_kind(r.view().registry, a) == if addresses@.contains(a) {
            Some(AddressKind::Owned)
        } else {
            None::<AddressKind>
        },
{
    Wallet::new(addresses)
}

/// A wallet at genesis that holds no address.
pub fn empty_wallet() -> (r: Wallet)
    ensures
        r.wf(),
        r.view().tip == genesis_id(),
        r.view().height == 0,
        r.view().coins.len() == 0,
        r.chain_view() == seq![genesis_id()],
        r.view().registry == initial_registry(Seq::<Address>::empty()),
        any_active(r.view().registry) == false,
        forall|n: NodeView| #[trigger] n.wf() ==> r.consistent_with(n),
        forall|a: Address| #[trigger] active_kind(r.view().registry, a) is None,
{
    let v: Vec<Address> = Vec::new();
    let r = wallet_with_addresses(v);
    assert(v@ =~= Seq::<Address>::empty());
    assert forall|a: Address| #[trigger] active_kind(r.view().registry, a) is None by {
        assert(!Seq::<Address>::empty().contains(a));
    }
    r
}

/// A wallet at genesis that owns Alice.
pub fn wallet_with_alice() -> (r: Wallet)
    ensures
        r.wf(),
        r.view().tip == genesis_id(),
        r.view().height == 0,
        r.view().coins.len() == 0,
        r.chain_view() == seq![genesis_id()],
        r.view().registry == initial_registry(seq![Address::Alice]),
        any_active(r.view().registry) == true,
        forall|n: NodeView| #[trigger] n.wf() ==> r.consistent_with(n),
        forall|a: Address| #[trigger] active_kind(r.view().registry, a) == if a == Address::Alice {
            Some(AddressKind::Owned)
        } else {
            None::<AddressKind>
        },
{
    let v = vec![Address::Alice];
    let r = wallet_with_addresses(v);
    assert(v@ =~= seq![Address::Alice]);
    assert forall|a: Address| #[trigger] active_kind(r.view().registry, a) == if a == Address::Alice {
        Some(AddressKind::Owned)
    } else {
        None::<AddressKind>
    } by {
        if a == Address::Alice {
            assert(v@[0] == a);
        }
    }
    r
}

/// A wallet at genesis that owns Alice and Bob.
pub fn wallet_with_alice_and_bob() -> (r: Wallet)
    ensures
        r.wf(),
        r.view().tip == genesis_id(),
        r.view().height == 0,
        r.view().coins.len() == 0,
        r.chain_view() == seq![genesis_id()],
        r.view().registry == initial_registry(seq![Address::Alice, Address::Bob]),
        any_active(r.view().registry) == true,
        forall|n: NodeView| #[trigger] n.wf() ==> r.consistent_with(n),
        forall|a: Address| #[trigger] active_kind(r.view().registry, a) == if a == Address::Alice || a == Address::Bob {
            Some(AddressKind::Owned)
        } else {
            None::<AddressKind>
        },
{
    let v = vec![Address::Alice, Address::Bob];
    let r = wallet_with_addresses(v);
    assert(v@ =~= seq![Address::Alice, Address::Bob]);
    assert forall|a: Address| #[trigger] active_kind(r.view().registry, a) == if a == Address::Alice || a == Address::Bob {
        Some(AddressKind::Owned)
    } else {
        None::<AddressKind>
    } by {
        if a == Address::Alice {
            assert(v@[0] == a);
        }
        if a == Address::Bob {
            assert(v@[1] == a);
        }
    }
    r
}

/// A wallet at genesis that owns Alice, Bob and Charlie.
pub fn wallet_with_alice_and_bob_and_charlie() -> (r: Wallet)
    ensures
        r.wf(),
        r.view().tip == genesis_id(),
        r.view().height == 0,
        r.view().coins.len() == 0,
        r.chain_view() == seq![genesis_id()],
        r.view().registry == initial_registry(seq![Address::Alice, Address::Bob, Address::Charlie]),
        any_active(r.view().registry) == true,
        forall|n: NodeView| #[trigger] n.wf() ==> r.consistent_with(n),
        forall|a: Address| #[trigger] active_kind(r.view().registry, a) == if a == Address::Alice || a == Address::Bob
            || a == Address::Charlie {
            Some(AddressKind::Owned)
        } else {
            None::<AddressKind>
        },
{
    let v = vec![Address::Alice, Address::Bob, Address::Charlie];
    let r = wallet_with_addresses(v);
    assert(v@ =~= seq![Address::Alice, Address::Bob, Address::Charlie]);
    assert forall|a: Address| #[trigger] active_kind(r.view().registry, a) == if a == Address::Alice || a == Address::Bob
        || a == Address::Charlie {
        Some(AddressKind::Owned)
    } else {
        None::<AddressKind>
    } by {
        if a == Address::Alice {
            assert(v@[0] == a);
        }
        if a == Address::Bob {
            assert(v@[1] == a);
        }
        if a == Address::Charlie {
            assert(v@[2] == a);
        }
    }
    r
}

/// A transaction that spends the dummy input into one coin of 123 to
/// `Custom(123)`; putting it on one side of a fork makes the two sides differ.
pub fn marker_tx() -> (r: Transaction)
    ensures
        r.inputs@ == seq![Input { coin_id: CoinId(0), signature: Signature::Invalid }],
        r.outputs@ == seq![Coin { value: 123, owner: Address::Custom(123) }],
{
    let inputs = vec![Input::dummy()];
    let outputs = vec![Coin { value: 123, owner: Address::Custom(123) }];
    let r = Transaction { inputs, outputs };
    assert(r.inputs@ =~= seq![Input { coin_id: CoinId(0), signature: Signature::Invalid }]);
    assert(r.outputs@ =~= seq![Coin { value: 123, owner: Address::Custom(123) }]);
    r
}

/// A transaction with no inputs that mints `values[i]` to `addresses[i]`.
pub fn multiple_mint(addresses: Vec<Address>, values: Vec<u64>) -> (r: Transaction)
    requires
        addresses@.len() == values@.len(),
    ensures
        r.inputs@.len() == 0,
        r.outputs@.len() == addresses@.len(),
        forall|i: int| 0 <= i < addresses@.len() ==> #[trigger] r.outputs@[i] == (Coin { value: values@[i], owner: addresses@[i] }),
{
    let mut outputs: Vec<Coin> = Vec::new();
    let mut i: usize = 0;
    while i < addresses.len()
        invariant
            addresses@.len() == values@.len(),
            i <= addresses@.len(),
            outputs@.len() == i,
            forall|k: int| 0 <= k < i ==> #[trigger] outputs@[k] == (Coin { value: values@[k], owner: addresses@[k] }),
        decreases addresses@.len() - i,
    {
        outputs.push(Coin { value: values[i], owner: addresses[i] });
        i = i + 1;
    }
    Transaction { inputs: Vec::new(), outputs }
}

} // verus!
