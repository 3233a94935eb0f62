//! Adding and removing the addresses a wallet holds. An address added after
//! the fact is caught up by a rescan of the blocks from its restore height.

use vstd::prelude::*;
use crate::types::{Address, AddressKind, WalletError};
use crate::ledger::{Watched, follows, scope_of};
use crate::node::MockNode;
use crate::wallet::{Wallet, active_kind, lemma_active_kind, lemma_slot_of, rescan_cost, slot_of};

verus! {

/// What the registry says of `a` after an entry is rewritten or added, and
/// that it says the same of every other address.
proof fn lemma_kinds_after(old_reg: Seq<Watched>, new_reg: Seq<Watched>, a: Address)
    requires
        forall|i: int, j: int| 0 <= i < j < old_reg.len() ==> #[trigger] old_reg[i].address != #[trigger] old_reg[j].address,
        forall|i: int, j: int| 0 <= i < j < new_reg.len() ==> #[trigger] new_reg[i].address != #[trigger] new_reg[j].address,
        old_reg.len() <= new_reg.len(),
        forall|i: int| 0 <= i < old_reg.len() && (#[trigger] old_reg[i]).address != a ==> new_reg[i] == old_reg[i],
        forall|i: int| 0 <= i < old_reg.len() ==> (#[trigger] new_reg[i]).address == old_reg[i].address,
        forall|i: int| old_reg.len() <= i < new_reg.len() ==> (#[trigger] new_reg[i]).address == a,
    ensures
        forall|b: Address| b != a ==> #[trigger] active_kind(new_reg, b) == active_kind(old_reg, b),
{
    assert forall|b: Address| b != a implies #[trigger] active_kind(new_reg, b) == active_kind(old_reg, b) by {
        lemma_active_kind(old_reg, b);
        lemma_active_kind(new_reg, b);
        if exists|i: int| 0 <= i < old_reg.len() && (#[trigger] old_reg[i]).address == b {
            let i = choose|i: int| 0 <= i < old_reg.len() && (#[trigger] old_reg[i]).address == b;
            assert(new_reg[i] == old_reg[i]);
        } else {
            assert forall|k: int| 0 <= k < new_reg.len() implies (#[trigger] new_reg[k]).address != b by {
                if k < old_reg.len() {
                    assert(old_reg[k].address != b);
                    assert(new_reg[k].address == old_reg[k].address);
                }
            }
        }
    }
}

impl Wallet {
    fn add_address(&mut self, address: Address, node: &mut MockNode, restore_height: u64, kind: AddressKind)
        requires
            old(self).wf(),
            old(node).wf(),
            old(node).queries() + old(self).view().height <= u64::MAX,
            old(self).consistent_with(old(node).view()),
        ensures
            final(node).wf(),
            final(node).view() == old(node).view(),
            final(node).queries() == old(node).queries() + match slot_of(old(self).view().registry, address) {
                Some(i) => if old(self).view().registry[i].active {
                    0
                } else {
                    rescan_cost(
                        old(self).view().height,
                        (if old(self).view().registry[i].from < restore_height {
                            old(self).view().registry[i].from
                        } else {
                            restore_height
                        }) as nat,
                    )
                },
                None => rescan_cost(old(self).view().height, restore_height as nat),
            },
            final(self).wf(),
            final(self).consistent_with(old(node).view()),
            final(self).view().tip == old(self).view().tip,
            final(self).view().height == old(self).view().height,
            final(self).view().registry == match slot_of(old(self).view().registry, address) {
                Some(i) => if old(self).view().registry[i].active {
                    old(self).view().registry
                } else {
                    old(self).view().registry.update(i, Watched { address, kind: kind, from: restore_height, active: true })
                },
                None => old(self).view().registry.push(Watched { address, kind: kind, from: restore_height, active: true }),
            },
            active_kind(final(self).view().registry, address) == match active_kind(old(self).view().registry, address) {
                Some(k) => Some(k),
                None => Some(kind),
            },
            forall|b: Address| b != address ==> #[trigger] active_kind(final(self).view().registry, b)
                == active_kind(old(self).view().registry, b),
            active_kind(old(self).view().registry, address) is Some ==> final(self).view() == old(self).view(),
            active_kind(old(self).view().registry, address) is None ==> forall|h: int| h >= restore_height ==> #[trigger] follows(
                scope_of(final(self).view().registry),
                address,
                h,
            ),
    {
        let ghost old_reg = self.view().registry;
        proof {
            self.lemma_registry_unique();
            lemma_active_kind(old_reg, address);
            lemma_slot_of(old_reg, address);
        }
        match self.registry_at_index(address) {
            Some(i) => {
                let w = self.registry_at(i);
                if w.active {
                    return;
                }
                self.rescan(node, Watched { address, kind, from: restore_height, active: true }, Some(i));
                proof {
                    let new_reg = self.view().registry;
                    self.lemma_registry_unique();
                    lemma_active_kind(new_reg, address);
                    assert(new_reg[i as int].address == address);
                    lemma_kinds_after(old_reg, new_reg, address);
                    assert forall|h: int| h >= restore_height implies #[trigger] follows(scope_of(new_reg), address, h) by {
                        assert(scope_of(new_reg)[i as int] == (new_reg[i as int].address, new_reg[i as int].from));
                    }
                }
            },
            None => {
                let w = Watched { address, kind, from: restore_height, active: true };
                self.rescan(node, w, None);
                proof {
                    let new_reg = self.view().registry;
                    self.lemma_registry_unique();
                    lemma_active_kind(new_reg, address);
                    assert(new_reg[old_reg.len() as int] == w);
                    lemma_kinds_after(old_reg, new_reg, address);
                    assert forall|h: int| h >= restore_height implies #[trigger] follows(scope_of(new_reg), address, h) by {
                        assert(scope_of(new_reg)[old_reg.len() as int] == (address, restore_height));
                    }
                }
            },
        }
    }

    /// Holds `address` as owned from now on, unless it is held already (a
    /// watched address stays watched), and catches its coins up from
    /// `restore_height` with the blocks the node holds.
    pub fn add_owned_address(&mut self, address: Address, node: &mut MockNode, restore_height: u64)
        requires
            old(self).wf(),
            old(node).wf(),
            old(node).queries() + old(self).view().height <= u64::MAX,
            old(self).consistent_with(old(node).view()),
        ensures
            final(node).wf(),
            final(node).view() == old(node).view(),
            final(node).queries() == old(node).queries() + match slot_of(old(self).view().registry, address) {
                Some(i) => if old(self).view().registry[i].active {
                    0
                } else {
                    rescan_cost(
                        old(self).view().height,
                        (if old(self).view().registry[i].from < restore_height {
                            old(self).view().registry[i].from
                        } else {
                            restore_height
                        }) as nat,
                    )
                },
                None => rescan_cost(old(self).view().height, restore_height as nat),
            },
            final(self).wf(),
            final(self).consistent_with(old(node).view()),
            final(self).view().tip == old(self).view().tip,
            final(self).view().height == old(self).view().height,
            final(self).view().registry == match slot_of(old(self).view().registry, address) {
                Some(i) => if old(self).view().registry[i].active {
                    old(self).view().registry
                } else {
                    old(self).view().registry.update(i, Watched { address, kind: AddressKind::Owned, from: restore_height, active: true })
                },
                None => old(self).view().registry.push(Watched { address, kind: AddressKind::Owned, from: restore_height, active: true }),
            },
            active_kind(final(self).view().registry, address) == match active_kind(old(self).view().registry, address) {
                Some(k) => Some(k),
                None => Some(AddressKind::Owned),
            },
            forall|b: Address| b != address ==> #[trigger] active_kind(final(self).view().registry, b)
                == active_kind(old(self).view().registry, b),
            active_kind(old(self).view().registry, address) is Some ==> final(self).view() == old(self).view(),
            active_kind(old(self).view().registry, address) is None ==> forall|h: int| h >= restore_height ==> #[trigger] follows(
                scope_of(final(self).view().registry),
                address,
                h,
            ),
    {
        self.add_address(address, node, restore_height, AddressKind::Owned);
    }

    /// Holds `address` as watched from now on, unless it is held already (an
    /// owned address stays owned), and catches its coins up from
    /// `restore_height` with the blocks the node holds.
    pub fn add_watch_only_address(&mut self, address: Address, node: &mut MockNode, restore_height: u64)
        requires
            old(self).wf(),
            old(node).wf(),
            old(node).queries() + old(self).view().height <= u64::MAX,
            old(self).consistent_with(old(node).view()),
        ensures
            final(node).wf(),
            final(node).view() == old(node).view(),
            final(node).queries() == old(node).queries() + match slot_of(old(self).view().registry, address) {
                Some(i) => if old(self).view().registry[i].active {
                    0
                } else {
                    rescan_cost(
                        old(self).view().height,
                        (if old(self).view().registry[i].from < restore_height {
                            old(self).view().registry[i].from
                        } else {
                            restore_height
                        }) as nat,
                    )
                },
                None => rescan_cost(old(self).view().height, restore_height as nat),
            },
            final(self).wf(),
            final(self).consistent_with(old(node).view()),
            final(self).view().tip == old(self).view().tip,
            final(self).view().height == old(self).view().height,
            final(self).view().registry == match slot_of(old(self).view().registry, address) {
                Some(i) => if old(self).view().registry[i].active {
                    old(self).view().registry
                } else {
                    old(self).view().registry.update(i, Watched { address, kind: AddressKind::WatchOnly, from: restore_height, active: true })
                },
                None => old(self).view().registry.push(Watched { address, kind: AddressKind::WatchOnly, from: restore_height, active: true }),
            },
            active_kind(final(self).view().registry, address) == match active_kind(old(self).view().registry, address) {
                Some(k) => Some(k),
                None => Some(AddressKind::WatchOnly),
            },
            forall|b: Address| b != address ==> #[trigger] active_kind(final(self).view().registry, b)
                == active_kind(old(self).view().registry, b),
            active_kind(old(self).view().registry, address) is Some ==> final(self).view() == old(self).view(),
            active_kind(old(self).view().registry, address) is None ==> forall|h: int| h >= restore_height ==> #[trigger] follows(
                scope_of(final(self).view().registry),
                address,
                h,
            ),
    {
        self.add_address(address, node, restore_height, AddressKind::WatchOnly);
    }

    /// Stops showing `address` to queries; its coins no longer count.
    pub fn remove_address(&mut self, address: Address) -> (r: Result<(), WalletError>)
        requires
            old(self).wf(),
        ensures
            final(self).wf(),
            final(self).view().tip == old(self).view().tip,
            final(self).view().height == old(self).view().height,
            final(self).view().coins == old(self).view().coins,
            final(self).view().registry == match slot_of(old(self).view().registry, address) {
                Some(i) => if old(self).view().registry[i].active {
                    old(self).view().registry.update(i, Watched {
                        address,
                        kind: old(self).view().registry[i].kind,
                        from: old(self).view().registry[i].from,
                        active: false,
                    })
                } else {
                    old(self).view().registry
                },
                None => old(self).view().registry,
            },
            forall|n| old(self).consistent_with(n) ==> #[trigger] final(self).consistent_with(n),
            forall|b: Address| b != address ==> #[trigger] active_kind(final(self).view().registry, b)
                == active_kind(old(self).view().registry, b),
            active_kind(old(self).view().registry, address) is Some ==> r == Ok::<(), WalletError>(()) && active_kind(
                final(self).view().registry,
                address,
            ) is None,
            active_kind(old(self).view().registry, address) is None ==> r == Err::<(), WalletError>(WalletError::ForeignAddress)
                && final(self).view() == old(self).view(),
    {
        let ghost old_reg = self.view().registry;
        proof {
            self.lemma_registry_unique();
            lemma_active_kind(old_reg, address);
            lemma_slot_of(old_reg, address);
        }
        match self.registry_at_index(address) {
            Some(i) => {
                let w = self.registry_at(i);
                if !w.active {
                    return Err(WalletError::ForeignAddress);
                }
                self.update_entry(i, Watched { active: false, ..w });
                proof {
                    let new_reg = self.view().registry;
                    self.lemma_registry_unique();
                    lemma_active_kind(new_reg, address);
                    assert(new_reg[i as int].address == address);
                    lemma_kinds_after(old_reg, new_reg, address);
                }
                Ok(())
            },
            None => Err(WalletError::ForeignAddress),
        }
    }
}

} // verus!
