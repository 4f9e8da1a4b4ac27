//! Change sets: pending create / update / delete operations on the code and
//! data slots of accounts, kept in canonical key order.

use vstd::prelude::*;

use crate::keys::{find_key, lemma_to_map_remove, to_map};
use crate::order::{insert_sorted, lemma_sorted_remove, lemma_sorted_unique, sorted_keys};

verus! {

/// Width of an account address, in bytes.
pub const ADDRESS_LENGTH: usize = 32;

/// One pending mutation of one slot.
pub enum Op {
    Create(Vec<u8>),
    Update(Vec<u8>),
    Delete,
}

pub enum OpView {
    Create(Seq<u8>),
    Update(Seq<u8>),
    Delete,
}

impl View for Op {
    type V = OpView;

    open spec fn view(&self) -> OpView {
        match self {
            Op::Create(b) => OpView::Create(b@),
            Op::Update(b) => OpView::Update(b@),
            Op::Delete => OpView::Delete,
        }
    }
}

/// The changes to one account: code slots keyed by module name, data slots
/// keyed by the canonical encoding of a type tag. Each list is sorted.
pub struct AccountChanges {
    pub modules: Vec<(Vec<u8>, Op)>,
    pub resources: Vec<(Vec<u8>, Op)>,
}

pub struct AccountChangesView {
    pub modules: Map<Seq<u8>, OpView>,
    pub resources: Map<Seq<u8>, OpView>,
}

impl View for AccountChanges {
    type V = AccountChangesView;

    open spec fn view(&self) -> AccountChangesView {
        AccountChangesView { modules: to_map(self.modules@), resources: to_map(self.resources@) }
    }
}

impl AccountChanges {
    pub open spec fn wf(&self) -> bool {
        sorted_keys(self.modules@) && sorted_keys(self.resources@)
    }

    pub fn new() -> (r: AccountChanges)
        ensures
            r.wf(),
            r.modules@.len() == 0,
            r.resources@.len() == 0,
            r@.modules == Map::<Seq<u8>, OpView>::empty(),
            r@.resources == Map::<Seq<u8>, OpView>::empty(),
    {
        AccountChanges { modules: Vec::new(), resources: Vec::new() }
    }
}

/// The changes of one execution, by account address, in ascending address
/// order.
pub struct ChangeSet {
    pub accounts: Vec<(Vec<u8>, AccountChanges)>,
}

/// The changes recorded for `addr`, or none.
pub open spec fn changes_of(m: Map<Seq<u8>, AccountChangesView>, addr: Seq<u8>) -> AccountChangesView {
    if m.contains_key(addr) {
        m[addr]
    } else {
        AccountChangesView { modules: Map::empty(), resources: Map::empty() }
    }
}

impl View for ChangeSet {
    type V = Map<Seq<u8>, AccountChangesView>;

    open spec fn view(&self) -> Map<Seq<u8>, AccountChangesView> {
        to_map(self.accounts@)
    }
}

impl ChangeSet {
    pub open spec fn wf(&self) -> bool {
        &&& sorted_keys(self.accounts@)
        &&& forall|i: int|
            0 <= i < self.accounts@.len() ==> (#[trigger] self.accounts@[i]).0@.len() == ADDRESS_LENGTH
                && self.accounts@[i].1.wf()
    }

    /// A change set with no accounts.
    pub fn new() -> (r: ChangeSet)
        ensures
            r.wf(),
            r@ == Map::<Seq<u8>, AccountChangesView>::empty(),
            r.accounts@.len() == 0,
    {
        ChangeSet { accounts: Vec::new() }
    }

    /// Number of accounts with changes.
    pub fn num_accounts(&self) -> (r: usize)
        ensures
            r == self.accounts@.len(),
    {
        self.accounts.len()
    }

    /// Takes out the changes of `addr`, or fresh empty ones.
    fn take_account(&mut self, addr: &Vec<u8>) -> (r: AccountChanges)
        requires
            old(self).wf(),
        ensures
            final(self).wf(),
            final(self)@ == old(self)@.remove(addr@),
            r.wf(),
            r@ == changes_of(old(self)@, addr@),
    {
        proof {
            lemma_sorted_unique(self.accounts@);
        }
        match find_key(&self.accounts, addr) {
            Some(i) => {
                proof {
                    lemma_to_map_remove(self.accounts@, i as int);
                    lemma_sorted_remove(self.accounts@, i as int);
                    crate::keys::lemma_to_map_index(self.accounts@, i as int);
                }
                let ghost o = self.accounts@;
                let (_, ch) = self.accounts.remove(i);
                proof {
                    assert forall|j: int| 0 <= j < self.accounts@.len() implies (
                    #[trigger] self.accounts@[j]).0@.len() == ADDRESS_LENGTH
                        && self.accounts@[j].1.wf() by {
                        if j < i {
                            assert(self.accounts@[j] == o[j]);
                        } else {
                            assert(self.accounts@[j] == o[j + 1]);
                        }
                    }
                    assert(o[i as int].1.wf());
                }
                ch
            },
            None => {
                proof {
                    crate::keys::lemma_to_map_absent(self.accounts@, addr@);
                    assert(self@ =~= old(self)@.remove(addr@));
                }
                AccountChanges::new()
            },
        }
    }

    /// Puts the changes of `addr` back in their place.
    fn put_account(&mut self, addr: Vec<u8>, ch: AccountChanges)
        requires
            old(self).wf(),
            addr@.len() == ADDRESS_LENGTH,
            ch.wf(),
        ensures
            final(self).wf(),
            final(self)@ == old(self)@.insert(addr@, ch@),
    {
        let ghost o = self.accounts@;
        let ghost e = (addr, ch);
        let idx = insert_sorted(&mut self.accounts, addr, ch);
        proof {
            assert forall|j: int| 0 <= j < self.accounts@.len() implies (
            #[trigger] self.accounts@[j]).0@.len() == ADDRESS_LENGTH && self.accounts@[j].1.wf() by {
                if self.accounts@ == o.insert(idx as int, e) {
                    if j < idx {
                        assert(self.accounts@[j] == o[j]);
                    } else if j > idx {
                        assert(self.accounts@[j] == o[j - 1]);
                    }
                } else {
                    if j != idx {
                        assert(self.accounts@[j] == o[j]);
                    }
                }
            }
        }
    }

    /// Records `op` on the code slot `name` of account `addr`, replacing an
    /// earlier operation on that slot.
    pub fn add_module_op(&mut self, addr: Vec<u8>, name: Vec<u8>, op: Op)
        requires
            old(self).wf(),
            addr@.len() == ADDRESS_LENGTH,
        ensures
            final(self).wf(),
            final(self)@ == old(self)@.insert(
                addr@,
                AccountChangesView {
                    modules: changes_of(old(self)@, addr@).modules.insert(name@, op@),
                    resources: changes_of(old(self)@, addr@).resources,
                },
            ),
    {
        let mut ch = self.take_account(&addr);
        insert_sorted(&mut ch.modules, name, op);
        self.put_account(addr, ch);
        proof {
            assert(self@ =~= old(self)@.insert(addr@, self@[addr@]));
        }
    }

    /// Records `op` on the data slot `tag` (a canonical type-tag encoding) of
    /// account `addr`, replacing an earlier operation on that slot.
    pub fn add_resource_op(&mut self, addr: Vec<u8>, tag: Vec<u8>, op: Op)
        requires
            old(self).wf(),
            addr@.len() == ADDRESS_LENGTH,
        ensures
            final(self).wf(),
            final(self)@ == old(self)@.insert(
                addr@,
                AccountChangesView {
                    modules: changes_of(old(self)@, addr@).modules,
                    resources: changes_of(old(self)@, addr@).resources.insert(tag@, op@),
                },
            ),
    {
        let mut ch = self.take_account(&addr);
        insert_sorted(&mut ch.resources, tag, op);
        self.put_account(addr, ch);
        proof {
            assert(self@ =~= old(self)@.insert(addr@, self@[addr@]));
        }
    }
}

} // verus!
