//! The in-memory snapshot store: materialized code and data slots per
//! account, plain lookups, and all-or-nothing application of change sets.

use vstd::prelude::*;

use crate::changes::{AccountChanges, AccountChangesView, ChangeSet, Op, OpView};
use crate::keys::{
    find_key, insert_entry, keys_unique, lemma_to_map_absent, lemma_to_map_has, lemma_to_map_index,
    lemma_to_map_remove, lookup, to_map,
};
use crate::order::{insert_sorted, lemma_sorted_unique, remove_sorted, sorted_keys};

verus! {

/// Why a change set could not be applied.
pub enum ApplyError {
    /// A `Create` names a slot that already exists.
    KeyAlreadyExists(Vec<u8>),
    /// An `Update` or `Delete` names a slot that does not exist.
    KeyNotFound(Vec<u8>),
}

/// The code and data slots of one account.
pub struct InMemoryAccountStorage {
    pub resources: Vec<(Vec<u8>, Vec<u8>)>,
    pub modules: Vec<(Vec<u8>, Vec<u8>)>,
}

pub struct AccountView {
    pub modules: Map<Seq<u8>, Seq<u8>>,
    pub resources: Map<Seq<u8>, Seq<u8>>,
}

impl View for InMemoryAccountStorage {
    type V = AccountView;

    open spec fn view(&self) -> AccountView {
        AccountView { modules: to_map(self.modules@), resources: to_map(self.resources@) }
    }
}

/// An account with no slots.
pub open spec fn empty_account() -> AccountView {
    AccountView { modules: Map::empty(), resources: Map::empty() }
}

/// The snapshot of `addr`, or an empty one where the account does not exist.
pub open spec fn account_of(st: Map<Seq<u8>, AccountView>, addr: Seq<u8>) -> AccountView {
    if st.contains_key(addr) {
        st[addr]
    } else {
        empty_account()
    }
}

/// One operation, applied to one slot mapping.
pub open spec fn apply_op(m: Map<Seq<u8>, Seq<u8>>, k: Seq<u8>, op: OpView) -> Map<Seq<u8>, Seq<u8>> {
    match op {
        OpView::Create(v) => m.insert(k, v),
        OpView::Update(v) => m.insert(k, v),
        OpView::Delete => m.remove(k),
    }
}

/// A list of operations, applied in order.
pub open spec fn apply_ops(m: Map<Seq<u8>, Seq<u8>>, ops: Seq<(Vec<u8>, Op)>) -> Map<Seq<u8>, Seq<u8>>
    decreases ops.len(),
{
    if ops.len() == 0 {
        m
    } else {
        apply_op(apply_ops(m, ops.drop_last()), ops.last().0@, ops.last().1@)
    }
}

/// The operation does not conflict with the slots `m`: a `Create` names an
/// absent slot, an `Update` or `Delete` a present one.
pub open spec fn op_ok(m: Map<Seq<u8>, Seq<u8>>, k: Seq<u8>, op: OpView) -> bool {
    match op {
        OpView::Create(_) => !m.contains_key(k),
        _ => m.contains_key(k),
    }
}

pub open spec fn ops_ok(m: Map<Seq<u8>, Seq<u8>>, ops: Seq<(Vec<u8>, Op)>) -> bool {
    forall|i: int| 0 <= i < ops.len() ==> op_ok(m, (#[trigger] ops[i]).0@, ops[i].1@)
}

pub open spec fn account_ok(a: AccountView, ch: AccountChanges) -> bool {
    ops_ok(a.modules, ch.modules@) && ops_ok(a.resources, ch.resources@)
}

pub open spec fn apply_account(a: AccountView, ch: AccountChanges) -> AccountView {
    AccountView {
        modules: apply_ops(a.modules, ch.modules@),
        resources: apply_ops(a.resources, ch.resources@),
    }
}

/// No operation of the change set conflicts with the state `st`.
pub open spec fn changes_ok(st: Map<Seq<u8>, AccountView>, cs: Seq<(Vec<u8>, AccountChanges)>) -> bool {
    forall|i: int| 0 <= i < cs.len() ==> account_ok(account_of(st, (#[trigger] cs[i]).0@), cs[i].1)
}

/// The state after the change set, account by account.
pub open spec fn apply_changes(st: Map<Seq<u8>, AccountView>, cs: Seq<(Vec<u8>, AccountChanges)>) -> Map<
    Seq<u8>,
    AccountView,
>
    decreases cs.len(),
{
    if cs.len() == 0 {
        st
    } else {
        let prev = apply_changes(st, cs.drop_last());
        prev.insert(cs.last().0@, apply_account(account_of(prev, cs.last().0@), cs.last().1))
    }
}

/// The operation is a conflict of the kind that `e` reports.
pub open spec fn reports(e: ApplyError, m: Map<Seq<u8>, Seq<u8>>, k: Seq<u8>, op: OpView) -> bool {
    match e {
        ApplyError::KeyAlreadyExists(key) => key@ == k && op is Create && m.contains_key(k),
        ApplyError::KeyNotFound(key) => key@ == k && !(op is Create) && !m.contains_key(k),
    }
}

/// `e` reports the first operation of `ops` that conflicts with `m`.
pub open spec fn first_in_ops(e: ApplyError, m: Map<Seq<u8>, Seq<u8>>, ops: Seq<(Vec<u8>, Op)>) -> bool {
    exists|j: int|
        0 <= j < ops.len() && #[trigger] reports(e, m, ops[j].0@, ops[j].1@) && forall|j2: int|
            0 <= j2 < j ==> op_ok(m, (#[trigger] ops[j2]).0@, ops[j2].1@)
}

/// `e` reports the first conflict of the changes `ch` with the account `a`:
/// code slots are checked before data slots.
pub open spec fn first_in_account(e: ApplyError, a: AccountView, ch: AccountChanges) -> bool {
    first_in_ops(e, a.modules, ch.modules@) || (ops_ok(a.modules, ch.modules@) && first_in_ops(
        e,
        a.resources,
        ch.resources@,
    ))
}

/// `e` reports the first conflict of the change set `cs` with the state
/// `st`, accounts taken in the order of `cs`.
pub open spec fn first_conflict(e: ApplyError, st: Map<Seq<u8>, AccountView>, cs: Seq<(Vec<u8>, AccountChanges)>) -> bool {
    exists|i: int|
        0 <= i < cs.len() && #[trigger] first_in_account(e, account_of(st, cs[i].0@), cs[i].1) && forall|
            i2: int,
        | 0 <= i2 < i ==> account_ok(account_of(st, (#[trigger] cs[i2]).0@), cs[i2].1)
}

/// The slot `k` shows the effect of `op`.
pub open spec fn op_took_effect(after: Map<Seq<u8>, Seq<u8>>, k: Seq<u8>, op: OpView) -> bool {
    match op {
        OpView::Create(v) => after.contains_key(k) && after[k] == v,
        OpView::Update(v) => after.contains_key(k) && after[k] == v,
        OpView::Delete => !after.contains_key(k),
    }
}

/// Some entry of the list has key `k`.
pub open spec fn touches<V>(s: Seq<(Vec<u8>, V)>, k: Seq<u8>) -> bool {
    exists|i: int| 0 <= i < s.len() && (#[trigger] s[i]).0@ == k
}

/// `after` shows the effect of every operation of `ops`, and agrees with
/// `before` on every slot that no operation names.
pub open spec fn ops_took_effect(
    before: Map<Seq<u8>, Seq<u8>>,
    after: Map<Seq<u8>, Seq<u8>>,
    ops: Seq<(Vec<u8>, Op)>,
) -> bool {
    &&& forall|i: int| 0 <= i < ops.len() ==> op_took_effect(after, (#[trigger] ops[i]).0@, ops[i].1@)
    &&& forall|k: Seq<u8>|
        !touches(ops, k) ==> (#[trigger] after.contains_key(k) == before.contains_key(k) && (
        before.contains_key(k) ==> after[k] == before[k]))
}

proof fn lemma_apply_ops_correct(m: Map<Seq<u8>, Seq<u8>>, ops: Seq<(Vec<u8>, Op)>)
    requires
        keys_unique(ops),
    ensures
        ops_took_effect(m, apply_ops(m, ops), ops),
    decreases ops.len(),
{
    if ops.len() > 0 {
        let d = ops.drop_last();
        let l = ops.len() - 1;
        assert forall|a: int, b: int|
            0 <= a < d.len() && 0 <= b < d.len() && a != b implies #[trigger] d[a].0@ != #[trigger] d[b].0@ by {
            assert(d[a] == ops[a] && d[b] == ops[b]);
        }
        lemma_apply_ops_correct(m, d);
        let prev = apply_ops(m, d);
        let res = apply_ops(m, ops);
        assert forall|i: int| 0 <= i < ops.len() implies op_took_effect(res, (#[trigger] ops[i]).0@, ops[i].1@) by {
            if i < l {
                assert(d[i] == ops[i]);
                assert(ops[i].0@ != ops[l].0@);
                assert(op_took_effect(prev, d[i].0@, d[i].1@));
            }
        }
        assert forall|k: Seq<u8>| !touches(ops, k) implies (#[trigger] res.contains_key(k) == m.contains_key(k)
            && (m.contains_key(k) ==> res[k] == m[k])) by {
            if touches(d, k) {
                let j = choose|j: int| 0 <= j < d.len() && (#[trigger] d[j]).0@ == k;
                assert(ops[j] == d[j]);
            }
            assert(ops[l].0@ != k);
        }
    }
}

proof fn lemma_apply_changes_accounts(st: Map<Seq<u8>, AccountView>, cs: Seq<(Vec<u8>, AccountChanges)>)
    requires
        keys_unique(cs),
    ensures
        forall|i: int|
            0 <= i < cs.len() ==> apply_changes(st, cs).contains_key((#[trigger] cs[i]).0@) && apply_changes(
                st,
                cs,
            )[cs[i].0@] == apply_account(account_of(st, cs[i].0@), cs[i].1),
        forall|addr: Seq<u8>|
            !touches(cs, addr) ==> (#[trigger] apply_changes(st, cs).contains_key(addr) == st.contains_key(addr)
                && (st.contains_key(addr) ==> apply_changes(st, cs)[addr] == st[addr])),
    decreases cs.len(),
{
    if cs.len() > 0 {
        let d = cs.drop_last();
        let l = cs.len() - 1;
        assert forall|a: int, b: int|
            0 <= a < d.len() && 0 <= b < d.len() && a != b implies #[trigger] d[a].0@ != #[trigger] d[b].0@ by {
            assert(d[a] == cs[a] && d[b] == cs[b]);
        }
        lemma_apply_changes_accounts(st, d);
        let prev = apply_changes(st, d);
        let res = apply_changes(st, cs);
        assert(!touches(d, cs[l].0@)) by {
            if touches(d, cs[l].0@) {
                let j = choose|j: int| 0 <= j < d.len() && (#[trigger] d[j]).0@ == cs[l].0@;
                assert(d[j] == cs[j]);
            }
        }
        assert(account_of(prev, cs[l].0@) == account_of(st, cs[l].0@));
        assert forall|i: int| 0 <= i < cs.len() implies res.contains_key((#[trigger] cs[i]).0@) && res[cs[i].0@]
            == apply_account(account_of(st, cs[i].0@), cs[i].1) by {
            if i < l {
                assert(d[i] == cs[i]);
                assert(cs[i].0@ != cs[l].0@);
            }
        }
        assert forall|addr: Seq<u8>| !touches(cs, addr) implies (#[trigger] res.contains_key(addr)
            == st.contains_key(addr) && (st.contains_key(addr) ==> res[addr] == st[addr])) by {
            if touches(d, addr) {
                let j = choose|j: int| 0 <= j < d.len() && (#[trigger] d[j]).0@ == addr;
                assert(cs[j] == d[j]);
            }
            assert(cs[l].0@ != addr);
        }
    }
}

/// The slots after one operation per slot, `ops`, is applied to `m`: a
/// created or updated slot holds the new payload, a deleted slot is gone, and
/// the other slots are as they were.
pub open spec fn apply_slot_ops(m: Map<Seq<u8>, Seq<u8>>, ops: Map<Seq<u8>, OpView>) -> Map<Seq<u8>, Seq<u8>> {
    Map::new(
        |k: Seq<u8>|
            if ops.contains_key(k) {
                !(ops[k] is Delete)
            } else {
                m.contains_key(k)
            },
        |k: Seq<u8>|
            if ops.contains_key(k) {
                match ops[k] {
                    OpView::Create(v) => v,
                    OpView::Update(v) => v,
                    OpView::Delete => Seq::empty(),
                }
            } else {
                m[k]
            },
    )
}

/// No operation of `ops` conflicts with the slots `m`.
pub open spec fn slot_ops_ok(m: Map<Seq<u8>, Seq<u8>>, ops: Map<Seq<u8>, OpView>) -> bool {
    forall|k: Seq<u8>| #[trigger] ops.contains_key(k) ==> op_ok(m, k, ops[k])
}

pub open spec fn account_changes_ok(a: AccountView, ch: AccountChangesView) -> bool {
    slot_ops_ok(a.modules, ch.modules) && slot_ops_ok(a.resources, ch.resources)
}

pub open spec fn apply_account_changes(a: AccountView, ch: AccountChangesView) -> AccountView {
    AccountView {
        modules: apply_slot_ops(a.modules, ch.modules),
        resources: apply_slot_ops(a.resources, ch.resources),
    }
}

/// No operation of the change set `cs` conflicts with the state `st`.
pub open spec fn change_set_ok(st: Map<Seq<u8>, AccountView>, cs: Map<Seq<u8>, AccountChangesView>) -> bool {
    forall|a: Seq<u8>| #[trigger] cs.contains_key(a) ==> account_changes_ok(account_of(st, a), cs[a])
}

/// The state after the change set `cs` is applied to `st`: every account
/// that `cs` names gets its changes (an account that did not exist starts
/// empty), and every other account stays as it was.
pub open spec fn apply_change_set(st: Map<Seq<u8>, AccountView>, cs: Map<Seq<u8>, AccountChangesView>) -> Map<
    Seq<u8>,
    AccountView,
> {
    Map::new(
        |a: Seq<u8>| st.contains_key(a) || cs.contains_key(a),
        |a: Seq<u8>|
            if cs.contains_key(a) {
                apply_account_changes(account_of(st, a), cs[a])
            } else {
                st[a]
            },
    )
}

/// `e` reports a conflicting operation of the change set `cs` on `st`.
pub open spec fn conflict_reported(
    e: ApplyError,
    st: Map<Seq<u8>, AccountView>,
    cs: Map<Seq<u8>, AccountChangesView>,
) -> bool {
    exists|a: Seq<u8>, k: Seq<u8>|
        #![trigger cs[a].modules.contains_key(k)]
        #![trigger cs[a].resources.contains_key(k)]
        cs.contains_key(a) && ((cs[a].modules.contains_key(k) && reports(
            e,
            account_of(st, a).modules,
            k,
            cs[a].modules[k],
        )) || (cs[a].resources.contains_key(k) && reports(
            e,
            account_of(st, a).resources,
            k,
            cs[a].resources[k],
        )))
}

/// A non-conflicting change set takes effect exactly: in each account that
/// it names, each created or updated slot holds its new payload, each
/// deleted slot is gone and no other slot changes; every other account stays
/// as it was.
pub proof fn lemma_apply_change_set_correct(
    st: Map<Seq<u8>, AccountView>,
    cs: Map<Seq<u8>, AccountChangesView>,
)
    requires
        change_set_ok(st, cs),
    ensures
        forall|a: Seq<u8>, k: Seq<u8>|
            cs.contains_key(a) && #[trigger] cs[a].modules.contains_key(k) ==> op_took_effect(
                apply_change_set(st, cs)[a].modules,
                k,
                cs[a].modules[k],
            ),
        forall|a: Seq<u8>, k: Seq<u8>|
            cs.contains_key(a) && #[trigger] cs[a].resources.contains_key(k) ==> op_took_effect(
                apply_change_set(st, cs)[a].resources,
                k,
                cs[a].resources[k],
            ),
        forall|a: Seq<u8>, k: Seq<u8>|
            #![trigger apply_change_set(st, cs)[a].modules.contains_key(k)]
            cs.contains_key(a) && !cs[a].modules.contains_key(k) ==> (apply_change_set(
                st,
                cs,
            )[a].modules.contains_key(k) == account_of(st, a).modules.contains_key(k) && (account_of(
                st,
                a,
            ).modules.contains_key(k) ==> apply_change_set(st, cs)[a].modules[k] == account_of(
                st,
                a,
            ).modules[k])),
        forall|a: Seq<u8>, k: Seq<u8>|
            #![trigger apply_change_set(st, cs)[a].resources.contains_key(k)]
            cs.contains_key(a) && !cs[a].resources.contains_key(k) ==> (apply_change_set(
                st,
                cs,
            )[a].resources.contains_key(k) == account_of(st, a).resources.contains_key(k) && (
            account_of(st, a).resources.contains_key(k) ==> apply_change_set(st, cs)[a].resources[k]
                == account_of(st, a).resources[k])),
        forall|a: Seq<u8>|
            !cs.contains_key(a) ==> (#[trigger] apply_change_set(st, cs).contains_key(a)
                == st.contains_key(a) && (st.contains_key(a) ==> apply_change_set(st, cs)[a] == st[a])),
{
}

proof fn lemma_ops_view(m: Map<Seq<u8>, Seq<u8>>, ops: Seq<(Vec<u8>, Op)>)
    requires
        keys_unique(ops),
    ensures
        apply_ops(m, ops) == apply_slot_ops(m, to_map(ops)),
        ops_ok(m, ops) <==> slot_ops_ok(m, to_map(ops)),
{
    lemma_apply_ops_correct(m, ops);
    let res = apply_ops(m, ops);
    let mv = to_map(ops);
    assert forall|k: Seq<u8>| #[trigger] mv.contains_key(k) implies exists|j: int|
        0 <= j < ops.len() && ops[j].0@ == k && mv[k] == ops[j].1@ by {
        lemma_to_map_has(ops, k);
        let j = choose|j: int| 0 <= j < ops.len() && #[trigger] ops[j].0@ == k;
        lemma_to_map_index(ops, j);
    }
    assert forall|k: Seq<u8>| !mv.contains_key(k) implies !touches(ops, k) by {
        if touches(ops, k) {
            let j = choose|j: int| 0 <= j < ops.len() && (#[trigger] ops[j]).0@ == k;
            lemma_to_map_index(ops, j);
        }
    }
    assert forall|k: Seq<u8>| #[trigger] res.contains_key(k) == apply_slot_ops(m, mv).contains_key(k) && (
    res.contains_key(k) ==> res[k] == apply_slot_ops(m, mv)[k]) by {
        if mv.contains_key(k) {
            let j = choose|j: int| 0 <= j < ops.len() && ops[j].0@ == k && mv[k] == ops[j].1@;
            assert(op_took_effect(res, ops[j].0@, ops[j].1@));
        } else {
            assert(!touches(ops, k));
        }
    }
    assert(res =~= apply_slot_ops(m, mv));
    if ops_ok(m, ops) {
        assert forall|k: Seq<u8>| #[trigger] mv.contains_key(k) implies op_ok(m, k, mv[k]) by {
            let j = choose|j: int| 0 <= j < ops.len() && ops[j].0@ == k && mv[k] == ops[j].1@;
            assert(op_ok(m, ops[j].0@, ops[j].1@));
        }
    }
    if slot_ops_ok(m, mv) {
        assert forall|j: int| 0 <= j < ops.len() implies op_ok(m, (#[trigger] ops[j]).0@, ops[j].1@) by {
            lemma_to_map_index(ops, j);
            assert(mv.contains_key(ops[j].0@));
        }
    }
}

proof fn lemma_changes_view(st: Map<Seq<u8>, AccountView>, cs: ChangeSet)
    requires
        cs.wf(),
    ensures
        apply_changes(st, cs.accounts@) == apply_change_set(st, cs@),
        changes_ok(st, cs.accounts@) <==> change_set_ok(st, cs@),
        forall|e: ApplyError| first_conflict(e, st, cs.accounts@) ==> conflict_reported(e, st, cs@),
{
    let s = cs.accounts@;
    let mv = cs@;
    lemma_sorted_unique(s);
    lemma_apply_changes_accounts(st, s);
    assert forall|i: int| 0 <= i < s.len() implies #[trigger] apply_account(account_of(st, s[i].0@), s[i].1)
        == apply_account_changes(account_of(st, s[i].0@), s[i].1@) && (account_ok(account_of(st, s[i].0@), s[i].1)
        <==> account_changes_ok(account_of(st, s[i].0@), s[i].1@)) && mv.contains_key(s[i].0@) && mv[s[i].0@]
        == s[i].1@ by {
        assert(s[i].1.wf());
        lemma_sorted_unique(s[i].1.modules@);
        lemma_sorted_unique(s[i].1.resources@);
        lemma_ops_view(account_of(st, s[i].0@).modules, s[i].1.modules@);
        lemma_ops_view(account_of(st, s[i].0@).resources, s[i].1.resources@);
        lemma_to_map_index(s, i);
    }
    assert forall|a: Seq<u8>| #[trigger] mv.contains_key(a) implies exists|i: int|
        0 <= i < s.len() && s[i].0@ == a by {
        lemma_to_map_has(s, a);
    }
    assert forall|a: Seq<u8>| !mv.contains_key(a) implies !touches(s, a) by {
        if touches(s, a) {
            let j = choose|j: int| 0 <= j < s.len() && (#[trigger] s[j]).0@ == a;
            lemma_to_map_index(s, j);
        }
    }
    let res = apply_changes(st, s);
    assert forall|a: Seq<u8>| #[trigger] res.contains_key(a) == apply_change_set(st, mv).contains_key(a) && (
    res.contains_key(a) ==> res[a] == apply_change_set(st, mv)[a]) by {
        if mv.contains_key(a) {
            let i = choose|i: int| 0 <= i < s.len() && s[i].0@ == a;
            assert(apply_account(account_of(st, s[i].0@), s[i].1) == apply_account_changes(
                account_of(st, s[i].0@),
                s[i].1@,
            ));
        } else {
            assert(!touches(s, a));
        }
    }
    assert(res =~= apply_change_set(st, mv));
    if changes_ok(st, s) {
        assert forall|a: Seq<u8>| #[trigger] mv.contains_key(a) implies account_changes_ok(account_of(st, a), mv[a]) by {
            let i = choose|i: int| 0 <= i < s.len() && s[i].0@ == a;
            assert(account_ok(account_of(st, s[i].0@), s[i].1));
            assert(apply_account(account_of(st, s[i].0@), s[i].1) == apply_account_changes(
                account_of(st, s[i].0@),
                s[i].1@,
            ));
        }
    }
    if change_set_ok(st, mv) {
        assert forall|i: int| 0 <= i < s.len() implies account_ok(account_of(st, (#[trigger] s[i]).0@), s[i].1) by {
            assert(apply_account(account_of(st, s[i].0@), s[i].1) == apply_account_changes(
                account_of(st, s[i].0@),
                s[i].1@,
            ));
            assert(mv.contains_key(s[i].0@));
        }
    }
    assert forall|e: ApplyError| first_conflict(e, st, s) implies conflict_reported(e, st, mv) by {
        let i = choose|i: int|
            0 <= i < s.len() && #[trigger] first_in_account(e, account_of(st, s[i].0@), s[i].1) && forall|
                i2: int,
            | 0 <= i2 < i ==> account_ok(account_of(st, (#[trigger] s[i2]).0@), s[i2].1);
        let a = s[i].0@;
        let ch = s[i].1;
        assert(ch.wf());
        lemma_sorted_unique(ch.modules@);
        lemma_sorted_unique(ch.resources@);
        lemma_to_map_index(s, i);
        assert(mv.contains_key(a) && mv[a] == ch@);
        if first_in_ops(e, account_of(st, a).modules, ch.modules@) {
            let j = choose|j: int|
                0 <= j < ch.modules@.len() && #[trigger] reports(
                    e,
                    account_of(st, a).modules,
                    ch.modules@[j].0@,
                    ch.modules@[j].1@,
                ) && forall|j2: int|
                    0 <= j2 < j ==> op_ok(account_of(st, a).modules, (#[trigger] ch.modules@[j2]).0@, ch.modules@[j2].1@);
            lemma_to_map_index(ch.modules@, j);
            assert(mv[a].modules.contains_key(ch.modules@[j].0@));
        } else {
            let j = choose|j: int|
                0 <= j < ch.resources@.len() && #[trigger] reports(
                    e,
                    account_of(st, a).resources,
                    ch.resources@[j].0@,
                    ch.resources@[j].1@,
                ) && forall|j2: int|
                    0 <= j2 < j ==> op_ok(account_of(st, a).resources, (#[trigger] ch.resources@[j2]).0@, ch.resources@[j2].1@);
            lemma_to_map_index(ch.resources@, j);
            assert(mv[a].resources.contains_key(ch.resources@[j].0@));
        }
    }
}

fn clone_bytes(b: &Vec<u8>) -> (r: Vec<u8>)
    ensures
        r@ == b@,
{
    let mut r: Vec<u8> = Vec::with_capacity(b.len());
    let mut i: usize = 0;
    while i < b.len()
        invariant
            i <= b.len(),
            r@ == b@.subrange(0, i as int),
        decreases b.len() - i,
    {
        r.push(b[i]);
        i += 1;
        assert(r@ =~= b@.subrange(0, i as int));
    }
    assert(b@.subrange(0, b@.len() as int) =~= b@);
    r
}

/// Applies `ops` to the slot list `m`.
fn apply_ops_to(m: &mut Vec<(Vec<u8>, Vec<u8>)>, ops: &Vec<(Vec<u8>, Op)>)
    requires
        sorted_keys(old(m)@),
    ensures
        sorted_keys(final(m)@),
        to_map(final(m)@) == apply_ops(to_map(old(m)@), ops@),
{
    let mut i: usize = 0;
    while i < ops.len()
        invariant
            i <= ops.len(),
            sorted_keys(m@),
            to_map(m@) == apply_ops(to_map(old(m)@), ops@.take(i as int)),
        decreases ops.len() - i,
    {
        assert(ops@.take(i + 1).drop_last() =~= ops@.take(i as int));
        let (k, op) = &ops[i];
        match op {
            Op::Create(b) => {
                insert_sorted(m, clone_bytes(k), clone_bytes(b));
            },
            Op::Update(b) => {
                insert_sorted(m, clone_bytes(k), clone_bytes(b));
            },
            Op::Delete => {
                remove_sorted(m, k);
            },
        }
        i += 1;
    }
    assert(ops@.take(ops@.len() as int) =~= ops@);
}

/// Checks `ops` against the slot list `m`, reporting the first conflict.
fn check_ops(m: &Vec<(Vec<u8>, Vec<u8>)>, ops: &Vec<(Vec<u8>, Op)>) -> (r: Result<(), ApplyError>)
    requires
        keys_unique(m@),
    ensures
        r is Ok <==> ops_ok(to_map(m@), ops@),
        r matches Err(e) ==> first_in_ops(e, to_map(m@), ops@),
{
    let mut i: usize = 0;
    while i < ops.len()
        invariant
            i <= ops.len(),
            keys_unique(m@),
            forall|j: int| 0 <= j < i ==> op_ok(to_map(m@), (#[trigger] ops@[j]).0@, ops@[j].1@),
        decreases ops.len() - i,
    {
        let (k, op) = &ops[i];
        let present = lookup(m, k).is_some();
        match op {
            Op::Create(_) => {
                if present {
                    let e = ApplyError::KeyAlreadyExists(clone_bytes(k));
                    assert(reports(e, to_map(m@), ops@[i as int].0@, ops@[i as int].1@));
                    assert(first_in_ops(e, to_map(m@), ops@));
                    return Err(e);
                }
            },
            _ => {
                if !present {
                    let e = ApplyError::KeyNotFound(clone_bytes(k));
                    assert(reports(e, to_map(m@), ops@[i as int].0@, ops@[i as int].1@));
                    assert(first_in_ops(e, to_map(m@), ops@));
                    return Err(e);
                }
            },
        }
        i += 1;
    }
    Ok(())
}

impl InMemoryAccountStorage {
    pub open spec fn wf(&self) -> bool {
        sorted_keys(self.modules@) && sorted_keys(self.resources@)
    }

    /// An account with no slots.
    pub fn new() -> (r: InMemoryAccountStorage)
        ensures
            r.wf(),
            r@ == empty_account(),
    {
        let r = InMemoryAccountStorage { resources: Vec::new(), modules: Vec::new() };
        assert(r@.modules =~= Map::<Seq<u8>, Seq<u8>>::empty());
        assert(r@.resources =~= Map::<Seq<u8>, Seq<u8>>::empty());
        r
    }

    /// Checks the changes of this account, reporting the first conflict.
    fn check(&self, ch: &AccountChanges) -> (r: Result<(), ApplyError>)
        requires
            self.wf(),
        ensures
            r is Ok <==> account_ok(self@, *ch),
            r matches Err(e) ==> first_in_account(e, self@, *ch),
    {
        proof {
            lemma_sorted_unique(self.modules@);
            lemma_sorted_unique(self.resources@);
        }
        check_ops(&self.modules, &ch.modules)?;
        check_ops(&self.resources, &ch.resources)
    }

    /// Applies changes whose conflicts have been ruled out.
    fn apply_unchecked(&mut self, ch: &AccountChanges)
        requires
            old(self).wf(),
        ensures
            final(self).wf(),
            final(self)@ == apply_account(old(self)@, *ch),
    {
        apply_ops_to(&mut self.modules, &ch.modules);
        apply_ops_to(&mut self.resources, &ch.resources);
    }

    /// Applies the changes of this account, all or nothing. Where an
    /// operation conflicts with the slots, the first conflict (code slots
    /// before data slots, each in key order) is reported and the account is
    /// left as it was.
    pub fn apply(&mut self, ch: &AccountChanges) -> (r: Result<(), ApplyError>)
        requires
            old(self).wf(),
        ensures
            final(self).wf(),
            r is Ok <==> account_ok(old(self)@, *ch),
            r is Ok ==> final(self)@ == apply_account(old(self)@, *ch),
            r is Err ==> final(self)@ == old(self)@,
            r matches Err(e) ==> first_in_account(e, old(self)@, *ch),
    {
        self.check(ch)?;
        self.apply_unchecked(ch);
        Ok(())
    }
}

/// The whole state: a snapshot per account.
pub struct InMemoryStorage {
    pub accounts: Vec<(Vec<u8>, InMemoryAccountStorage)>,
}

impl View for InMemoryStorage {
    type V = Map<Seq<u8>, AccountView>;

    open spec fn view(&self) -> Map<Seq<u8>, AccountView> {
        to_map(self.accounts@)
    }
}

impl InMemoryStorage {
    pub open spec fn wf(&self) -> bool {
        &&& keys_unique(self.accounts@)
        &&& forall|i: int| 0 <= i < self.accounts@.len() ==> (#[trigger] self.accounts@[i]).1.wf()
    }

    /// A state with no accounts.
    pub fn new() -> (r: InMemoryStorage)
        ensures
            r.wf(),
            r@ == Map::<Seq<u8>, AccountView>::empty(),
    {
        InMemoryStorage { accounts: Vec::new() }
    }

    /// Takes out the snapshot of `addr`, or a fresh empty one.
    fn take_account(&mut self, addr: &Vec<u8>) -> (r: InMemoryAccountStorage)
        requires
            old(self).wf(),
        ensures
            final(self).wf(),
            final(self)@ == old(self)@.remove(addr@),
            r.wf(),
            r@ == account_of(old(self)@, addr@),
    {
        match find_key(&self.accounts, addr) {
            Some(i) => {
                proof {
                    lemma_to_map_remove(self.accounts@, i as int);
                    lemma_to_map_index(self.accounts@, i as int);
                }
                let ghost o = self.accounts@;
                let (_, acct) = self.accounts.remove(i);
                proof {
                    assert forall|j: int| 0 <= j < self.accounts@.len() implies (
                    #[trigger] self.accounts@[j]).1.wf() by {
                        if j < i {
                            assert(self.accounts@[j] == o[j]);
                        } else {
                            assert(self.accounts@[j] == o[j + 1]);
                        }
                    }
                    assert(o[i as int].1.wf());
                }
                acct
            },
            None => {
                proof {
                    lemma_to_map_absent(self.accounts@, addr@);
                    assert(self@ =~= old(self)@.remove(addr@));
                }
                InMemoryAccountStorage::new()
            },
        }
    }

    /// Puts the snapshot of `addr` in its place, replacing an earlier one.
    pub fn insert_account(&mut self, addr: Vec<u8>, acct: InMemoryAccountStorage)
        requires
            old(self).wf(),
            acct.wf(),
        ensures
            final(self).wf(),
            final(self)@ == old(self)@.insert(addr@, acct@),
    {
        let ghost o = self.accounts@;
        let ghost e = (addr, acct);
        let idx = insert_entry(&mut self.accounts, addr, acct);
        proof {
            assert forall|j: int| 0 <= j < self.accounts@.len() implies (
            #[trigger] self.accounts@[j]).1.wf() by {
                if j < o.len() && !(idx < o.len() && j == idx) {
                    assert(self.accounts@[j] == o[j]);
                }
            }
        }
    }

    /// Checks a change set against this state, reporting the first conflict.
    fn check_changes(&self, cs: &ChangeSet) -> (r: Result<(), ApplyError>)
        requires
            self.wf(),
        ensures
            r is Ok <==> changes_ok(self@, cs.accounts@),
            r matches Err(e) ==> first_conflict(e, self@, cs.accounts@),
    {
        let empty = InMemoryAccountStorage::new();
        let mut i: usize = 0;
        while i < cs.accounts.len()
            invariant
                i <= cs.accounts@.len(),
                self.wf(),
                empty.wf(),
                empty@ == empty_account(),
                forall|j: int|
                    0 <= j < i ==> account_ok(
                        account_of(self@, (#[trigger] cs.accounts@[j]).0@),
                        cs.accounts@[j].1,
                    ),
            decreases cs.accounts@.len() - i,
        {
            let (addr, ch) = &cs.accounts[i];
            let acct = match find_key(&self.accounts, addr) {
                Some(k) => {
                    proof {
                        lemma_to_map_index(self.accounts@, k as int);
                        assert(self.accounts@[k as int].1.wf());
                    }
                    &self.accounts[k].1
                },
                None => {
                    proof {
                        lemma_to_map_absent(self.accounts@, addr@);
                    }
                    &empty
                },
            };
            match acct.check(ch) {
                Ok(()) => {},
                Err(e) => {
                    assert(first_conflict(e, self@, cs.accounts@)) by {
                        assert(first_in_account(
                            e,
                            account_of(self@, cs.accounts@[i as int].0@),
                            cs.accounts@[i as int].1,
                        ));
                    }
                    return Err(e);
                },
            }
            i += 1;
        }
        Ok(())
    }

    /// Applies a change set whose conflicts have been ruled out.
    fn commit_changes(&mut self, cs: &ChangeSet)
        requires
            old(self).wf(),
        ensures
            final(self).wf(),
            final(self)@ == apply_changes(old(self)@, cs.accounts@),
    {
        let mut i: usize = 0;
        while i < cs.accounts.len()
            invariant
                i <= cs.accounts@.len(),
                self.wf(),
                self@ == apply_changes(old(self)@, cs.accounts@.take(i as int)),
            decreases cs.accounts@.len() - i,
        {
            assert(cs.accounts@.take(i + 1).drop_last() =~= cs.accounts@.take(i as int));
            let (addr, ch) = &cs.accounts[i];
            let mut acct = self.take_account(addr);
            acct.apply_unchecked(ch);
            self.insert_account(clone_bytes(addr), acct);
            proof {
                let prev = apply_changes(old(self)@, cs.accounts@.take(i as int));
                assert(self@ =~= prev.insert(addr@, apply_account(account_of(prev, addr@), *ch)));
            }
            i += 1;
        }
        assert(cs.accounts@.take(cs.accounts@.len() as int) =~= cs.accounts@);
    }

    /// Applies a change set, all or nothing. Where an operation conflicts
    /// with the state, the first conflict is reported (accounts in address
    /// order; in each, code slots before data slots, each in key order) and
    /// the state is left as it was.
    pub fn apply_extended(&mut self, changeset: ChangeSet) -> (r: Result<(), ApplyError>)
        requires
            old(self).wf(),
            changeset.wf(),
        ensures
            final(self).wf(),
            r is Ok <==> change_set_ok(old(self)@, changeset@),
            r is Ok ==> final(self)@ == apply_change_set(old(self)@, changeset@),
            r is Err ==> final(self)@ == old(self)@,
            r matches Err(e) ==> conflict_reported(e, old(self)@, changeset@),
            r matches Err(e) ==> first_conflict(e, old(self)@, changeset.accounts@),
    {
        proof {
            lemma_changes_view(self@, changeset);
        }
        self.check_changes(&changeset)?;
        self.commit_changes(&changeset);
        Ok(())
    }

    /// Applies a change set, all or nothing; see `apply_extended`.
    pub fn apply(&mut self, changeset: ChangeSet) -> (r: Result<(), ApplyError>)
        requires
            old(self).wf(),
            changeset.wf(),
        ensures
            final(self).wf(),
            r is Ok <==> change_set_ok(old(self)@, changeset@),
            r is Ok ==> final(self)@ == apply_change_set(old(self)@, changeset@),
            r is Err ==> final(self)@ == old(self)@,
            r matches Err(e) ==> conflict_reported(e, old(self)@, changeset@),
            r matches Err(e) ==> first_conflict(e, old(self)@, changeset.accounts@),
    {
        self.apply_extended(changeset)
    }

    /// Writes the code slot `name` of `addr`, creating the account if needed.
    pub fn publish_or_overwrite_module(&mut self, addr: Vec<u8>, name: Vec<u8>, blob: Vec<u8>)
        requires
            old(self).wf(),
        ensures
            final(self).wf(),
            final(self)@ == old(self)@.insert(
                addr@,
                AccountView {
                    modules: account_of(old(self)@, addr@).modules.insert(name@, blob@),
                    resources: account_of(old(self)@, addr@).resources,
                },
            ),
    {
        let mut acct = self.take_account(&addr);
        insert_sorted(&mut acct.modules, name, blob);
        self.insert_account(addr, acct);
        proof {
            assert(self@ =~= old(self)@.insert(addr@, self@[addr@]));
        }
    }

    /// Writes the data slot `tag` of `addr`, creating the account if needed.
    pub fn publish_or_overwrite_resource(&mut self, addr: Vec<u8>, tag: Vec<u8>, blob: Vec<u8>)
        requires
            old(self).wf(),
        ensures
            final(self).wf(),
            final(self)@ == old(self)@.insert(
                addr@,
                AccountView {
                    modules: account_of(old(self)@, addr@).modules,
                    resources: account_of(old(self)@, addr@).resources.insert(tag@, blob@),
                },
            ),
    {
        let mut acct = self.take_account(&addr);
        insert_sorted(&mut acct.resources, tag, blob);
        self.insert_account(addr, acct);
        proof {
            assert(self@ =~= old(self)@.insert(addr@, self@[addr@]));
        }
    }

    /// The snapshot of `addr`, if the account exists.
    pub fn get_account(&self, addr: &Vec<u8>) -> (r: Option<&InMemoryAccountStorage>)
        requires
            self.wf(),
        ensures
            match r {
                Some(a) => self@.contains_key(addr@) && a@ == self@[addr@] && a.wf(),
                None => !self@.contains_key(addr@),
            },
    {
        match find_key(&self.accounts, addr) {
            Some(k) => {
                proof {
                    lemma_to_map_index(self.accounts@, k as int);
                    assert(self.accounts@[k as int].1.wf());
                }
                Some(&self.accounts[k].1)
            },
            None => {
                proof {
                    lemma_to_map_absent(self.accounts@, addr@);
                }
                None
            },
        }
    }

    /// The bytes in the code slot `name` of `addr`, if there are any.
    pub fn get_module(&self, addr: &Vec<u8>, name: &Vec<u8>) -> (r: Option<Vec<u8>>)
        requires
            self.wf(),
        ensures
            match r {
                Some(b) => account_of(self@, addr@).modules.contains_key(name@) && b@ == account_of(
                    self@,
                    addr@,
                ).modules[name@],
                None => !account_of(self@, addr@).modules.contains_key(name@),
            },
    {
        match self.get_account(addr) {
            Some(acct) => match {
                proof {
                    lemma_sorted_unique(acct.modules@);
                }
                lookup(&acct.modules, name)
            } {
                Some(b) => Some(clone_bytes(b)),
                None => None,
            },
            None => None,
        }
    }

    /// The bytes in the data slot `tag` of `addr`, if there are any, and
    /// their size (zero where there are none).
    pub fn get_resource(&self, addr: &Vec<u8>, tag: &Vec<u8>) -> (r: (Option<Vec<u8>>, usize))
        requires
            self.wf(),
        ensures
            match r.0 {
                Some(b) => account_of(self@, addr@).resources.contains_key(tag@) && b@
                    == account_of(self@, addr@).resources[tag@] && r.1 == b@.len(),
                None => !account_of(self@, addr@).resources.contains_key(tag@) && r.1 == 0,
            },
    {
        match self.get_account(addr) {
            Some(acct) => match {
                proof {
                    lemma_sorted_unique(acct.resources@);
                }
                lookup(&acct.resources, tag)
            } {
                Some(b) => {
                    let buf = clone_bytes(b);
                    let size = buf.len();
                    (Some(buf), size)
                },
                None => (None, 0),
            },
            None => (None, 0),
        }
    }
}

} // verus!
