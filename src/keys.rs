//! Byte-string keys and association lists of byte-string keys.

use vstd::prelude::*;

verus! {

/// The mapping that an association list stands for: a later entry for a
/// key overrides an earlier one.
pub open spec fn to_map<V: View>(s: Seq<(Vec<u8>, V)>) -> Map<Seq<u8>, V::V>
    decreases s.len(),
{
    if s.len() == 0 {
        Map::empty()
    } else {
        to_map(s.drop_last()).insert(s.last().0@, s.last().1@)
    }
}

/// No key occurs twice in the list.
pub open spec fn keys_unique<V>(s: Seq<(Vec<u8>, V)>) -> bool {
    forall|i: int, j: int|
        0 <= i < s.len() && 0 <= j < s.len() && i != j ==> #[trigger] s[i].0@ != #[trigger] s[j].0@
}

pub proof fn lemma_to_map_absent<V: View>(s: Seq<(Vec<u8>, V)>, k: Seq<u8>)
    requires
        forall|i: int| 0 <= i < s.len() ==> #[trigger] s[i].0@ != k,
    ensures
        !to_map(s).contains_key(k),
    decreases s.len(),
{
    if s.len() > 0 {
        assert forall|i: int| 0 <= i < s.drop_last().len() implies #[trigger] s.drop_last()[i].0@ != k by {
            assert(s.drop_last()[i] == s[i]);
        }
        lemma_to_map_absent(s.drop_last(), k);
    }
}

pub proof fn lemma_to_map_has<V: View>(s: Seq<(Vec<u8>, V)>, k: Seq<u8>)
    requires
        to_map(s).contains_key(k),
    ensures
        exists|i: int| 0 <= i < s.len() && #[trigger] s[i].0@ == k,
{
    if !(exists|i: int| 0 <= i < s.len() && #[trigger] s[i].0@ == k) {
        lemma_to_map_absent(s, k);
    }
}

pub proof fn lemma_to_map_index<V: View>(s: Seq<(Vec<u8>, V)>, i: int)
    requires
        keys_unique(s),
        0 <= i < s.len(),
    ensures
        to_map(s).contains_key(s[i].0@),
        to_map(s)[s[i].0@] == s[i].1@,
    decreases s.len(),
{
    if i < s.len() - 1 {
        let t = s.drop_last();
        assert forall|a: int, b: int|
            0 <= a < t.len() && 0 <= b < t.len() && a != b implies #[trigger] t[a].0@ != #[trigger] t[b].0@ by {
            assert(t[a] == s[a] && t[b] == s[b]);
        }
        lemma_to_map_index(t, i);
        assert(s[i].0@ != s[s.len() - 1].0@);
    }
}

pub proof fn lemma_to_map_update<V: View>(s: Seq<(Vec<u8>, V)>, i: int, e: (Vec<u8>, V))
    requires
        keys_unique(s),
        0 <= i < s.len(),
        s[i].0@ == e.0@,
    ensures
        to_map(s.update(i, e)) == to_map(s).insert(e.0@, e.1@),
        keys_unique(s.update(i, e)),
    decreases s.len(),
{
    let u = s.update(i, e);
    assert forall|a: int, b: int|
        0 <= a < u.len() && 0 <= b < u.len() && a != b implies #[trigger] u[a].0@ != #[trigger] u[b].0@ by {
        assert(s[a].0@ != s[b].0@);
    }
    if i == s.len() - 1 {
        assert(u.drop_last() =~= s.drop_last());
        assert(to_map(u) =~= to_map(s).insert(e.0@, e.1@));
    } else {
        let t = s.drop_last();
        assert forall|a: int, b: int|
            0 <= a < t.len() && 0 <= b < t.len() && a != b implies #[trigger] t[a].0@ != #[trigger] t[b].0@ by {
            assert(t[a] == s[a] && t[b] == s[b]);
        }
        lemma_to_map_update(t, i, e);
        assert(u.drop_last() =~= t.update(i, e));
        assert(s[i].0@ != s[s.len() - 1].0@);
        assert(to_map(u) =~= to_map(s).insert(e.0@, e.1@));
    }
}

pub proof fn lemma_to_map_remove<V: View>(s: Seq<(Vec<u8>, V)>, i: int)
    requires
        keys_unique(s),
        0 <= i < s.len(),
    ensures
        to_map(s.remove(i)) == to_map(s).remove(s[i].0@),
        keys_unique(s.remove(i)),
    decreases s.len(),
{
    let r = s.remove(i);
    assert forall|a: int, b: int|
        0 <= a < r.len() && 0 <= b < r.len() && a != b implies #[trigger] r[a].0@ != #[trigger] r[b].0@ by {
        let a2 = if a < i { a } else { a + 1 };
        let b2 = if b < i { b } else { b + 1 };
        assert(r[a] == s[a2] && r[b] == s[b2]);
    }
    let t = s.drop_last();
    assert forall|a: int, b: int|
        0 <= a < t.len() && 0 <= b < t.len() && a != b implies #[trigger] t[a].0@ != #[trigger] t[b].0@ by {
        assert(t[a] == s[a] && t[b] == s[b]);
    }
    if i == s.len() - 1 {
        assert(r =~= t);
        assert forall|a: int| 0 <= a < t.len() implies #[trigger] t[a].0@ != s[i].0@ by {
            assert(t[a] == s[a]);
        }
        lemma_to_map_absent(t, s[i].0@);
        assert(to_map(r) =~= to_map(s).remove(s[i].0@));
    } else {
        lemma_to_map_remove(t, i);
        assert(r.drop_last() =~= t.remove(i));
        assert(r.last() == s.last());
        assert(s[i].0@ != s[s.len() - 1].0@);
        assert(to_map(r) =~= to_map(s).remove(s[i].0@));
    }
}

pub proof fn lemma_to_map_insert<V: View>(s: Seq<(Vec<u8>, V)>, i: int, e: (Vec<u8>, V))
    requires
        keys_unique(s),
        0 <= i <= s.len(),
        forall|j: int| 0 <= j < s.len() ==> #[trigger] s[j].0@ != e.0@,
    ensures
        to_map(s.insert(i, e)) == to_map(s).insert(e.0@, e.1@),
        keys_unique(s.insert(i, e)),
    decreases s.len(),
{
    let r = s.insert(i, e);
    assert forall|a: int, b: int|
        0 <= a < r.len() && 0 <= b < r.len() && a != b implies #[trigger] r[a].0@ != #[trigger] r[b].0@ by {
        if a != i && b != i {
            let a2 = if a < i { a } else { a - 1 };
            let b2 = if b < i { b } else { b - 1 };
            assert(r[a] == s[a2] && r[b] == s[b2]);
        } else if a == i {
            let b2 = if b < i { b } else { b - 1 };
            assert(r[b] == s[b2]);
        } else {
            let a2 = if a < i { a } else { a - 1 };
            assert(r[a] == s[a2]);
        }
    }
    if i == s.len() {
        assert(r.drop_last() =~= s);
    } else {
        let t = s.drop_last();
        assert forall|a: int, b: int|
            0 <= a < t.len() && 0 <= b < t.len() && a != b implies #[trigger] t[a].0@ != #[trigger] t[b].0@ by {
            assert(t[a] == s[a] && t[b] == s[b]);
        }
        assert forall|j: int| 0 <= j < t.len() implies #[trigger] t[j].0@ != e.0@ by {
            assert(t[j] == s[j]);
        }
        lemma_to_map_insert(t, i, e);
        assert(r.drop_last() =~= t.insert(i, e));
        assert(r.last() == s.last());
        assert(to_map(r) =~= to_map(s).insert(e.0@, e.1@));
    }
}

/// Compares two byte strings.
pub fn bytes_eq(a: &Vec<u8>, b: &Vec<u8>) -> (r: bool)
    ensures
        r == (a@ == b@),
{
    if a.len() != b.len() {
        return false;
    }
    let mut i: usize = 0;
    while i < a.len()
        invariant
            a.len() == b.len(),
            i <= a.len(),
            forall|j: int| 0 <= j < i ==> a@[j] == b@[j],
        decreases a.len() - i,
    {
        if a[i] != b[i] {
            return false;
        }
        i += 1;
    }
    assert(a@ =~= b@);
    true
}

/// Position of the entry whose key is `k`, if there is one.
pub fn find_key<V: View>(s: &Vec<(Vec<u8>, V)>, k: &Vec<u8>) -> (r: Option<usize>)
    ensures
        match r {
            Some(i) => i < s.len() && s@[i as int].0@ == k@,
            None => forall|j: int| 0 <= j < s.len() ==> #[trigger] s@[j].0@ != k@,
        },
{
    let mut i: usize = 0;
    while i < s.len()
        invariant
            i <= s.len(),
            forall|j: int| 0 <= j < i ==> #[trigger] s@[j].0@ != k@,
        decreases s.len() - i,
    {
        if bytes_eq(&s[i].0, k) {
            return Some(i);
        }
        i += 1;
    }
    None
}

/// Looks a key up in an association list with unique keys.
pub fn lookup<'a, V: View>(s: &'a Vec<(Vec<u8>, V)>, k: &Vec<u8>) -> (r: Option<&'a V>)
    requires
        keys_unique(s@),
    ensures
        match r {
            Some(v) => to_map(s@).contains_key(k@) && to_map(s@)[k@] == v@,
            None => !to_map(s@).contains_key(k@),
        },
{
    match find_key(s, k) {
        Some(i) => {
            proof {
                lemma_to_map_index(s@, i as int);
            }
            Some(&s[i].1)
        },
        None => {
            proof {
                lemma_to_map_absent(s@, k@);
            }
            None
        },
    }
}

/// Inserts `k -> v`, overwriting an entry for `k` if there is one.
pub fn insert_entry<V: View>(s: &mut Vec<(Vec<u8>, V)>, k: Vec<u8>, v: V) -> (idx: usize)
    requires
        keys_unique(old(s)@),
    ensures
        keys_unique(final(s)@),
        to_map(final(s)@) == to_map(old(s)@).insert(k@, v@),
        idx <= old(s)@.len(),
        final(s)@ == old(s)@.push((k, v)) || (idx < old(s)@.len() && final(s)@ == old(s)@.update(
            idx as int,
            (k, v),
        )),
{
    match find_key(s, &k) {
        Some(i) => {
            proof {
                lemma_to_map_update(s@, i as int, (k, v));
            }
            s.set(i, (k, v));
            i
        },
        None => {
            let ghost k_view = k@;
            s.push((k, v));
            proof {
                assert(s@.drop_last() =~= old(s)@);
                assert forall|a: int, b: int|
                    0 <= a < s@.len() && 0 <= b < s@.len() && a != b implies #[trigger] s@[a].0@
                    != #[trigger] s@[b].0@ by {
                    if a < old(s)@.len() && b < old(s)@.len() {
                        assert(old(s)@[a].0@ != old(s)@[b].0@);
                    } else if a < old(s)@.len() {
                        assert(old(s)@[a].0@ != k_view);
                    } else {
                        assert(old(s)@[b].0@ != k_view);
                    }
                }
            }
            s.len() - 1
        },
    }
}

/// Removes the entry for `k`, if there is one.
pub fn remove_entry<V: View>(s: &mut Vec<(Vec<u8>, V)>, k: &Vec<u8>)
    requires
        keys_unique(old(s)@),
    ensures
        keys_unique(final(s)@),
        to_map(final(s)@) == to_map(old(s)@).remove(k@),
{
    match find_key(s, k) {
        Some(i) => {
            proof {
                lemma_to_map_remove(s@, i as int);
            }
            s.remove(i);
        },
        None => {
            proof {
                lemma_to_map_absent(s@, k@);
                assert(to_map(s@) =~= to_map(s@).remove(k@));
            }
        },
    }
}

} // verus!
