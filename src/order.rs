//! Lexicographic order on byte strings, and lists kept sorted by it.

use vstd::prelude::*;

use crate::keys::{
    bytes_eq, find_key, keys_unique, lemma_to_map_absent, lemma_to_map_index, lemma_to_map_insert,
    lemma_to_map_remove, lemma_to_map_update, to_map,
};

verus! {

/// `a` comes strictly before `b` in lexicographic byte order.
pub open spec fn lex_lt(a: Seq<u8>, b: Seq<u8>) -> bool
    decreases a.len(),
{
    if a.len() == 0 {
        b.len() > 0
    } else if b.len() == 0 {
        false
    } else if a[0] < b[0] {
        true
    } else if a[0] > b[0] {
        false
    } else {
        lex_lt(a.drop_first(), b.drop_first())
    }
}

pub proof fn lemma_lex_irreflexive(a: Seq<u8>)
    ensures
        !lex_lt(a, a),
    decreases a.len(),
{
    if a.len() > 0 {
        lemma_lex_irreflexive(a.drop_first());
    }
}

pub proof fn lemma_lex_transitive(a: Seq<u8>, b: Seq<u8>, c: Seq<u8>)
    requires
        lex_lt(a, b),
        lex_lt(b, c),
    ensures
        lex_lt(a, c),
    decreases a.len(),
{
    if a.len() > 0 && b.len() > 0 && c.len() > 0 && a[0] == b[0] && b[0] == c[0] {
        lemma_lex_transitive(a.drop_first(), b.drop_first(), c.drop_first());
    }
}

pub proof fn lemma_lex_total(a: Seq<u8>, b: Seq<u8>)
    requires
        a != b,
    ensures
        lex_lt(a, b) || lex_lt(b, a),
    decreases a.len(),
{
    if a.len() > 0 && b.len() > 0 && a[0] == b[0] {
        if a.drop_first() == b.drop_first() {
            assert(a =~= seq![a[0]] + a.drop_first());
            assert(b =~= seq![b[0]] + b.drop_first());
        }
        lemma_lex_total(a.drop_first(), b.drop_first());
    } else if a.len() == 0 && b.len() == 0 {
        assert(a =~= b);
    }
}

/// Keys strictly ascending in lexicographic order.
pub open spec fn sorted_keys<V>(s: Seq<(Vec<u8>, V)>) -> bool {
    forall|i: int, j: int| 0 <= i < j < s.len() ==> lex_lt(#[trigger] s[i].0@, #[trigger] s[j].0@)
}

pub proof fn lemma_sorted_unique<V>(s: Seq<(Vec<u8>, V)>)
    requires
        sorted_keys(s),
    ensures
        keys_unique(s),
{
    assert forall|i: int, j: int|
        0 <= i < s.len() && 0 <= j < s.len() && i != j implies #[trigger] s[i].0@ != #[trigger] s[j].0@ by {
        lemma_lex_irreflexive(s[i].0@);
    }
}

/// Inserts `k -> v` at its place in a sorted list, overwriting an entry for
/// `k` if there is one.
pub fn insert_sorted<V: View>(s: &mut Vec<(Vec<u8>, V)>, k: Vec<u8>, v: V) -> (idx: usize)
    requires
        sorted_keys(old(s)@),
    ensures
        sorted_keys(final(s)@),
        to_map(final(s)@) == to_map(old(s)@).insert(k@, v@),
        idx <= old(s)@.len(),
        final(s)@ == old(s)@.insert(idx as int, (k, v)) || (idx < old(s)@.len() && final(s)@
            == old(s)@.update(idx as int, (k, v))),
{
    proof {
        lemma_sorted_unique(s@);
    }
    let mut i: usize = 0;
    while i < s.len() && bytes_lt(&s[i].0, &k)
        invariant
            i <= s.len(),
            forall|j: int| 0 <= j < i ==> lex_lt(#[trigger] s@[j].0@, k@),
        decreases s.len() - i,
    {
        i += 1;
    }
    if i < s.len() && bytes_eq(&s[i].0, &k) {
        proof {
            lemma_to_map_update(s@, i as int, (k, v));
        }
        s.set(i, (k, v));
        proof {
            assert forall|a: int, b: int| 0 <= a < b < s@.len() implies lex_lt(
                #[trigger] s@[a].0@,
                #[trigger] s@[b].0@,
            ) by {
                assert(lex_lt(old(s)@[a].0@, old(s)@[b].0@));
            }
            assert(s@ =~= old(s)@.update(i as int, (k, v)));
        }
        i
    } else {
        let ghost e = (k, v);
        let ghost o = s@;
        proof {
            if i < s.len() {
                lemma_lex_total(o[i as int].0@, k@);
            }
            assert forall|j: int| 0 <= j < o.len() implies #[trigger] o[j].0@ != k@ by {
                if j < i {
                    lemma_lex_irreflexive(k@);
                } else {
                    lemma_lex_irreflexive(k@);
                    if j > i {
                        lemma_lex_transitive(k@, o[i as int].0@, o[j].0@);
                    }
                }
            }
            lemma_to_map_insert(o, i as int, e);
        }
        s.insert(i, (k, v));
        proof {
            assert(s@ =~= o.insert(i as int, e));
            assert forall|a: int, b: int| 0 <= a < b < s@.len() implies lex_lt(
                #[trigger] s@[a].0@,
                #[trigger] s@[b].0@,
            ) by {
                if b < i {
                    assert(lex_lt(o[a].0@, o[b].0@));
                } else if b == i {
                } else if a < i {
                    assert(s@[b] == o[b - 1]);
                    if b - 1 > i {
                        lemma_lex_transitive(k@, o[i as int].0@, o[b - 1].0@);
                    }
                    lemma_lex_transitive(o[a].0@, k@, o[b - 1].0@);
                } else if a == i {
                    assert(s@[b] == o[b - 1]);
                    if b - 1 > i {
                        lemma_lex_transitive(k@, o[i as int].0@, o[b - 1].0@);
                    }
                } else {
                    assert(lex_lt(o[a - 1].0@, o[b - 1].0@));
                }
            }
        }
        i
    }
}

/// Removes the entry for `k` from a sorted list, if there is one.
pub fn remove_sorted<V: View>(s: &mut Vec<(Vec<u8>, V)>, k: &Vec<u8>)
    requires
        sorted_keys(old(s)@),
    ensures
        sorted_keys(final(s)@),
        to_map(final(s)@) == to_map(old(s)@).remove(k@),
{
    proof {
        lemma_sorted_unique(s@);
    }
    match find_key(s, k) {
        Some(i) => {
            proof {
                lemma_to_map_remove(s@, i as int);
                lemma_sorted_remove(s@, i as int);
            }
            s.remove(i);
        },
        None => {
            proof {
                lemma_to_map_absent(s@, k@);
                assert(to_map(s@) =~= to_map(s@).remove(k@));
            }
        },
    }
}

pub proof fn lemma_sorted_remove<V>(s: Seq<(Vec<u8>, V)>, i: int)
    requires
        sorted_keys(s),
        0 <= i < s.len(),
    ensures
        sorted_keys(s.remove(i)),
{
    let r = s.remove(i);
    assert forall|a: int, b: int| 0 <= a < b < r.len() implies lex_lt(#[trigger] r[a].0@, #[trigger] r[b].0@) by {
        let a2 = if a < i { a } else { a + 1 };
        let b2 = if b < i { b } else { b + 1 };
        assert(r[a] == s[a2] && r[b] == s[b2]);
    }
}

/// Tests whether `a` comes strictly before `b` in lexicographic byte order.
pub fn bytes_lt(a: &Vec<u8>, b: &Vec<u8>) -> (r: bool)
    ensures
        r == lex_lt(a@, b@),
{
    let mut i: usize = 0;
    assert(a@.subrange(0, a@.len() as int) =~= a@);
    assert(b@.subrange(0, b@.len() as int) =~= b@);
    while i < a.len() && i < b.len()
        invariant
            i <= a.len(),
            i <= b.len(),
            lex_lt(a@, b@) == lex_lt(a@.subrange(i as int, a@.len() as int), b@.subrange(i as int, b@.len() as int)),
        decreases a.len() - i,
    {
        let ghost sa = a@.subrange(i as int, a@.len() as int);
        let ghost sb = b@.subrange(i as int, b@.len() as int);
        if a[i] < b[i] {
            assert(sa[0] == a@[i as int] && sb[0] == b@[i as int]);
            return true;
        }
        if a[i] > b[i] {
            assert(sa[0] == a@[i as int] && sb[0] == b@[i as int]);
            return false;
        }
        assert(sa[0] == a@[i as int] && sb[0] == b@[i as int]);
        assert(sa.drop_first() =~= a@.subrange(i + 1, a@.len() as int));
        assert(sb.drop_first() =~= b@.subrange(i + 1, b@.len() as int));
        i += 1;
    }
    i < b.len()
}

/// Two sorted lists that stand for the same mapping hold the same entries
/// in the same order.
pub proof fn lemma_sorted_same_map<V: View>(s: Seq<(Vec<u8>, V)>, t: Seq<(Vec<u8>, V)>)
    requires
        sorted_keys(s),
        sorted_keys(t),
        to_map(s) == to_map(t),
    ensures
        s.len() == t.len(),
        forall|i: int| 0 <= i < s.len() ==> (#[trigger] s[i]).0@ == t[i].0@ && s[i].1@ == t[i].1@,
    decreases s.len() + t.len(),
{
    lemma_sorted_unique(s);
    lemma_sorted_unique(t);
    if s.len() == 0 || t.len() == 0 {
        if s.len() > 0 {
            lemma_to_map_index(s, 0);
        }
        if t.len() > 0 {
            lemma_to_map_index(t, 0);
        }
        return;
    }
    let ls = s.len() - 1;
    let lt = t.len() - 1;
    let ks = s[ls].0@;
    let kt = t[lt].0@;
    lemma_to_map_index(s, ls);
    lemma_to_map_index(t, lt);
    if ks != kt {
        lemma_lex_total(ks, kt);
        if lex_lt(ks, kt) {
            // kt is a key of s, so it is at most ks
            if !(exists|j: int| 0 <= j < s.len() && #[trigger] s[j].0@ == kt) {
                lemma_to_map_absent(s, kt);
            }
            let j = choose|j: int| 0 <= j < s.len() && #[trigger] s[j].0@ == kt;
            if j < ls {
                lemma_lex_transitive(ks, kt, ks);
            }
            lemma_lex_irreflexive(ks);
        } else {
            if !(exists|j: int| 0 <= j < t.len() && #[trigger] t[j].0@ == ks) {
                lemma_to_map_absent(t, ks);
            }
            let j = choose|j: int| 0 <= j < t.len() && #[trigger] t[j].0@ == ks;
            if j < lt {
                lemma_lex_transitive(kt, ks, kt);
            }
            lemma_lex_irreflexive(kt);
        }
    }
    lemma_to_map_remove(s, ls);
    lemma_to_map_remove(t, lt);
    assert(s.remove(ls) =~= s.drop_last());
    assert(t.remove(lt) =~= t.drop_last());
    lemma_sorted_same_map(s.drop_last(), t.drop_last());
    assert forall|i: int| 0 <= i < s.len() implies (#[trigger] s[i]).0@ == t[i].0@ && s[i].1@ == t[i].1@ by {
        if i < ls {
            assert(s.drop_last()[i] == s[i] && t.drop_last()[i] == t[i]);
        }
    }
}

} // verus!
