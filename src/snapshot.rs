//! The persisted form of an account snapshot: the number of code slots, each
//! as a length-prefixed name and a length-prefixed payload, then the same for
//! data slots. Counts and lengths are 4-byte little-endian.

use vstd::prelude::*;

use crate::codec::{enc_bytes, le32, put_len_prefixed, put_u32, DecodeError, EncodeError, MAX_LEN};
use crate::keys::to_map;
use crate::order::{bytes_lt, lemma_lex_transitive, lemma_sorted_same_map, lex_lt, sorted_keys};
use crate::storage::InMemoryAccountStorage;
use crate::wire::{at, lemma_at_join, lemma_at_split, read_bytes, read_u32};

verus! {

/// The entries of a slot list, without their count.
pub open spec fn enc_entries(s: Seq<(Vec<u8>, Vec<u8>)>) -> Seq<u8>
    decreases s.len(),
{
    if s.len() == 0 {
        Seq::empty()
    } else {
        enc_entries(s.drop_last()) + enc_bytes(s.last().0@) + enc_bytes(s.last().1@)
    }
}

pub open spec fn entries_fit(s: Seq<(Vec<u8>, Vec<u8>)>) -> bool {
    &&& s.len() <= MAX_LEN
    &&& forall|i: int| 0 <= i < s.len() ==> (#[trigger] s[i]).0@.len() <= MAX_LEN && s[i].1@.len() <= MAX_LEN
}

pub open spec fn enc_slots(s: Seq<(Vec<u8>, Vec<u8>)>) -> Seq<u8> {
    le32(s.len() as nat) + enc_entries(s)
}

/// The persisted form of a snapshot.
pub open spec fn snapshot_encoding(a: InMemoryAccountStorage) -> Seq<u8> {
    enc_slots(a.modules@) + enc_slots(a.resources@)
}

/// Every count and length of the snapshot fits in four bytes.
pub open spec fn snapshot_fits(a: InMemoryAccountStorage) -> bool {
    entries_fit(a.modules@) && entries_fit(a.resources@)
}

/// Two slot lists with the same names and payloads, entry by entry.
pub open spec fn same_entries(v: Seq<(Vec<u8>, Vec<u8>)>, e: Seq<(Vec<u8>, Vec<u8>)>) -> bool {
    &&& v.len() == e.len()
    &&& forall|i: int| 0 <= i < v.len() ==> (#[trigger] v[i]).0@ == e[i].0@ && v[i].1@ == e[i].1@
}

proof fn lemma_same_entries(v: Seq<(Vec<u8>, Vec<u8>)>, e: Seq<(Vec<u8>, Vec<u8>)>)
    requires
        same_entries(v, e),
    ensures
        enc_entries(v) == enc_entries(e),
        to_map(v) == to_map(e),
    decreases v.len(),
{
    if v.len() > 0 {
        lemma_same_entries(v.drop_last(), e.drop_last());
    }
}

proof fn lemma_enc_entries_take(e: Seq<(Vec<u8>, Vec<u8>)>, i: int)
    requires
        0 <= i <= e.len(),
    ensures
        enc_entries(e.take(i)).len() <= enc_entries(e).len(),
        enc_entries(e).subrange(0, enc_entries(e.take(i)).len() as int) == enc_entries(e.take(i)),
    decreases e.len() - i,
{
    if i == e.len() {
        assert(e.take(i) =~= e);
        assert(enc_entries(e).subrange(0, enc_entries(e).len() as int) =~= enc_entries(e));
    } else {
        lemma_enc_entries_take(e, i + 1);
        assert(e.take(i + 1).drop_last() =~= e.take(i));
        let a = enc_entries(e.take(i));
        let b = enc_entries(e.take(i + 1));
        let c = enc_entries(e);
        assert(b =~= a + (enc_bytes(e[i].0@) + enc_bytes(e[i].1@)));
        assert(c.subrange(0, a.len() as int) =~= c.subrange(0, b.len() as int).subrange(0, a.len() as int));
        assert(b.subrange(0, a.len() as int) =~= a);
    }
}

fn put_slots(s: &Vec<(Vec<u8>, Vec<u8>)>, out: &mut Vec<u8>) -> (r: Result<(), EncodeError>)
    ensures
        r is Ok <==> entries_fit(s@),
        r is Ok ==> final(out)@ == old(out)@ + enc_slots(s@),
{
    if s.len() > MAX_LEN as usize {
        return Err(EncodeError::TooLarge);
    }
    put_u32(out, s.len() as u32);
    let ghost start = out@;
    let mut i: usize = 0;
    while i < s.len()
        invariant
            i <= s@.len() <= MAX_LEN,
            start == old(out)@ + le32(s@.len() as nat),
            out@ == start + enc_entries(s@.take(i as int)),
            forall|j: int| 0 <= j < i ==> (#[trigger] s@[j]).0@.len() <= MAX_LEN && s@[j].1@.len() <= MAX_LEN,
        decreases s.len() - i,
    {
        assert(s@.take(i + 1).drop_last() =~= s@.take(i as int));
        let (k, v) = &s[i];
        put_len_prefixed(out, k)?;
        put_len_prefixed(out, v)?;
        assert(out@ =~= start + enc_entries(s@.take(i + 1)));
        i += 1;
    }
    assert(s@.take(s@.len() as int) =~= s@);
    assert(out@ =~= old(out)@ + enc_slots(s@));
    Ok(())
}

/// A sorted slot list that fits, encoded with its count at `pos`.
pub open spec fn slots_at(buf: Seq<u8>, pos: int, e: Seq<(Vec<u8>, Vec<u8>)>) -> bool {
    sorted_keys(e) && entries_fit(e) && at(buf, pos, enc_slots(e))
}

fn parse_slots(buf: &Vec<u8>, pos: usize) -> (r: Result<(Vec<(Vec<u8>, Vec<u8>)>, usize), DecodeError>)
    requires
        pos <= buf@.len(),
    ensures
        r matches Ok((v, p)) ==> slots_at(buf@, pos as int, v@) && p == pos + enc_slots(v@).len(),
        forall|e: Seq<(Vec<u8>, Vec<u8>)>| #[trigger] slots_at(buf@, pos as int, e) ==> (r matches Ok((v, _))
            && same_entries(v@, e)),
{
    let n = match read_u32(buf, pos) {
        None => {
            proof {
                assert forall|e: Seq<(Vec<u8>, Vec<u8>)>| #[trigger] slots_at(buf@, pos as int, e) implies false by {
                    lemma_at_split(buf@, pos as int, le32(e.len() as nat), enc_entries(e));
                }
            }
            return Err(DecodeError::Truncated);
        },
        Some((n, _)) => n,
    };
    let start: usize = pos + 4;
    proof {
        assert forall|e: Seq<(Vec<u8>, Vec<u8>)>| #[trigger] slots_at(buf@, pos as int, e) implies e.len() == n
            && at(buf@, start as int, enc_entries(e)) by {
            lemma_at_split(buf@, pos as int, le32(e.len() as nat), enc_entries(e));
        }
    }
    let mut v: Vec<(Vec<u8>, Vec<u8>)> = Vec::new();
    assert(buf@.subrange(start as int, start as int) =~= enc_entries(v@));
    let mut q: usize = start;
    let mut i: u32 = 0;
    while i < n
        invariant
            pos + 4 <= buf@.len(),
            start == pos + 4,
            at(buf@, pos as int, le32(n as nat)),
            i <= n,
            v@.len() == i,
            sorted_keys(v@),
            forall|j: int| 0 <= j < v@.len() ==> (#[trigger] v@[j]).0@.len() <= MAX_LEN && v@[j].1@.len() <= MAX_LEN,
            at(buf@, start as int, enc_entries(v@)),
            q == start + enc_entries(v@).len(),
            q <= buf@.len(),
            forall|e: Seq<(Vec<u8>, Vec<u8>)>| #[trigger] slots_at(buf@, pos as int, e) ==> e.len() == n && at(
                buf@,
                start as int,
                enc_entries(e),
            ) && same_entries(v@, e.take(i as int)),
        decreases n - i,
    {
        let ghost ii = i as int;
        proof {
            assert forall|e: Seq<(Vec<u8>, Vec<u8>)>| #[trigger] slots_at(buf@, pos as int, e) implies at(
                buf@,
                q as int,
                enc_bytes(e[ii].0@) + enc_bytes(e[ii].1@),
            ) by {
                lemma_enc_entries_take(e, ii + 1);
                let b = enc_entries(e.take(ii + 1));
                assert(buf@.subrange(start as int, start + b.len()) =~= buf@.subrange(
                    start as int,
                    start + enc_entries(e).len(),
                ).subrange(0, b.len() as int));
                assert(at(buf@, start as int, b));
                assert(e.take(ii + 1).drop_last() =~= e.take(ii));
                lemma_same_entries(v@, e.take(ii));
                assert(b =~= enc_entries(e.take(ii)) + (enc_bytes(e[ii].0@) + enc_bytes(e[ii].1@)));
                lemma_at_split(buf@, start as int, enc_entries(e.take(ii)), enc_bytes(e[ii].0@) + enc_bytes(e[ii].1@));
            }
        }
        let (k, q1) = match read_bytes(buf, q) {
            None => {
                proof {
                    assert forall|e: Seq<(Vec<u8>, Vec<u8>)>| #[trigger] slots_at(buf@, pos as int, e) implies false by {
                        lemma_at_split(buf@, q as int, enc_bytes(e[ii].0@), enc_bytes(e[ii].1@));
                        assert(e[ii].0@.len() <= MAX_LEN);
                    }
                }
                return Err(DecodeError::Truncated);
            },
            Some(x) => x,
        };
        proof {
            assert forall|e: Seq<(Vec<u8>, Vec<u8>)>| #[trigger] slots_at(buf@, pos as int, e) implies k@ == e[ii].0@
                && at(buf@, q1 as int, enc_bytes(e[ii].1@)) by {
                lemma_at_split(buf@, q as int, enc_bytes(e[ii].0@), enc_bytes(e[ii].1@));
                assert(e[ii].0@.len() <= MAX_LEN);
            }
        }
        let (val, q2) = match read_bytes(buf, q1) {
            None => {
                proof {
                    assert forall|e: Seq<(Vec<u8>, Vec<u8>)>| #[trigger] slots_at(buf@, pos as int, e) implies false by {
                        assert(e[ii].1@.len() <= MAX_LEN);
                    }
                }
                return Err(DecodeError::Truncated);
            },
            Some(x) => x,
        };
        proof {
            assert forall|e: Seq<(Vec<u8>, Vec<u8>)>| #[trigger] slots_at(buf@, pos as int, e) implies val@ == e[ii].1@ by {
                assert(e[ii].1@.len() <= MAX_LEN);
            }
        }
        if v.len() > 0 {
            let ghost last = v@.len() - 1;
            if !bytes_lt(&v[v.len() - 1].0, &k) {
                proof {
                    assert forall|e: Seq<(Vec<u8>, Vec<u8>)>| #[trigger] slots_at(buf@, pos as int, e) implies false by {
                        assert(v@[last].0@ == e.take(ii)[last].0@);
                        assert(lex_lt(e[last].0@, e[ii].0@));
                    }
                }
                return Err(DecodeError::NotCanonical);
            }
        }
        let ghost old_v = v@;
        proof {
            lemma_at_join(buf@, q as int, enc_bytes(k@), enc_bytes(val@));
            lemma_at_join(buf@, start as int, enc_entries(old_v), enc_bytes(k@) + enc_bytes(val@));
        }
        let ghost kv = k@;
        v.push((k, val));
        proof {
            assert(v@.drop_last() =~= old_v);
            assert(enc_entries(v@) =~= enc_entries(old_v) + (enc_bytes(kv) + enc_bytes(val@)));
            assert forall|a: int, b: int| 0 <= a < b < v@.len() implies lex_lt(#[trigger] v@[a].0@, #[trigger] v@[b].0@) by {
                if b < v@.len() - 1 {
                    assert(lex_lt(old_v[a].0@, old_v[b].0@));
                } else if a < b - 1 {
                    lemma_lex_transitive(old_v[a].0@, old_v[b - 1].0@, kv);
                }
            }
            assert forall|e: Seq<(Vec<u8>, Vec<u8>)>| #[trigger] slots_at(buf@, pos as int, e) implies same_entries(v@, e.take(ii + 1)) by {
                assert forall|j: int| 0 <= j < v@.len() implies (#[trigger] v@[j]).0@ == e.take(ii + 1)[j].0@
                    && v@[j].1@ == e.take(ii + 1)[j].1@ by {
                    if j < ii {
                        assert(v@[j] == old_v[j]);
                    }
                }
            }
        }
        q = q2;
        i += 1;
    }
    proof {
        lemma_at_join(buf@, pos as int, le32(n as nat), enc_entries(v@));
        assert forall|e: Seq<(Vec<u8>, Vec<u8>)>| #[trigger] slots_at(buf@, pos as int, e) implies same_entries(v@, e) by {
            assert(e.take(n as int) =~= e);
        }
    }
    Ok((v, q))
}

/// The persisted form is canonical: two well-formed snapshots with the same
/// slots persist to the same bytes.
pub proof fn lemma_snapshot_encoding_canonical(a: InMemoryAccountStorage, b: InMemoryAccountStorage)
    requires
        a.wf(),
        b.wf(),
        a@ == b@,
    ensures
        snapshot_encoding(a) == snapshot_encoding(b),
{
    lemma_sorted_same_map(a.modules@, b.modules@);
    lemma_sorted_same_map(a.resources@, b.resources@);
    lemma_same_entries(a.modules@, b.modules@);
    lemma_same_entries(a.resources@, b.resources@);
}

/// A well-formed snapshot that fits, persisted in `buf` as a whole.
pub open spec fn snapshot_in(buf: Seq<u8>, a: InMemoryAccountStorage) -> bool {
    a.wf() && snapshot_fits(a) && snapshot_encoding(a) == buf
}

impl InMemoryAccountStorage {
    /// The persisted form of this snapshot. Fails exactly when a count or a
    /// length does not fit in four bytes.
    pub fn to_bytes(&self) -> (r: Result<Vec<u8>, EncodeError>)
        ensures
            r is Ok <==> snapshot_fits(*self),
            r matches Ok(b) ==> b@ == snapshot_encoding(*self),
    {
        let mut out: Vec<u8> = Vec::new();
        put_slots(&self.modules, &mut out)?;
        put_slots(&self.resources, &mut out)?;
        assert(out@ =~= snapshot_encoding(*self));
        Ok(out)
    }

    /// Reads a persisted snapshot. Exactly the persisted forms of well-formed
    /// snapshots are accepted, and each gives back the snapshot it holds.
    pub fn try_from_bytes(buf: &Vec<u8>) -> (r: Result<InMemoryAccountStorage, DecodeError>)
        ensures
            r matches Ok(a) ==> snapshot_in(buf@, a),
            forall|a: InMemoryAccountStorage| #[trigger] snapshot_in(buf@, a) ==> (r matches Ok(d) && d@ == a@),
    {
        proof {
            assert(buf@.subrange(0, buf@.len() as int) =~= buf@);
            assert forall|a: InMemoryAccountStorage| #[trigger] snapshot_in(buf@, a) implies slots_at(
                buf@,
                0,
                a.modules@,
            ) && slots_at(buf@, enc_slots(a.modules@).len() as int, a.resources@) by {
                lemma_at_split(buf@, 0, enc_slots(a.modules@), enc_slots(a.resources@));
            }
        }
        let (modules, p1) = parse_slots(buf, 0)?;
        proof {
            assert forall|a: InMemoryAccountStorage| #[trigger] snapshot_in(buf@, a) implies p1 == enc_slots(
                a.modules@,
            ).len() by {
                lemma_same_entries(modules@, a.modules@);
            }
        }
        let (resources, p2) = parse_slots(buf, p1)?;
        if p2 != buf.len() {
            proof {
                assert forall|a: InMemoryAccountStorage| #[trigger] snapshot_in(buf@, a) implies false by {
                    lemma_same_entries(resources@, a.resources@);
                }
            }
            return Err(DecodeError::TrailingBytes);
        }
        let a = InMemoryAccountStorage { resources, modules };
        proof {
            lemma_at_join(buf@, 0, enc_slots(a.modules@), enc_slots(a.resources@));
            assert forall|b: InMemoryAccountStorage| #[trigger] snapshot_in(buf@, b) implies a@ == b@ by {
                lemma_same_entries(a.modules@, b.modules@);
                lemma_same_entries(a.resources@, b.resources@);
            }
        }
        Ok(a)
    }
}

} // verus!
