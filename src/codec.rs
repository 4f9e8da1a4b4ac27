//! The canonical binary encoding of change sets.
//!
//! All counts and lengths are 4-byte little-endian. A change set is the
//! number of accounts followed by each address (raw, fixed width) and its
//! changes; the changes of an account are the number of code-slot operations,
//! each as a length-prefixed name and an operation, then the same for data
//! slots. An operation is a discriminant byte (0 create, 1 update, 2 delete)
//! followed, for create and update, by the length-prefixed payload.

use vstd::prelude::*;

use crate::changes::{AccountChanges, ChangeSet, Op, OpView, ADDRESS_LENGTH};
use crate::keys::to_map;
use crate::order::{bytes_lt, lemma_sorted_same_map, lex_lt, sorted_keys};
use crate::wire::{at, lemma_at_join, lemma_at_split, read_bytes, read_raw, read_u32};

verus! {

/// The largest count or length that four bytes can hold.
pub const MAX_LEN: u32 = 0xffff_ffff;

/// Why a change set could not be encoded.
pub enum EncodeError {
    /// A count or a length does not fit in four bytes.
    TooLarge,
}

pub open spec fn le32(n: nat) -> Seq<u8> {
    seq![
        (n % 256) as u8,
        ((n / 256) % 256) as u8,
        ((n / 65536) % 256) as u8,
        ((n / 16777216) % 256) as u8,
    ]
}

/// A length-prefixed byte string.
pub open spec fn enc_bytes(b: Seq<u8>) -> Seq<u8> {
    le32(b.len()) + b
}

pub open spec fn enc_op(op: OpView) -> Seq<u8> {
    match op {
        OpView::Create(b) => seq![0u8] + enc_bytes(b),
        OpView::Update(b) => seq![1u8] + enc_bytes(b),
        OpView::Delete => seq![2u8],
    }
}

/// The entries of an operation list, without their count.
pub open spec fn enc_ops(ops: Seq<(Vec<u8>, Op)>) -> Seq<u8>
    decreases ops.len(),
{
    if ops.len() == 0 {
        Seq::empty()
    } else {
        enc_ops(ops.drop_last()) + enc_bytes(ops.last().0@) + enc_op(ops.last().1@)
    }
}

pub open spec fn enc_account(ch: AccountChanges) -> Seq<u8> {
    le32(ch.modules@.len()) + enc_ops(ch.modules@) + le32(ch.resources@.len()) + enc_ops(
        ch.resources@,
    )
}

/// The accounts of a change set, without their count.
pub open spec fn enc_accounts(s: Seq<(Vec<u8>, AccountChanges)>) -> Seq<u8>
    decreases s.len(),
{
    if s.len() == 0 {
        Seq::empty()
    } else {
        enc_accounts(s.drop_last()) + s.last().0@ + enc_account(s.last().1)
    }
}

/// The encoding of a change set.
pub open spec fn encoding(cs: ChangeSet) -> Seq<u8> {
    le32(cs.accounts@.len()) + enc_accounts(cs.accounts@)
}

pub open spec fn op_fits(op: OpView) -> bool {
    match op {
        OpView::Create(b) => b.len() <= MAX_LEN,
        OpView::Update(b) => b.len() <= MAX_LEN,
        OpView::Delete => true,
    }
}

pub open spec fn ops_fit(ops: Seq<(Vec<u8>, Op)>) -> bool {
    &&& ops.len() <= MAX_LEN
    &&& forall|i: int|
        0 <= i < ops.len() ==> (#[trigger] ops[i]).0@.len() <= MAX_LEN && op_fits(ops[i].1@)
}

/// Every count and length of the change set fits in four bytes.
pub open spec fn fits(cs: ChangeSet) -> bool {
    &&& cs.accounts@.len() <= MAX_LEN
    &&& forall|i: int|
        0 <= i < cs.accounts@.len() ==> ops_fit((#[trigger] cs.accounts@[i]).1.modules@) && ops_fit(
            cs.accounts@[i].1.resources@,
        )
}

pub(crate) fn put_u32(out: &mut Vec<u8>, n: u32)
    ensures
        final(out)@ == old(out)@ + le32(n as nat),
{
    out.push((n % 256) as u8);
    out.push(((n / 256) % 256) as u8);
    out.push(((n / 65536) % 256) as u8);
    out.push(((n / 16777216) % 256) as u8);
    assert(final(out)@ =~= old(out)@ + le32(n as nat));
}

fn put_bytes(out: &mut Vec<u8>, b: &Vec<u8>)
    ensures
        final(out)@ == old(out)@ + b@,
{
    let mut i: usize = 0;
    while i < b.len()
        invariant
            i <= b.len(),
            out@ == old(out)@ + b@.subrange(0, i as int),
        decreases b.len() - i,
    {
        out.push(b[i]);
        i += 1;
        assert(out@ =~= old(out)@ + b@.subrange(0, i as int));
    }
    assert(b@.subrange(0, b@.len() as int) =~= b@);
}

pub(crate) fn put_len_prefixed(out: &mut Vec<u8>, b: &Vec<u8>) -> (r: Result<(), EncodeError>)
    ensures
        r is Ok <==> b@.len() <= MAX_LEN,
        r is Ok ==> final(out)@ == old(out)@ + enc_bytes(b@),
{
    if b.len() > MAX_LEN as usize {
        return Err(EncodeError::TooLarge);
    }
    put_u32(out, b.len() as u32);
    put_bytes(out, b);
    assert(final(out)@ =~= old(out)@ + enc_bytes(b@));
    Ok(())
}

fn serialize_op(op: &Op, out: &mut Vec<u8>) -> (r: Result<(), EncodeError>)
    ensures
        r is Ok <==> op_fits(op@),
        r is Ok ==> final(out)@ == old(out)@ + enc_op(op@),
{
    match op {
        Op::Create(b) => {
            out.push(0u8);
            put_len_prefixed(out, b)?;
            assert(final(out)@ =~= old(out)@ + enc_op(op@));
            Ok(())
        },
        Op::Update(b) => {
            out.push(1u8);
            put_len_prefixed(out, b)?;
            assert(final(out)@ =~= old(out)@ + enc_op(op@));
            Ok(())
        },
        Op::Delete => {
            out.push(2u8);
            assert(final(out)@ =~= old(out)@ + enc_op(op@));
            Ok(())
        },
    }
}

fn serialize_ops(ops: &Vec<(Vec<u8>, Op)>, out: &mut Vec<u8>) -> (r: Result<(), EncodeError>)
    ensures
        r is Ok <==> ops_fit(ops@),
        r is Ok ==> final(out)@ == old(out)@ + le32(ops@.len() as nat) + enc_ops(ops@),
{
    if ops.len() > MAX_LEN as usize {
        return Err(EncodeError::TooLarge);
    }
    put_u32(out, ops.len() as u32);
    let ghost start = out@;
    let mut i: usize = 0;
    while i < ops.len()
        invariant
            i <= ops@.len() <= MAX_LEN,
            start == old(out)@ + le32(ops@.len() as nat),
            out@ == start + enc_ops(ops@.take(i as int)),
            forall|j: int|
                0 <= j < i ==> (#[trigger] ops@[j]).0@.len() <= MAX_LEN && op_fits(ops@[j].1@),
        decreases ops.len() - i,
    {
        assert(ops@.take(i + 1).drop_last() =~= ops@.take(i as int));
        let ghost before = out@;
        let (k, op) = &ops[i];
        put_len_prefixed(out, k)?;
        serialize_op(op, out)?;
        assert(out@ =~= start + enc_ops(ops@.take(i + 1)));
        i += 1;
    }
    assert(ops@.take(ops@.len() as int) =~= ops@);
    Ok(())
}

fn serialize_account_changes(ch: &AccountChanges, out: &mut Vec<u8>) -> (r: Result<(), EncodeError>)
    ensures
        r is Ok <==> ops_fit(ch.modules@) && ops_fit(ch.resources@),
        r is Ok ==> final(out)@ == old(out)@ + enc_account(*ch),
{
    serialize_ops(&ch.modules, out)?;
    serialize_ops(&ch.resources, out)?;
    assert(final(out)@ =~= old(out)@ + enc_account(*ch));
    Ok(())
}

/// Encodes a change set. Fails exactly when a count or a length does not
/// fit in four bytes.
pub fn serialize_changes(cs: &ChangeSet) -> (r: Result<Vec<u8>, EncodeError>)
    ensures
        r is Ok <==> fits(*cs),
        r matches Ok(b) ==> b@ == encoding(*cs),
{
    let mut out: Vec<u8> = Vec::new();
    if cs.accounts.len() > MAX_LEN as usize {
        return Err(EncodeError::TooLarge);
    }
    put_u32(&mut out, cs.accounts.len() as u32);
    let ghost start = out@;
    let mut i: usize = 0;
    while i < cs.accounts.len()
        invariant
            i <= cs.accounts@.len() <= MAX_LEN,
            start == le32(cs.accounts@.len() as nat),
            out@ == start + enc_accounts(cs.accounts@.take(i as int)),
            forall|j: int|
                0 <= j < i ==> ops_fit((#[trigger] cs.accounts@[j]).1.modules@) && ops_fit(
                    cs.accounts@[j].1.resources@,
                ),
        decreases cs.accounts.len() - i,
    {
        assert(cs.accounts@.take(i + 1).drop_last() =~= cs.accounts@.take(i as int));
        let (addr, ch) = &cs.accounts[i];
        put_bytes(&mut out, addr);
        serialize_account_changes(ch, &mut out)?;
        assert(out@ =~= start + enc_accounts(cs.accounts@.take(i + 1)));
        i += 1;
    }
    assert(cs.accounts@.take(cs.accounts@.len() as int) =~= cs.accounts@);
    assert(out@ =~= encoding(*cs));
    Ok(out)
}


/// Encoding depends on the change set alone, not on the order in which its
/// operations were recorded: two well-formed change sets that hold the same
/// operations for the same slots encode to the same bytes.
pub proof fn lemma_encoding_deterministic(a: ChangeSet, b: ChangeSet)
    requires
        a.wf(),
        b.wf(),
        a@ == b@,
    ensures
        encoding(a) == encoding(b),
{
    lemma_sorted_same_map(a.accounts@, b.accounts@);
    assert forall|i: int| 0 <= i < a.accounts@.len() implies (#[trigger] a.accounts@[i]).0@ == b.accounts@[i].0@
        && same_ops(a.accounts@[i].1.modules@, b.accounts@[i].1.modules@) && same_ops(
        a.accounts@[i].1.resources@,
        b.accounts@[i].1.resources@,
    ) by {
        let x = a.accounts@[i].1;
        let y = b.accounts@[i].1;
        assert(x.wf() && y.wf());
        assert(x@ == y@);
        lemma_sorted_same_map(x.modules@, y.modules@);
        lemma_sorted_same_map(x.resources@, y.resources@);
    }
    lemma_same_accounts(a.accounts@, b.accounts@);
}

/// Why bytes could not be decoded.
pub enum DecodeError {
    /// The bytes end before the value does.
    Truncated,
    /// An operation has a discriminant other than 0, 1 or 2.
    UnknownOp(u8),
    /// Keys or addresses are not in strictly ascending order.
    NotCanonical,
    /// Bytes are left after the value.
    TrailingBytes,
}

/// Two operation lists with the same keys and operations, entry by entry.
pub open spec fn same_ops(v: Seq<(Vec<u8>, Op)>, e: Seq<(Vec<u8>, Op)>) -> bool {
    &&& v.len() == e.len()
    &&& forall|i: int| 0 <= i < v.len() ==> (#[trigger] v[i]).0@ == e[i].0@ && v[i].1@ == e[i].1@
}

/// Two account lists with the same addresses and changes, entry by entry.
pub open spec fn same_accounts(v: Seq<(Vec<u8>, AccountChanges)>, e: Seq<(Vec<u8>, AccountChanges)>) -> bool {
    &&& v.len() == e.len()
    &&& forall|i: int|
        0 <= i < v.len() ==> (#[trigger] v[i]).0@ == e[i].0@ && same_ops(v[i].1.modules@, e[i].1.modules@)
            && same_ops(v[i].1.resources@, e[i].1.resources@)
}

proof fn lemma_same_ops(v: Seq<(Vec<u8>, Op)>, e: Seq<(Vec<u8>, Op)>)
    requires
        same_ops(v, e),
    ensures
        enc_ops(v) == enc_ops(e),
        to_map(v) == to_map(e),
        sorted_keys(v) <==> sorted_keys(e),
        ops_fit(v) <==> ops_fit(e),
    decreases v.len(),
{
    if v.len() > 0 {
        lemma_same_ops(v.drop_last(), e.drop_last());
        assert(v.last().1@ == e.last().1@);
    }
    if sorted_keys(v) {
        assert forall|i: int, j: int| 0 <= i < j < e.len() implies lex_lt(#[trigger] e[i].0@, #[trigger] e[j].0@) by {
            assert(v[i].0@ == e[i].0@ && v[j].0@ == e[j].0@);
        }
    }
    if sorted_keys(e) {
        assert forall|i: int, j: int| 0 <= i < j < v.len() implies lex_lt(#[trigger] v[i].0@, #[trigger] v[j].0@) by {
            assert(v[i].0@ == e[i].0@ && v[j].0@ == e[j].0@);
        }
    }
    if ops_fit(v) {
        assert forall|i: int| 0 <= i < e.len() implies (#[trigger] e[i]).0@.len() <= MAX_LEN && op_fits(e[i].1@) by {
            assert(v[i].0@ == e[i].0@ && v[i].1@ == e[i].1@);
        }
    }
    if ops_fit(e) {
        assert forall|i: int| 0 <= i < v.len() implies (#[trigger] v[i]).0@.len() <= MAX_LEN && op_fits(v[i].1@) by {
            assert(v[i].0@ == e[i].0@ && v[i].1@ == e[i].1@);
        }
    }
}

proof fn lemma_same_accounts(v: Seq<(Vec<u8>, AccountChanges)>, e: Seq<(Vec<u8>, AccountChanges)>)
    requires
        same_accounts(v, e),
    ensures
        enc_accounts(v) == enc_accounts(e),
        to_map(v) == to_map(e),
    decreases v.len(),
{
    if v.len() > 0 {
        lemma_same_accounts(v.drop_last(), e.drop_last());
        lemma_same_ops(v.last().1.modules@, e.last().1.modules@);
        lemma_same_ops(v.last().1.resources@, e.last().1.resources@);
        assert(v.last().1@ == e.last().1@);
    }
}

/// `a` is a prefix of `b`.
pub open spec fn is_prefix(a: Seq<u8>, b: Seq<u8>) -> bool {
    a.len() <= b.len() && b.subrange(0, a.len() as int) == a
}

proof fn lemma_at_prefix(buf: Seq<u8>, pos: int, a: Seq<u8>, b: Seq<u8>)
    requires
        at(buf, pos, b),
        is_prefix(a, b),
    ensures
        at(buf, pos, a),
{
    assert(buf.subrange(pos, pos + a.len()) =~= buf.subrange(pos, pos + b.len()).subrange(0, a.len() as int));
}

proof fn lemma_prefix_trans(a: Seq<u8>, b: Seq<u8>, c: Seq<u8>)
    requires
        is_prefix(a, b),
        is_prefix(b, c),
    ensures
        is_prefix(a, c),
{
    assert(c.subrange(0, a.len() as int) =~= c.subrange(0, b.len() as int).subrange(0, a.len() as int));
}

proof fn lemma_prefix_add(a: Seq<u8>, t: Seq<u8>)
    ensures
        is_prefix(a, a + t),
{
    assert((a + t).subrange(0, a.len() as int) =~= a);
}

proof fn lemma_enc_ops_take(e: Seq<(Vec<u8>, Op)>, i: int)
    requires
        0 <= i <= e.len(),
    ensures
        is_prefix(enc_ops(e.take(i)), enc_ops(e)),
    decreases e.len() - i,
{
    if i == e.len() {
        assert(e.take(i) =~= e);
        lemma_prefix_add(enc_ops(e), Seq::empty());
        assert(enc_ops(e) + Seq::<u8>::empty() =~= enc_ops(e));
    } else {
        lemma_enc_ops_take(e, i + 1);
        assert(e.take(i + 1).drop_last() =~= e.take(i));
        lemma_prefix_add(enc_ops(e.take(i)), enc_bytes(e[i].0@) + enc_op(e[i].1@));
        assert(enc_ops(e.take(i + 1)) =~= enc_ops(e.take(i)) + (enc_bytes(e[i].0@) + enc_op(e[i].1@)));
        lemma_prefix_trans(enc_ops(e.take(i)), enc_ops(e.take(i + 1)), enc_ops(e));
    }
}

proof fn lemma_enc_accounts_take(e: Seq<(Vec<u8>, AccountChanges)>, i: int)
    requires
        0 <= i <= e.len(),
    ensures
        is_prefix(enc_accounts(e.take(i)), enc_accounts(e)),
    decreases e.len() - i,
{
    if i == e.len() {
        assert(e.take(i) =~= e);
        lemma_prefix_add(enc_accounts(e), Seq::empty());
        assert(enc_accounts(e) + Seq::<u8>::empty() =~= enc_accounts(e));
    } else {
        lemma_enc_accounts_take(e, i + 1);
        assert(e.take(i + 1).drop_last() =~= e.take(i));
        lemma_prefix_add(enc_accounts(e.take(i)), e[i].0@ + enc_account(e[i].1));
        assert(enc_accounts(e.take(i + 1)) =~= enc_accounts(e.take(i)) + (e[i].0@ + enc_account(e[i].1)));
        lemma_prefix_trans(enc_accounts(e.take(i)), enc_accounts(e.take(i + 1)), enc_accounts(e));
    }
}

fn parse_op(buf: &Vec<u8>, pos: usize) -> (r: Result<(Op, usize), DecodeError>)
    requires
        pos <= buf@.len(),
    ensures
        r matches Ok((o, p)) ==> op_fits(o@) && p == pos + enc_op(o@).len() && at(
            buf@,
            pos as int,
            enc_op(o@),
        ),
        forall|e: OpView|
            op_fits(e) && #[trigger] at(buf@, pos as int, enc_op(e)) ==> (r matches Ok((o, _)) && o@ == e),
{
    if pos >= buf.len() {
        proof {
            assert forall|e: OpView| op_fits(e) && #[trigger] at(buf@, pos as int, enc_op(e)) implies false by {
                assert(enc_op(e).len() >= 1);
            }
        }
        return Err(DecodeError::Truncated);
    }
    let tag = buf[pos];
    proof {
        assert forall|e: OpView| op_fits(e) && #[trigger] at(buf@, pos as int, enc_op(e)) implies match e {
            OpView::Create(b) => tag == 0 && at(buf@, pos + 1, enc_bytes(b)),
            OpView::Update(b) => tag == 1 && at(buf@, pos + 1, enc_bytes(b)),
            OpView::Delete => tag == 2,
        } by {
            assert(buf@.subrange(pos as int, pos + enc_op(e).len())[0] == tag);
            match e {
                OpView::Create(b) => lemma_at_split(buf@, pos as int, seq![0u8], enc_bytes(b)),
                OpView::Update(b) => lemma_at_split(buf@, pos as int, seq![1u8], enc_bytes(b)),
                OpView::Delete => {},
            }
        }
    }
    if tag == 2 {
        proof {
            assert(buf@.subrange(pos as int, pos + 1) =~= seq![2u8]);
        }
        return Ok((Op::Delete, pos + 1));
    }
    if tag > 2 {
        return Err(DecodeError::UnknownOp(tag));
    }
    match read_bytes(buf, pos + 1) {
        None => Err(DecodeError::Truncated),
        Some((b, p)) => {
            proof {
                assert(buf@.subrange(pos as int, pos + 1) =~= seq![tag]);
                lemma_at_join(buf@, pos as int, seq![tag], enc_bytes(b@));
            }
            if tag == 0 {
                Ok((Op::Create(b), p))
            } else {
                Ok((Op::Update(b), p))
            }
        },
    }
}

/// A sorted operation list that fits, encoded with its count at `pos`.
pub open spec fn ops_at(buf: Seq<u8>, pos: int, e: Seq<(Vec<u8>, Op)>) -> bool {
    sorted_keys(e) && ops_fit(e) && at(buf, pos, le32(e.len() as nat) + enc_ops(e))
}

fn parse_ops(buf: &Vec<u8>, pos: usize) -> (r: Result<(Vec<(Vec<u8>, Op)>, usize), DecodeError>)
    requires
        pos <= buf@.len(),
    ensures
        r matches Ok((v, p)) ==> ops_at(buf@, pos as int, v@) && p == pos + (le32(v@.len() as nat)
            + enc_ops(v@)).len(),
        forall|e: Seq<(Vec<u8>, Op)>| #[trigger] ops_at(buf@, pos as int, e) ==> (r matches Ok((v, _))
            && same_ops(v@, e)),
{
    let n = match read_u32(buf, pos) {
        None => {
            proof {
                assert forall|e: Seq<(Vec<u8>, Op)>| #[trigger] ops_at(buf@, pos as int, e) implies false by {
                    lemma_at_split(buf@, pos as int, le32(e.len() as nat), enc_ops(e));
                }
            }
            return Err(DecodeError::Truncated);
        },
        Some((n, _)) => n,
    };
    let start: usize = pos + 4;
    proof {
        assert forall|e: Seq<(Vec<u8>, Op)>| #[trigger] ops_at(buf@, pos as int, e) implies e.len() == n
            && at(buf@, start as int, enc_ops(e)) by {
            lemma_at_split(buf@, pos as int, le32(e.len() as nat), enc_ops(e));
        }
    }
    let mut v: Vec<(Vec<u8>, Op)> = Vec::new();
    assert(buf@.subrange(start as int, start as int) =~= enc_ops(v@));
    let mut q: usize = start;
    let mut i: u32 = 0;
    while i < n
        invariant
            pos + 4 <= buf@.len(),
            start == pos + 4,
            at(buf@, pos as int, le32(n as nat)),
            i <= n,
            v@.len() == i,
            sorted_keys(v@),
            forall|j: int| 0 <= j < v@.len() ==> (#[trigger] v@[j]).0@.len() <= MAX_LEN && op_fits(v@[j].1@),
            at(buf@, start as int, enc_ops(v@)),
            q == start + enc_ops(v@).len(),
            q <= buf@.len(),
            forall|e: Seq<(Vec<u8>, Op)>| #[trigger] ops_at(buf@, pos as int, e) ==> e.len() == n && at(
                buf@,
                start as int,
                enc_ops(e),
            ) && same_ops(v@, e.take(i as int)),
        decreases n - i,
    {
        let ghost ii = i as int;
        proof {
            assert forall|e: Seq<(Vec<u8>, Op)>| #[trigger] ops_at(buf@, pos as int, e) implies at(
                buf@,
                q as int,
                enc_bytes(e[ii].0@) + enc_op(e[ii].1@),
            ) by {
                lemma_enc_ops_take(e, ii + 1);
                lemma_at_prefix(buf@, start as int, enc_ops(e.take(ii + 1)), enc_ops(e));
                assert(e.take(ii + 1).drop_last() =~= e.take(ii));
                lemma_same_ops(v@, e.take(ii));
                assert(enc_ops(e.take(ii + 1)) =~= enc_ops(e.take(ii)) + (enc_bytes(e[ii].0@) + enc_op(e[ii].1@)));
                lemma_at_split(buf@, start as int, enc_ops(e.take(ii)), enc_bytes(e[ii].0@) + enc_op(e[ii].1@));
            }
        }
        let (k, q1) = match read_bytes(buf, q) {
            None => {
                proof {
                    assert forall|e: Seq<(Vec<u8>, Op)>| #[trigger] ops_at(buf@, pos as int, e) implies false by {
                        lemma_at_split(buf@, q as int, enc_bytes(e[ii].0@), enc_op(e[ii].1@));
                        assert(e[ii].0@.len() <= MAX_LEN);
                    }
                }
                return Err(DecodeError::Truncated);
            },
            Some(x) => x,
        };
        proof {
            assert forall|e: Seq<(Vec<u8>, Op)>| #[trigger] ops_at(buf@, pos as int, e) implies k@ == e[ii].0@
                && at(buf@, q1 as int, enc_op(e[ii].1@)) by {
                lemma_at_split(buf@, q as int, enc_bytes(e[ii].0@), enc_op(e[ii].1@));
                assert(e[ii].0@.len() <= MAX_LEN);
            }
        }
        let (op, q2) = match parse_op(buf, q1) {
            Err(err) => {
                proof {
                    assert forall|e: Seq<(Vec<u8>, Op)>| #[trigger] ops_at(buf@, pos as int, e) implies false by {
                        assert(op_fits(e[ii].1@));
                    }
                }
                return Err(err);
            },
            Ok(x) => x,
        };
        proof {
            assert forall|e: Seq<(Vec<u8>, Op)>| #[trigger] ops_at(buf@, pos as int, e) implies op@ == e[ii].1@ by {
                assert(op_fits(e[ii].1@));
            }
        }
        if v.len() > 0 {
            let ghost last = v@.len() - 1;
            if !bytes_lt(&v[v.len() - 1].0, &k) {
                proof {
                    assert forall|e: Seq<(Vec<u8>, Op)>| #[trigger] ops_at(buf@, pos as int, e) implies false by {
                        assert(v@[last].0@ == e.take(ii)[last].0@);
                        assert(lex_lt(e[last].0@, e[ii].0@));
                    }
                }
                return Err(DecodeError::NotCanonical);
            }
        }
        let ghost old_v = v@;
        proof {
            lemma_at_join(buf@, q as int, enc_bytes(k@), enc_op(op@));
            lemma_at_join(buf@, start as int, enc_ops(old_v), enc_bytes(k@) + enc_op(op@));
        }
        v.push((k, op));
        proof {
            assert(v@.drop_last() =~= old_v);
            assert(enc_ops(v@) =~= enc_ops(old_v) + (enc_bytes(k@) + enc_op(op@)));
            assert forall|a: int, b: int| 0 <= a < b < v@.len() implies lex_lt(#[trigger] v@[a].0@, #[trigger] v@[b].0@) by {
                if b < v@.len() - 1 {
                    assert(lex_lt(old_v[a].0@, old_v[b].0@));
                } else if a < b - 1 {
                    crate::order::lemma_lex_transitive(old_v[a].0@, old_v[b - 1].0@, k@);
                }
            }
            assert forall|e: Seq<(Vec<u8>, Op)>| #[trigger] ops_at(buf@, pos as int, e) implies same_ops(v@, e.take(ii + 1)) by {
                assert forall|j: int| 0 <= j < v@.len() implies (#[trigger] v@[j]).0@ == e.take(ii + 1)[j].0@
                    && v@[j].1@ == e.take(ii + 1)[j].1@ by {
                    if j < ii {
                        assert(v@[j] == old_v[j]);
                    }
                }
            }
        }
        q = q2;
        i += 1;
    }
    proof {
        lemma_at_join(buf@, pos as int, le32(n as nat), enc_ops(v@));
        assert forall|e: Seq<(Vec<u8>, Op)>| #[trigger] ops_at(buf@, pos as int, e) implies same_ops(v@, e) by {
            assert(e.take(n as int) =~= e);
        }
    }
    Ok((v, q))
}

/// A well-formed account change list that fits, encoded at `pos`.
pub open spec fn account_at(buf: Seq<u8>, pos: int, ch: AccountChanges) -> bool {
    ch.wf() && ops_fit(ch.modules@) && ops_fit(ch.resources@) && at(buf, pos, enc_account(ch))
}

fn parse_account_changes(buf: &Vec<u8>, pos: usize) -> (r: Result<(AccountChanges, usize), DecodeError>)
    requires
        pos <= buf@.len(),
    ensures
        r matches Ok((c, p)) ==> account_at(buf@, pos as int, c) && p == pos + enc_account(c).len(),
        forall|ch: AccountChanges| #[trigger] account_at(buf@, pos as int, ch) ==> (r matches Ok((c, _))
            && same_ops(c.modules@, ch.modules@) && same_ops(c.resources@, ch.resources@)),
{
    proof {
        assert forall|ch: AccountChanges| #[trigger] account_at(buf@, pos as int, ch) implies ops_at(
            buf@,
            pos as int,
            ch.modules@,
        ) && ops_at(
            buf@,
            pos + (le32(ch.modules@.len() as nat) + enc_ops(ch.modules@)).len(),
            ch.resources@,
        ) by {
            let a = le32(ch.modules@.len() as nat) + enc_ops(ch.modules@);
            let b = le32(ch.resources@.len() as nat) + enc_ops(ch.resources@);
            assert(enc_account(ch) =~= a + b);
            lemma_at_split(buf@, pos as int, a, b);
        }
    }
    let (modules, p1) = parse_ops(buf, pos)?;
    proof {
        assert forall|ch: AccountChanges| #[trigger] account_at(buf@, pos as int, ch) implies p1 == pos + (
        le32(ch.modules@.len() as nat) + enc_ops(ch.modules@)).len() by {
            lemma_same_ops(modules@, ch.modules@);
        }
    }
    let (resources, p2) = parse_ops(buf, p1)?;
    let c = AccountChanges { modules, resources };
    proof {
        let a = le32(c.modules@.len() as nat) + enc_ops(c.modules@);
        let b = le32(c.resources@.len() as nat) + enc_ops(c.resources@);
        lemma_at_join(buf@, pos as int, a, b);
        assert(enc_account(c) =~= a + b);
    }
    Ok((c, p2))
}

/// A well-formed change set that fits, encoded in `buf` as a whole.
pub open spec fn change_set_in(buf: Seq<u8>, cs: ChangeSet) -> bool {
    cs.wf() && fits(cs) && encoding(cs) == buf
}

/// Decodes a change set. Exactly the encodings of well-formed change sets
/// that fit are accepted, and each gives back the change set it encodes.
#[verifier::rlimit(100)]
pub fn deserialize_changes(buf: &Vec<u8>) -> (r: Result<ChangeSet, DecodeError>)
    ensures
        r matches Ok(cs) ==> change_set_in(buf@, cs),
        forall|cs: ChangeSet| #[trigger] change_set_in(buf@, cs) ==> (r matches Ok(d) && d@ == cs@
            && same_accounts(d.accounts@, cs.accounts@)),
{
    let n = match read_u32(buf, 0) {
        None => {
            proof {
                assert forall|cs: ChangeSet| #[trigger] change_set_in(buf@, cs) implies false by {
                    assert(buf@.subrange(0, buf@.len() as int) =~= buf@);
                    lemma_at_split(buf@, 0, le32(cs.accounts@.len() as nat), enc_accounts(cs.accounts@));
                }
            }
            return Err(DecodeError::Truncated);
        },
        Some((n, _)) => n,
    };
    let start: usize = 4;
    proof {
        assert forall|cs: ChangeSet| #[trigger] change_set_in(buf@, cs) implies cs.accounts@.len() == n
            && at(buf@, 4, enc_accounts(cs.accounts@)) by {
            assert(buf@.subrange(0, buf@.len() as int) =~= buf@);
            lemma_at_split(buf@, 0, le32(cs.accounts@.len() as nat), enc_accounts(cs.accounts@));
        }
    }
    let mut v: Vec<(Vec<u8>, AccountChanges)> = Vec::new();
    assert(buf@.subrange(4, 4) =~= enc_accounts(v@));
    let mut q: usize = start;
    let mut i: u32 = 0;
    while i < n
        invariant
            4 <= buf@.len(),
            start == 4,
            at(buf@, 0, le32(n as nat)),
            i <= n,
            v@.len() == i,
            sorted_keys(v@),
            forall|j: int| 0 <= j < v@.len() ==> (#[trigger] v@[j]).0@.len() == ADDRESS_LENGTH && v@[j].1.wf()
                && ops_fit(v@[j].1.modules@) && ops_fit(v@[j].1.resources@),
            at(buf@, 4, enc_accounts(v@)),
            q == 4 + enc_accounts(v@).len(),
            q <= buf@.len(),
            forall|cs: ChangeSet| #[trigger] change_set_in(buf@, cs) ==> cs.accounts@.len() == n && at(
                buf@,
                4,
                enc_accounts(cs.accounts@),
            ) && same_accounts(v@, cs.accounts@.take(i as int)),
        decreases n - i,
    {
        let ghost ii = i as int;
        proof {
            assert forall|cs: ChangeSet| #[trigger] change_set_in(buf@, cs) implies at(
                buf@,
                q as int,
                cs.accounts@[ii].0@ + enc_account(cs.accounts@[ii].1),
            ) by {
                let e = cs.accounts@;
                lemma_enc_accounts_take(e, ii + 1);
                lemma_at_prefix(buf@, 4, enc_accounts(e.take(ii + 1)), enc_accounts(e));
                assert(e.take(ii + 1).drop_last() =~= e.take(ii));
                lemma_same_accounts(v@, e.take(ii));
                assert(enc_accounts(e.take(ii + 1)) =~= enc_accounts(e.take(ii)) + (e[ii].0@ + enc_account(e[ii].1)));
                lemma_at_split(buf@, 4, enc_accounts(e.take(ii)), e[ii].0@ + enc_account(e[ii].1));
            }
        }
        let (addr, q1) = match read_raw(buf, q, ADDRESS_LENGTH) {
            None => {
                proof {
                    assert forall|cs: ChangeSet| #[trigger] change_set_in(buf@, cs) implies false by {
                        assert(cs.accounts@[ii].0@.len() == ADDRESS_LENGTH);
                    }
                }
                return Err(DecodeError::Truncated);
            },
            Some(x) => x,
        };
        proof {
            assert forall|cs: ChangeSet| #[trigger] change_set_in(buf@, cs) implies addr@ == cs.accounts@[ii].0@
                && account_at(buf@, q1 as int, cs.accounts@[ii].1) by {
                assert(cs.accounts@[ii].0@.len() == ADDRESS_LENGTH);
                lemma_at_split(buf@, q as int, cs.accounts@[ii].0@, enc_account(cs.accounts@[ii].1));
                assert(cs.accounts@[ii].1.wf());
            }
        }
        let (ch, q2) = parse_account_changes(buf, q1)?;
        if v.len() > 0 {
            let ghost last = v@.len() - 1;
            if !bytes_lt(&v[v.len() - 1].0, &addr) {
                proof {
                    assert forall|cs: ChangeSet| #[trigger] change_set_in(buf@, cs) implies false by {
                        assert(v@[last].0@ == cs.accounts@.take(ii)[last].0@);
                        assert(lex_lt(cs.accounts@[last].0@, cs.accounts@[ii].0@));
                    }
                }
                return Err(DecodeError::NotCanonical);
            }
        }
        let ghost old_v = v@;
        proof {
            lemma_at_join(buf@, q as int, addr@, enc_account(ch));
            lemma_at_join(buf@, 4, enc_accounts(old_v), addr@ + enc_account(ch));
        }
        v.push((addr, ch));
        proof {
            assert(v@.drop_last() =~= old_v);
            assert(enc_accounts(v@) =~= enc_accounts(old_v) + (v@.last().0@ + enc_account(v@.last().1)));
            assert forall|a: int, b: int| 0 <= a < b < v@.len() implies lex_lt(#[trigger] v@[a].0@, #[trigger] v@[b].0@) by {
                if b < v@.len() - 1 {
                    assert(lex_lt(old_v[a].0@, old_v[b].0@));
                } else if a < b - 1 {
                    crate::order::lemma_lex_transitive(old_v[a].0@, old_v[b - 1].0@, v@[b].0@);
                }
            }
            assert forall|cs: ChangeSet| #[trigger] change_set_in(buf@, cs) implies same_accounts(v@, cs.accounts@.take(ii + 1)) by {
                assert forall|j: int| 0 <= j < v@.len() implies (#[trigger] v@[j]).0@ == cs.accounts@.take(ii + 1)[j].0@
                    && same_ops(v@[j].1.modules@, cs.accounts@.take(ii + 1)[j].1.modules@)
                    && same_ops(v@[j].1.resources@, cs.accounts@.take(ii + 1)[j].1.resources@) by {
                    if j < ii {
                        assert(v@[j] == old_v[j]);
                    }
                }
            }
        }
        q = q2;
        i += 1;
    }
    if q != buf.len() {
        proof {
            assert forall|cs: ChangeSet| #[trigger] change_set_in(buf@, cs) implies false by {
                assert(cs.accounts@.take(n as int) =~= cs.accounts@);
                lemma_same_accounts(v@, cs.accounts@);
            }
        }
        return Err(DecodeError::TrailingBytes);
    }
    let cs = ChangeSet { accounts: v };
    proof {
        lemma_at_join(buf@, 0, le32(n as nat), enc_accounts(cs.accounts@));
        assert(buf@.subrange(0, buf@.len() as int) =~= buf@);
        assert forall|c: ChangeSet| #[trigger] change_set_in(buf@, c) implies cs@ == c@ && same_accounts(cs.accounts@, c.accounts@) by {
            assert(c.accounts@.take(n as int) =~= c.accounts@);
            lemma_same_accounts(cs.accounts@, c.accounts@);
        }
    }
    Ok(cs)
}

} // verus!
