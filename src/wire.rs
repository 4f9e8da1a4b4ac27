//! Reading the primitives of the binary encodings: 4-byte little-endian
//! numbers and length-prefixed byte strings.

use vstd::prelude::*;

use crate::codec::{enc_bytes, le32, MAX_LEN};

verus! {

/// `e` stands in `buf` from position `pos` on.
pub open spec fn at(buf: Seq<u8>, pos: int, e: Seq<u8>) -> bool {
    0 <= pos && pos + e.len() <= buf.len() && buf.subrange(pos, pos + e.len()) == e
}

pub proof fn lemma_at_split(buf: Seq<u8>, pos: int, a: Seq<u8>, b: Seq<u8>)
    requires
        at(buf, pos, a + b),
    ensures
        at(buf, pos, a),
        at(buf, pos + a.len(), b),
{
    let s = buf.subrange(pos, pos + a.len() + b.len());
    assert(buf.subrange(pos, pos + a.len()) =~= s.subrange(0, a.len() as int));
    assert((a + b).subrange(0, a.len() as int) =~= a);
    assert(buf.subrange(pos + a.len(), pos + a.len() + b.len()) =~= s.subrange(
        a.len() as int,
        s.len() as int,
    ));
    assert((a + b).subrange(a.len() as int, (a + b).len() as int) =~= b);
}

pub proof fn lemma_at_join(buf: Seq<u8>, pos: int, a: Seq<u8>, b: Seq<u8>)
    requires
        at(buf, pos, a),
        at(buf, pos + a.len(), b),
    ensures
        at(buf, pos, a + b),
{
    let s = buf.subrange(pos, pos + a.len() + b.len());
    assert forall|i: int| 0 <= i < s.len() implies s[i] == (a + b)[i] by {
        if i < a.len() {
            assert(buf.subrange(pos, pos + a.len())[i] == buf[pos + i]);
        } else {
            assert(buf.subrange(pos + a.len(), pos + a.len() + b.len())[i - a.len()] == buf[pos + i]);
        }
    }
    assert(s =~= a + b);
}

proof fn lemma_le32_of_bytes(b0: u8, b1: u8, b2: u8, b3: u8)
    ensures
        le32(b0 as nat + 256 * b1 as nat + 65536 * b2 as nat + 16777216 * b3 as nat) == seq![
            b0,
            b1,
            b2,
            b3,
        ],
{
    let n: nat = b0 as nat + 256 * b1 as nat + 65536 * b2 as nat + 16777216 * b3 as nat;
    assert(n % 256 == b0) by (nonlinear_arith)
        requires
            n == b0 as nat + 256 * b1 as nat + 65536 * b2 as nat + 16777216 * b3 as nat,
            b0 < 256,
    ;
    assert(n / 256 == b1 as nat + 256 * b2 as nat + 65536 * b3 as nat) by (nonlinear_arith)
        requires
            n == b0 as nat + 256 * b1 as nat + 65536 * b2 as nat + 16777216 * b3 as nat,
            b0 < 256,
    ;
    assert((n / 256) % 256 == b1) by (nonlinear_arith)
        requires
            n / 256 == b1 as nat + 256 * b2 as nat + 65536 * b3 as nat,
            b1 < 256,
    ;
    assert(n / 65536 == b2 as nat + 256 * b3 as nat) by (nonlinear_arith)
        requires
            n == b0 as nat + 256 * b1 as nat + 65536 * b2 as nat + 16777216 * b3 as nat,
            b0 < 256,
            b1 < 256,
    ;
    assert((n / 65536) % 256 == b2) by (nonlinear_arith)
        requires
            n / 65536 == b2 as nat + 256 * b3 as nat,
            b2 < 256,
    ;
    assert(n / 16777216 == b3) by (nonlinear_arith)
        requires
            n == b0 as nat + 256 * b1 as nat + 65536 * b2 as nat + 16777216 * b3 as nat,
            b0 < 256,
            b1 < 256,
            b2 < 256,
    ;
    assert(le32(n) =~= seq![b0, b1, b2, b3]);
}

proof fn lemma_le32_value(m: nat)
    requires
        m <= MAX_LEN,
    ensures
        m == le32(m)[0] as nat + 256 * le32(m)[1] as nat + 65536 * le32(m)[2] as nat + 16777216
            * le32(m)[3] as nat,
{
    assert(m == m % 256 + 256 * ((m / 256) % 256) + 65536 * ((m / 65536) % 256) + 16777216 * ((m
        / 16777216) % 256)) by (nonlinear_arith)
        requires
            m <= 0xffff_ffff,
    ;
}

/// Reads a 4-byte little-endian number at `pos`.
pub fn read_u32(buf: &Vec<u8>, pos: usize) -> (r: Option<(u32, usize)>)
    requires
        pos <= buf@.len(),
    ensures
        r is Some <==> pos + 4 <= buf@.len(),
        r matches Some((n, p)) ==> p == pos + 4 && at(buf@, pos as int, le32(n as nat)),
        forall|m: nat| m <= MAX_LEN && #[trigger] at(buf@, pos as int, le32(m)) ==> (r matches Some((n, _)) && n == m),
{
    if buf.len() - pos < 4 {
        return None;
    }
    let b0 = buf[pos];
    let b1 = buf[pos + 1];
    let b2 = buf[pos + 2];
    let b3 = buf[pos + 3];
    let n: u32 = b0 as u32 + 256 * (b1 as u32) + 65536 * (b2 as u32) + 16777216 * (b3 as u32);
    proof {
        lemma_le32_of_bytes(b0, b1, b2, b3);
        assert(buf@.subrange(pos as int, pos + 4) =~= seq![b0, b1, b2, b3]);
        assert forall|m: nat| m <= MAX_LEN && #[trigger] at(buf@, pos as int, le32(m)) implies n == m by {
            lemma_le32_value(m);
            assert(le32(m) == seq![b0, b1, b2, b3]);
            assert(le32(m)[0] == b0 && le32(m)[1] == b1 && le32(m)[2] == b2 && le32(m)[3] == b3);
        }
    }
    Some((n, pos + 4))
}

/// Reads `n` raw bytes at `pos`.
pub fn read_raw(buf: &Vec<u8>, pos: usize, n: usize) -> (r: Option<(Vec<u8>, usize)>)
    requires
        pos <= buf@.len(),
    ensures
        r is Some <==> pos + n <= buf@.len(),
        r matches Some((b, p)) ==> p == pos + n && b@.len() == n && at(buf@, pos as int, b@),
{
    if buf.len() - pos < n {
        return None;
    }
    let mut out: Vec<u8> = Vec::with_capacity(n);
    let mut i: usize = 0;
    while i < n
        invariant
            pos + n <= buf@.len() <= usize::MAX,
            i <= n,
            out@ == buf@.subrange(pos as int, pos + i),
        decreases n - i,
    {
        out.push(buf[pos + i]);
        i += 1;
        assert(out@ =~= buf@.subrange(pos as int, pos + i));
    }
    Some((out, pos + n))
}

/// Reads a length-prefixed byte string at `pos`.
pub fn read_bytes(buf: &Vec<u8>, pos: usize) -> (r: Option<(Vec<u8>, usize)>)
    requires
        pos <= buf@.len(),
    ensures
        r matches Some((b, p)) ==> p == pos + enc_bytes(b@).len() && b@.len() <= MAX_LEN && at(
            buf@,
            pos as int,
            enc_bytes(b@),
        ),
        forall|e: Seq<u8>|
            e.len() <= MAX_LEN && #[trigger] at(buf@, pos as int, enc_bytes(e)) ==> (r matches Some((b, _))
                && b@ == e),
{
    match read_u32(buf, pos) {
        None => {
            proof {
                assert forall|e: Seq<u8>|
                    e.len() <= MAX_LEN && #[trigger] at(buf@, pos as int, enc_bytes(e)) implies false by {
                    lemma_at_split(buf@, pos as int, le32(e.len()), e);
                }
            }
            None
        },
        Some((n, p)) => {
            match read_raw(buf, p, n as usize) {
                None => {
                    proof {
                        assert forall|e: Seq<u8>|
                            e.len() <= MAX_LEN && #[trigger] at(buf@, pos as int, enc_bytes(e)) implies false by {
                            lemma_at_split(buf@, pos as int, le32(e.len()), e);
                            assert(at(buf@, pos as int, le32(e.len())));
                        }
                    }
                    None
                },
                Some((b, q)) => {
                    proof {
                        lemma_at_join(buf@, pos as int, le32(n as nat), b@);
                        assert forall|e: Seq<u8>|
                            e.len() <= MAX_LEN && #[trigger] at(buf@, pos as int, enc_bytes(e)) implies b@ == e by {
                            lemma_at_split(buf@, pos as int, le32(e.len()), e);
                            assert(at(buf@, pos as int, le32(e.len())));
                            assert(e.len() == n);
                        }
                    }
                    Some((b, q))
                },
            }
        },
    }
}

} // verus!
