//! Little-endian integer fields and the in-place block moves that open and
//! close 32-byte slots inside a record buffer.

use vstd::prelude::*;
use vstd::arithmetic::div_mod::{
    lemma_div_denominator, lemma_fundamental_div_mod, lemma_fundamental_div_mod_converse,
};

verus! {

/// The value of four bytes read as a little-endian unsigned integer.
#[verifier::opaque]
pub open spec fn u32_le(b: Seq<u8>) -> int {
    b[0] as int + b[1] as int * 256 + b[2] as int * 65536 + b[3] as int * 16777216
}

/// The four little-endian bytes of `n`.
#[verifier::opaque]
pub open spec fn le_bytes(n: u32) -> Seq<u8> {
    seq![
        (n % 256) as u8,
        ((n / 256) % 256) as u8,
        ((n / 65536) % 256) as u8,
        (n / 16777216) as u8,
    ]
}

/// Reading back the bytes written for `n` gives `n`.
pub proof fn lemma_le_bytes_round_trip(n: u32)
    ensures
        le_bytes(n).len() == 4,
        u32_le(le_bytes(n)) == n,
{
    reveal(u32_le);
    reveal(le_bytes);
    let x = n as int;
    lemma_fundamental_div_mod(x, 256);
    lemma_fundamental_div_mod(x / 256, 256);
    lemma_fundamental_div_mod(x / 65536, 256);
    lemma_div_denominator(x, 256, 256);
    lemma_div_denominator(x, 65536, 256);
    assert(x / 16777216 < 256);
}

/// Four bytes read as a number and written back are the same four bytes.
pub proof fn lemma_u32_le_inverse(b: Seq<u8>)
    requires
        b.len() == 4,
    ensures
        0 <= u32_le(b) <= u32::MAX,
        le_bytes(u32_le(b) as u32) == b,
{
    reveal(u32_le);
    reveal(le_bytes);
    let x = u32_le(b);
    let q1 = b[1] as int + b[2] as int * 256 + b[3] as int * 65536;
    let q2 = b[2] as int + b[3] as int * 256;
    lemma_fundamental_div_mod_converse(x, 256, q1, b[0] as int);
    lemma_fundamental_div_mod_converse(q1, 256, q2, b[1] as int);
    lemma_fundamental_div_mod_converse(q2, 256, b[3] as int, b[2] as int);
    lemma_div_denominator(x, 256, 256);
    lemma_div_denominator(x, 65536, 256);
    assert(le_bytes(x as u32) =~= b);
}

/// The value of eight bytes read as a little-endian unsigned integer.
#[verifier::opaque]
pub open spec fn u64_le(b: Seq<u8>) -> int {
    u32_le(b.subrange(0, 4)) + u32_le(b.subrange(4, 8)) * 4294967296
}

/// The eight little-endian bytes of `n`.
#[verifier::opaque]
pub open spec fn le_bytes64(n: u64) -> Seq<u8> {
    le_bytes((n % 4294967296) as u32) + le_bytes((n / 4294967296) as u32)
}

/// Reading back the bytes written for `n` gives `n`.
pub proof fn lemma_le_bytes64_round_trip(n: u64)
    ensures
        le_bytes64(n).len() == 8,
        u64_le(le_bytes64(n)) == n,
{
    reveal(u64_le);
    reveal(le_bytes64);
    let lo = (n % 4294967296) as u32;
    let hi = (n / 4294967296) as u32;
    lemma_le_bytes_round_trip(lo);
    lemma_le_bytes_round_trip(hi);
    lemma_fundamental_div_mod(n as int, 4294967296);
    assert(le_bytes64(n).subrange(0, 4) =~= le_bytes(lo));
    assert(le_bytes64(n).subrange(4, 8) =~= le_bytes(hi));
}

/// Eight bytes read as a number and written back are the same eight bytes.
pub proof fn lemma_u64_le_inverse(b: Seq<u8>)
    requires
        b.len() == 8,
    ensures
        0 <= u64_le(b) <= u64::MAX,
        le_bytes64(u64_le(b) as u64) == b,
{
    reveal(u64_le);
    reveal(le_bytes64);
    let lo = u32_le(b.subrange(0, 4));
    let hi = u32_le(b.subrange(4, 8));
    lemma_u32_le_inverse(b.subrange(0, 4));
    lemma_u32_le_inverse(b.subrange(4, 8));
    let x = u64_le(b);
    lemma_fundamental_div_mod_converse(x, 4294967296, hi, lo);
    assert(le_bytes64(x as u64) =~= b.subrange(0, 4) + b.subrange(4, 8));
    assert(b =~= b.subrange(0, 4) + b.subrange(4, 8));
}

/// Reads the little-endian `u32` stored at `at`.
pub fn read_u32_le(buf: &Vec<u8>, at: usize) -> (r: u32)
    requires
        at + 4 <= buf@.len(),
    ensures
        r == u32_le(buf@.subrange(at as int, at + 4)),
{
    proof {
        reveal(u32_le);
    }
    let _len = buf.len();
    let r = buf[at] as u32 + buf[at + 1] as u32 * 256 + buf[at + 2] as u32 * 65536 + buf[at
        + 3] as u32 * 16777216;
    r
}

/// Overwrites the four bytes at `at` with the little-endian bytes of `n`.
pub fn write_u32_le(buf: &mut Vec<u8>, at: usize, n: u32)
    requires
        at + 4 <= old(buf)@.len(),
    ensures
        final(buf)@.len() == old(buf)@.len(),
        final(buf)@ == old(buf)@.subrange(0, at as int) + le_bytes(n) + old(buf)@.subrange(
            at + 4,
            old(buf)@.len() as int,
        ),
{
    proof {
        reveal(le_bytes);
    }
    let _len = buf.len();
    buf.set(at, (n % 256) as u8);
    buf.set(at + 1, ((n / 256) % 256) as u8);
    buf.set(at + 2, ((n / 65536) % 256) as u8);
    buf.set(at + 3, (n / 16777216) as u8);
    assert(final(buf)@ =~= old(buf)@.subrange(0, at as int) + le_bytes(n) + old(buf)@.subrange(
        at + 4,
        old(buf)@.len() as int,
    ));
}

/// Reads the little-endian `u64` stored at `at`.
pub fn read_u64_le(buf: &Vec<u8>, at: usize) -> (r: u64)
    requires
        at + 8 <= buf@.len(),
    ensures
        r == u64_le(buf@.subrange(at as int, at + 8)),
{
    proof {
        reveal(u64_le);
    }
    let _len = buf.len();
    let lo = read_u32_le(buf, at);
    let hi = read_u32_le(buf, at + 4);
    proof {
        let s = buf@.subrange(at as int, at + 8);
        assert(s.subrange(0, 4) =~= buf@.subrange(at as int, at + 4));
        assert(s.subrange(4, 8) =~= buf@.subrange(at + 4, at + 8));
    }
    lo as u64 + hi as u64 * 4294967296
}

/// Overwrites the eight bytes at `at` with the little-endian bytes of `n`.
pub fn write_u64_le(buf: &mut Vec<u8>, at: usize, n: u64)
    requires
        at + 8 <= old(buf)@.len(),
    ensures
        final(buf)@.len() == old(buf)@.len(),
        final(buf)@ == old(buf)@.subrange(0, at as int) + le_bytes64(n) + old(buf)@.subrange(
            at + 8,
            old(buf)@.len() as int,
        ),
{
    proof {
        reveal(le_bytes64);
        lemma_le_bytes_round_trip((n % 4294967296) as u32);
        lemma_le_bytes_round_trip((n / 4294967296) as u32);
    }
    let _len = buf.len();
    let ghost orig = buf@;
    write_u32_le(buf, at, (n % 4294967296) as u32);
    write_u32_le(buf, at + 4, (n / 4294967296) as u32);
    assert(buf@ =~= orig.subrange(0, at as int) + le_bytes64(n) + orig.subrange(
        at + 8,
        orig.len() as int,
    ));
}

/// Inserts the 32 bytes of `key` at `at`, moving every byte from `at` on
/// forward by 32 in one overlapping move.
pub fn insert_key_at(buf: &mut Vec<u8>, at: usize, key: &[u8; 32])
    requires
        at <= old(buf)@.len(),
        old(buf)@.len() + 32 <= usize::MAX,
    ensures
        final(buf)@ == old(buf)@.subrange(0, at as int) + key@ + old(buf)@.subrange(
            at as int,
            old(buf)@.len() as int,
        ),
{
    let ghost orig = buf@;
    let len = buf.len();
    let mut p: usize = 0;
    while p < 32
        invariant
            0 <= p <= 32,
            buf@.len() == len + p,
            len == orig.len(),
            forall|j: int| 0 <= j < len ==> buf@[j] == orig[j],
        decreases 32 - p,
    {
        buf.push(0u8);
        p = p + 1;
    }
    let mut k: usize = len;
    while k > at
        invariant
            at <= k <= len,
            len == orig.len(),
            len + 32 <= usize::MAX,
            buf@.len() == len + 32,
            forall|j: int| 0 <= j < k ==> buf@[j] == orig[j],
            forall|j: int| k <= j < len ==> buf@[j + 32] == orig[j],
        decreases k,
    {
        k = k - 1;
        let b = buf[k];
        buf.set(k + 32, b);
    }
    let mut i: usize = 0;
    while i < 32
        invariant
            0 <= i <= 32,
            len == orig.len(),
            len + 32 <= usize::MAX,
            at <= len,
            key@.len() == 32,
            buf@.len() == len + 32,
            forall|j: int| 0 <= j < at ==> buf@[j] == orig[j],
            forall|j: int| at <= j < len ==> buf@[j + 32] == orig[j],
            forall|j: int| 0 <= j < i ==> buf@[at + j] == key@[j],
        decreases 32 - i,
    {
        buf.set(at + i, key[i]);
        i = i + 1;
    }
    assert(buf@ =~= orig.subrange(0, at as int) + key@ + orig.subrange(at as int, len as int));
}

/// Removes the `n` bytes at `at`, moving every byte after them backward by
/// `n` in one overlapping move, then shrinks the buffer by `n`.
pub fn remove_bytes_at(buf: &mut Vec<u8>, at: usize, n: usize)
    requires
        at + n <= old(buf)@.len(),
    ensures
        final(buf)@ == old(buf)@.subrange(0, at as int) + old(buf)@.subrange(
            at + n,
            old(buf)@.len() as int,
        ),
{
    let ghost orig = buf@;
    let len = buf.len();
    let mut j: usize = at;
    while j < len - n
        invariant
            at <= j <= len - n,
            at + n <= len,
            len == orig.len(),
            buf@.len() == len,
            forall|i: int| 0 <= i < at ==> buf@[i] == orig[i],
            forall|i: int| at <= i < j ==> buf@[i] == orig[i + n],
            forall|i: int| j <= i < len ==> buf@[i] == orig[i],
        decreases len - n - j,
    {
        let b = buf[j + n];
        buf.set(j, b);
        j = j + 1;
    }
    buf.truncate(len - n);
    assert(buf@ =~= orig.subrange(0, at as int) + orig.subrange(at + n, len as int));
}

/// Copies the 32 bytes at `at` out as an identity.
pub fn key_at(buf: &Vec<u8>, at: usize) -> (k: [u8; 32])
    requires
        at + 32 <= buf@.len(),
    ensures
        k@ == buf@.subrange(at as int, at + 32),
{
    let len = buf.len();
    let mut k: [u8; 32] = [0u8; 32];
    let mut i: usize = 0;
    while i < 32
        invariant
            0 <= i <= 32,
            at + 32 <= buf@.len(),
            len == buf@.len(),
            k@.len() == 32,
            forall|j: int| 0 <= j < i ==> k@[j] == buf@[at + j],
        decreases 32 - i,
    {
        k[i] = buf[at + i];
        i = i + 1;
    }
    assert(k@ =~= buf@.subrange(at as int, at + 32));
    k
}

} // verus!
