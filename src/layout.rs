//! The packed layout of a world record: how a record's contents map to bytes
//! and back.

use vstd::prelude::*;

use crate::bytes::{
    le_bytes, le_bytes64, lemma_le_bytes64_round_trip, lemma_le_bytes_round_trip,
    lemma_u32_le_inverse, lemma_u64_le_inverse, u32_le, u64_le,
};

verus! {

/// Bytes of the fixed header: discriminator, id and entity count.
pub const HEADER_LEN: usize = 24;

/// Offset of the authority count.
pub const AUTHORITY_COUNT_AT: usize = 24;

/// Offset of the first authority.
pub const AUTHORITIES_AT: usize = 28;

/// The contents of a world record.
pub ghost struct WorldModel {
    pub discriminator: u64,
    pub id: u64,
    pub entities: u64,
    pub authorities: Seq<Seq<u8>>,
    pub permissionless: bool,
    pub systems: Seq<Seq<u8>>,
}

/// Concatenation of a list of identities.
pub open spec fn concat_keys(s: Seq<Seq<u8>>) -> Seq<u8>
    decreases s.len(),
{
    if s.len() == 0 {
        Seq::empty()
    } else {
        concat_keys(s.drop_last()) + s.last()
    }
}

/// Every element is a 32-byte identity.
pub open spec fn all_keys(s: Seq<Seq<u8>>) -> bool {
    forall|i: int| 0 <= i < s.len() ==> (#[trigger] s[i]).len() == 32
}

/// The `n` consecutive 32-byte identities stored from `start` on.
pub open spec fn keys_from(b: Seq<u8>, start: int, n: int) -> Seq<Seq<u8>> {
    Seq::new(n as nat, |i: int| b.subrange(start + 32 * i, start + 32 * i + 32))
}

/// The byte of a flag.
pub open spec fn flag_byte(f: bool) -> u8 {
    if f {
        1
    } else {
        0
    }
}

/// The packed bytes of a world record: header, authority count, authorities,
/// flag, system count, systems, with no padding.
pub open spec fn encoding(m: WorldModel) -> Seq<u8> {
    le_bytes64(m.discriminator) + le_bytes64(m.id) + le_bytes64(m.entities) + le_bytes(
        m.authorities.len() as u32,
    ) + concat_keys(m.authorities) + seq![flag_byte(m.permissionless)] + le_bytes(
        m.systems.len() as u32,
    ) + concat_keys(m.systems)
}

/// The record's own constraints: identities of 32 bytes and counts that fit the count fields.
pub open spec fn model_fits(m: WorldModel) -> bool {
    all_keys(m.authorities) && all_keys(m.systems) && m.authorities.len() <= u32::MAX
        && m.systems.len() <= u32::MAX
}

/// Number of authorities a buffer declares.
pub open spec fn authority_count(b: Seq<u8>) -> int {
    u32_le(b.subrange(24, 28))
}

/// Offset of the flag byte, right after the authority list.
pub open spec fn flag_at(b: Seq<u8>) -> int {
    28 + 32 * authority_count(b)
}

/// Number of systems a buffer declares.
pub open spec fn system_count(b: Seq<u8>) -> int {
    u32_le(b.subrange(flag_at(b) + 1, flag_at(b) + 5))
}

/// Offset of the first system.
pub open spec fn systems_at(b: Seq<u8>) -> int {
    flag_at(b) + 5
}

/// The declared lengths fit the buffer exactly.
pub open spec fn layout_ok(b: Seq<u8>) -> bool {
    &&& b.len() >= 28
    &&& b.len() >= flag_at(b) + 5
    &&& b.len() == systems_at(b) + 32 * system_count(b)
}

/// The record a buffer holds, read through its declared lengths.
pub open spec fn model_of(b: Seq<u8>) -> WorldModel {
    WorldModel {
        discriminator: u64_le(b.subrange(0, 8)) as u64,
        id: u64_le(b.subrange(8, 16)) as u64,
        entities: u64_le(b.subrange(16, 24)) as u64,
        authorities: keys_from(b, 28, authority_count(b)),
        permissionless: b[flag_at(b)] == 1,
        systems: keys_from(b, systems_at(b), system_count(b)),
    }
}

/// A buffer that holds a world record: exact layout and a flag of 0 or 1.
pub open spec fn layout_valid(b: Seq<u8>) -> bool {
    layout_ok(b) && (b[flag_at(b)] == 0 || b[flag_at(b)] == 1)
}

pub proof fn lemma_concat_keys_len(s: Seq<Seq<u8>>)
    requires
        all_keys(s),
    ensures
        concat_keys(s).len() == 32 * s.len(),
    decreases s.len(),
{
    if s.len() > 0 {
        lemma_concat_keys_len(s.drop_last());
    }
}

pub proof fn lemma_concat_keys_append(a: Seq<Seq<u8>>, c: Seq<Seq<u8>>)
    ensures
        concat_keys(a + c) == concat_keys(a) + concat_keys(c),
    decreases c.len(),
{
    if c.len() == 0 {
        assert(a + c =~= a);
        assert(concat_keys(a) + concat_keys(c) =~= concat_keys(a));
    } else {
        lemma_concat_keys_append(a, c.drop_last());
        assert((a + c).drop_last() =~= a + c.drop_last());
        assert(concat_keys(a + c) =~= concat_keys(a) + concat_keys(c));
    }
}

/// The identities stored from `start` on, concatenated, are the bytes they span.
pub proof fn lemma_concat_keys_from(b: Seq<u8>, start: int, n: int)
    requires
        0 <= start,
        0 <= n,
        start + 32 * n <= b.len(),
    ensures
        concat_keys(keys_from(b, start, n)) == b.subrange(start, start + 32 * n),
    decreases n,
{
    if n > 0 {
        lemma_concat_keys_from(b, start, n - 1);
        assert(keys_from(b, start, n).drop_last() =~= keys_from(b, start, n - 1));
        assert(b.subrange(start, start + 32 * n) =~= b.subrange(start, start + 32 * (n - 1))
            + b.subrange(start + 32 * (n - 1), start + 32 * n));
    }
}

/// Element `i` of a list of identities sits at bytes `32 * i ..` of its concatenation.
pub proof fn lemma_concat_keys_index(s: Seq<Seq<u8>>, i: int)
    requires
        all_keys(s),
        0 <= i < s.len(),
    ensures
        concat_keys(s).subrange(32 * i, 32 * i + 32) == s[i],
    decreases s.len(),
{
    lemma_concat_keys_len(s.drop_last());
    if i < s.len() - 1 {
        lemma_concat_keys_index(s.drop_last(), i);
        assert(concat_keys(s).subrange(32 * i, 32 * i + 32) =~= concat_keys(s.drop_last()).subrange(
            32 * i,
            32 * i + 32,
        ));
    } else {
        assert(concat_keys(s).subrange(32 * i, 32 * i + 32) =~= s.last());
    }
}

/// A window inside the middle part of a three-part sequence.
pub proof fn lemma_window(p: Seq<u8>, q: Seq<u8>, r: Seq<u8>, lo: int, hi: int)
    requires
        0 <= lo <= hi <= q.len(),
    ensures
        (p + q + r).subrange(p.len() + lo, p.len() + hi) == q.subrange(lo, hi),
{
    assert((p + q + r).subrange(p.len() + lo, p.len() + hi) =~= q.subrange(lo, hi));
}

/// Where the header, counts and flag sit in the packed bytes.
proof fn lemma_encoding_fields(m: WorldModel)
    requires
        model_fits(m),
    ensures
        encoding(m).len() == 33 + 32 * m.authorities.len() + 32 * m.systems.len(),
        encoding(m).subrange(0, 8) == le_bytes64(m.discriminator),
        encoding(m).subrange(8, 16) == le_bytes64(m.id),
        encoding(m).subrange(16, 24) == le_bytes64(m.entities),
        encoding(m).subrange(24, 28) == le_bytes(m.authorities.len() as u32),
        encoding(m)[28 + 32 * m.authorities.len() as int] == flag_byte(m.permissionless),
        encoding(m).subrange(
            29 + 32 * m.authorities.len() as int,
            33 + 32 * m.authorities.len() as int,
        )
            == le_bytes(m.systems.len() as u32),
{
    let na = m.authorities.len() as int;
    let ns = m.systems.len() as int;
    lemma_le_bytes64_round_trip(m.discriminator);
    lemma_le_bytes64_round_trip(m.id);
    lemma_le_bytes64_round_trip(m.entities);
    lemma_le_bytes_round_trip(na as u32);
    lemma_le_bytes_round_trip(ns as u32);
    lemma_concat_keys_len(m.authorities);
    lemma_concat_keys_len(m.systems);
    let d = le_bytes64(m.discriminator);
    let id = le_bytes64(m.id);
    let e = le_bytes64(m.entities);
    let ac = le_bytes(na as u32);
    let ca = concat_keys(m.authorities);
    let f = seq![flag_byte(m.permissionless)];
    let sc = le_bytes(ns as u32);
    let cs = concat_keys(m.systems);
    let b = encoding(m);
    assert(b == d + id + e + ac + ca + f + sc + cs);
    lemma_window(Seq::empty(), d, id + e + ac + ca + f + sc + cs, 0, 8);
    assert(b =~= Seq::empty() + d + (id + e + ac + ca + f + sc + cs));
    lemma_window(d, id, e + ac + ca + f + sc + cs, 0, 8);
    assert(b =~= d + id + (e + ac + ca + f + sc + cs));
    lemma_window(d + id, e, ac + ca + f + sc + cs, 0, 8);
    assert(b =~= (d + id) + e + (ac + ca + f + sc + cs));
    lemma_window(d + id + e, ac, ca + f + sc + cs, 0, 4);
    assert(b =~= (d + id + e) + ac + (ca + f + sc + cs));
    lemma_window(d + id + e + ac + ca, f, sc + cs, 0, 1);
    assert(b =~= (d + id + e + ac + ca) + f + (sc + cs));
    lemma_window(d + id + e + ac + ca + f, sc, cs, 0, 4);
    assert(b =~= (d + id + e + ac + ca + f) + sc + cs);
}

/// Where each identity sits in the packed bytes.
proof fn lemma_encoding_keys(m: WorldModel)
    requires
        model_fits(m),
    ensures
        forall|i: int|
            0 <= i < m.authorities.len() ==> encoding(m).subrange(28 + 32 * i, 28 + 32 * i + 32)
                == #[trigger] m.authorities[i],
        forall|i: int|
            0 <= i < m.systems.len() ==> encoding(m).subrange(
                33 + 32 * m.authorities.len() as int + 32 * i,
                33 + 32 * m.authorities.len() as int + 32 * i + 32,
            ) == #[trigger] m.systems[i],
{
    let na = m.authorities.len() as int;
    let ns = m.systems.len() as int;
    lemma_le_bytes64_round_trip(m.discriminator);
    lemma_le_bytes64_round_trip(m.id);
    lemma_le_bytes64_round_trip(m.entities);
    lemma_le_bytes_round_trip(na as u32);
    lemma_le_bytes_round_trip(ns as u32);
    lemma_concat_keys_len(m.authorities);
    lemma_concat_keys_len(m.systems);
    let h = le_bytes64(m.discriminator) + le_bytes64(m.id) + le_bytes64(m.entities);
    let ca = concat_keys(m.authorities);
    let cs = concat_keys(m.systems);
    let f = seq![flag_byte(m.permissionless)];
    let tail = f + le_bytes(ns as u32) + cs;
    let pre_a = h + le_bytes(na as u32);
    let pre_s = pre_a + ca + f + le_bytes(ns as u32);
    let b = encoding(m);
    assert(b =~= pre_a + ca + tail);
    assert(b =~= pre_s + cs + Seq::<u8>::empty());
    assert forall|i: int| 0 <= i < na implies b.subrange(28 + 32 * i, 28 + 32 * i + 32)
        == #[trigger] m.authorities[i] by {
        lemma_concat_keys_index(m.authorities, i);
        lemma_window(pre_a, ca, tail, 32 * i, 32 * i + 32);
    }
    assert forall|i: int| 0 <= i < ns implies b.subrange(
        33 + 32 * na + 32 * i,
        33 + 32 * na + 32 * i + 32,
    ) == #[trigger] m.systems[i] by {
        lemma_concat_keys_index(m.systems, i);
        lemma_window(pre_s, cs, Seq::<u8>::empty(), 32 * i, 32 * i + 32);
    }
}

/// Reading the packed bytes of a record gives the record back.
pub proof fn lemma_encoding_round_trip(m: WorldModel)
    requires
        model_fits(m),
    ensures
        layout_valid(encoding(m)),
        model_of(encoding(m)) == m,
{
    let b = encoding(m);
    let na = m.authorities.len() as int;
    let ns = m.systems.len() as int;
    lemma_le_bytes64_round_trip(m.discriminator);
    lemma_le_bytes64_round_trip(m.id);
    lemma_le_bytes64_round_trip(m.entities);
    lemma_le_bytes_round_trip(na as u32);
    lemma_le_bytes_round_trip(ns as u32);
    lemma_encoding_fields(m);
    lemma_encoding_keys(m);
    let fa = 28 + 32 * na;
    assert(authority_count(b) == na);
    assert(system_count(b) == ns);
    assert(keys_from(b, 28, na) =~= m.authorities);
    assert(keys_from(b, fa + 5, ns) =~= m.systems);
}

/// Two adjacent windows make one.
pub proof fn lemma_join(b: Seq<u8>, i: int, j: int, k: int)
    requires
        0 <= i <= j <= k <= b.len(),
    ensures
        b.subrange(i, j) + b.subrange(j, k) == b.subrange(i, k),
{
    assert(b.subrange(i, j) + b.subrange(j, k) =~= b.subrange(i, k));
}

/// A buffer with a valid layout is the packed bytes of the record it holds.
pub proof fn lemma_layout_is_encoding(b: Seq<u8>)
    requires
        layout_valid(b),
    ensures
        model_fits(model_of(b)),
        encoding(model_of(b)) == b,
{
    let m = model_of(b);
    let na = authority_count(b);
    let fa = flag_at(b);
    let ns = system_count(b);
    let n = b.len() as int;
    lemma_u64_le_inverse(b.subrange(0, 8));
    lemma_u64_le_inverse(b.subrange(8, 16));
    lemma_u64_le_inverse(b.subrange(16, 24));
    lemma_u32_le_inverse(b.subrange(24, 28));
    lemma_u32_le_inverse(b.subrange(fa + 1, fa + 5));
    lemma_concat_keys_from(b, 28, na);
    lemma_concat_keys_from(b, fa + 5, ns);
    assert(m.authorities.len() == na);
    assert(m.systems.len() == ns);
    assert(seq![flag_byte(m.permissionless)] =~= b.subrange(fa, fa + 1));
    assert(encoding(m) == b.subrange(0, 8) + b.subrange(8, 16) + b.subrange(16, 24)
        + b.subrange(24, 28) + b.subrange(28, fa) + b.subrange(fa, fa + 1) + b.subrange(
        fa + 1,
        fa + 5,
    ) + b.subrange(fa + 5, n));
    lemma_join(b, 0, 8, 16);
    lemma_join(b, 0, 16, 24);
    lemma_join(b, 0, 24, 28);
    lemma_join(b, 0, 28, fa);
    lemma_join(b, 0, fa, fa + 1);
    lemma_join(b, 0, fa + 1, fa + 5);
    lemma_join(b, 0, fa + 5, n);
    assert(b.subrange(0, n) =~= b);
}

/// The header bytes of a record.
pub open spec fn header_bytes(m: WorldModel) -> Seq<u8> {
    le_bytes64(m.discriminator) + le_bytes64(m.id) + le_bytes64(m.entities)
}

/// The bytes that follow the authority list.
pub open spec fn after_authorities(m: WorldModel) -> Seq<u8> {
    seq![flag_byte(m.permissionless)] + le_bytes(m.systems.len() as u32) + concat_keys(m.systems)
}

/// The bytes that precede the system count.
pub open spec fn before_system_count(m: WorldModel) -> Seq<u8> {
    header_bytes(m) + le_bytes(m.authorities.len() as u32) + concat_keys(m.authorities) + seq![
        flag_byte(m.permissionless),
    ]
}

/// The packed bytes cut around each list.
pub proof fn lemma_encoding_parts(m: WorldModel)
    requires
        model_fits(m),
    ensures
        header_bytes(m).len() == 24,
        concat_keys(m.authorities).len() == 32 * m.authorities.len(),
        concat_keys(m.systems).len() == 32 * m.systems.len(),
        before_system_count(m).len() == 29 + 32 * m.authorities.len(),
        encoding(m) == header_bytes(m) + le_bytes(m.authorities.len() as u32) + concat_keys(
            m.authorities,
        ) + after_authorities(m),
        encoding(m) == before_system_count(m) + le_bytes(m.systems.len() as u32) + concat_keys(
            m.systems,
        ),
{
    lemma_le_bytes64_round_trip(m.discriminator);
    lemma_le_bytes64_round_trip(m.id);
    lemma_le_bytes64_round_trip(m.entities);
    lemma_le_bytes_round_trip(m.authorities.len() as u32);
    lemma_le_bytes_round_trip(m.systems.len() as u32);
    lemma_concat_keys_len(m.authorities);
    lemma_concat_keys_len(m.systems);
    assert(encoding(m) =~= header_bytes(m) + le_bytes(m.authorities.len() as u32) + concat_keys(
        m.authorities,
    ) + after_authorities(m));
    assert(encoding(m) =~= before_system_count(m) + le_bytes(m.systems.len() as u32)
        + concat_keys(m.systems));
}

/// Splitting a concatenation where its parts meet.
pub proof fn lemma_split_at_join(p: Seq<u8>, q: Seq<u8>)
    ensures
        (p + q).subrange(0, p.len() as int) == p,
        (p + q).subrange(p.len() as int, (p + q).len() as int) == q,
{
    assert((p + q).subrange(0, p.len() as int) =~= p);
    assert((p + q).subrange(p.len() as int, (p + q).len() as int) =~= q);
}

/// Appending one identity appends its bytes.
pub proof fn lemma_concat_keys_push(s: Seq<Seq<u8>>, k: Seq<u8>)
    ensures
        concat_keys(s.push(k)) == concat_keys(s) + k,
{
    assert(s.push(k).drop_last() =~= s);
}

/// Inserting an identity at `i` inserts its bytes at `32 * i`.
pub proof fn lemma_concat_keys_insert(s: Seq<Seq<u8>>, i: int, k: Seq<u8>)
    requires
        0 <= i <= s.len(),
    ensures
        concat_keys(s.insert(i, k)) == concat_keys(s.take(i)) + k + concat_keys(s.skip(i)),
        concat_keys(s) == concat_keys(s.take(i)) + concat_keys(s.skip(i)),
{
    assert(s.insert(i, k) =~= s.take(i).push(k) + s.skip(i));
    lemma_concat_keys_append(s.take(i).push(k), s.skip(i));
    lemma_concat_keys_push(s.take(i), k);
    assert(s =~= s.take(i) + s.skip(i));
    lemma_concat_keys_append(s.take(i), s.skip(i));
}

/// Removing the identity at `i` removes its 32 bytes.
pub proof fn lemma_concat_keys_remove(s: Seq<Seq<u8>>, i: int)
    requires
        0 <= i < s.len(),
    ensures
        concat_keys(s.remove(i)) == concat_keys(s.take(i)) + concat_keys(s.skip(i + 1)),
        concat_keys(s) == concat_keys(s.take(i)) + s[i] + concat_keys(s.skip(i + 1)),
{
    assert(s.remove(i) =~= s.take(i) + s.skip(i + 1));
    lemma_concat_keys_append(s.take(i), s.skip(i + 1));
    assert(s =~= s.take(i).push(s[i]) + s.skip(i + 1));
    lemma_concat_keys_append(s.take(i).push(s[i]), s.skip(i + 1));
    lemma_concat_keys_push(s.take(i), s[i]);
}

} // verus!
