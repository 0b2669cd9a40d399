//! The world record behind an exclusive handle, and its in-place edits.

use vstd::prelude::*;

use crate::bytes::{
    insert_key_at, key_at, le_bytes, le_bytes64, lemma_le_bytes64_round_trip, read_u64_le,
    write_u64_le, lemma_le_bytes_round_trip, lemma_u32_le_inverse,
    read_u32_le, remove_bytes_at, write_u32_le,
};
use crate::error::WorldError;
use crate::key::{
    compare_keys, keys_equal, key_lt, lemma_key_lt_irreflexive, lemma_key_lt_transitive,
    lemma_sorted_pairwise, sorted_keys, Pubkey,
};
use crate::layout::{
    authority_count, layout_ok, system_count, after_authorities, before_system_count, flag_byte, header_bytes, all_keys,
    concat_keys, encoding, flag_at, layout_valid, lemma_concat_keys_insert, lemma_concat_keys_len,
    lemma_concat_keys_push, lemma_concat_keys_remove, lemma_encoding_parts,
    lemma_encoding_round_trip, lemma_layout_is_encoding, lemma_split_at_join, model_of,
    systems_at, WorldModel,
};

verus! {

/// Discriminator of a world record.
pub const WORLD_DISCRIMINATOR: u64 = 0;

/// Byte size of a freshly created world: header, empty authority list, flag,
/// empty system list.
pub const NEW_WORLD_SIZE: usize = 33;

/// Byte size of a record with the given contents.
pub open spec fn record_size(m: WorldModel) -> int {
    33 + 32 * m.authorities.len() as int + 32 * m.systems.len() as int
}

/// A buffer that holds a world record whose system list is sorted.
pub open spec fn world_valid(b: Seq<u8>) -> bool {
    layout_valid(b) && sorted_keys(model_of(b).systems)
}

/// The record a new world starts with.
pub open spec fn new_world_model(id: u64) -> WorldModel {
    WorldModel {
        discriminator: WORLD_DISCRIMINATOR,
        id,
        entities: 0,
        authorities: Seq::empty(),
        permissionless: true,
        systems: Seq::empty(),
    }
}

/// Every record whose identities are 32 bytes, whose counts fit their fields
/// and whose system list is sorted packs into bytes that `from_bytes` accepts
/// and that read back as the same record; and every accepted buffer is the
/// packing of the record it holds.
pub proof fn lemma_world_round_trip(m: WorldModel, b: Seq<u8>)
    requires
        crate::layout::model_fits(m),
        sorted_keys(m.systems),
    ensures
        world_valid(encoding(m)),
        model_of(encoding(m)) == m,
        world_valid(b) ==> encoding(model_of(b)) == b,
{
    lemma_encoding_round_trip(m);
    if world_valid(b) {
        lemma_layout_is_encoding(b);
    }
}

/// The declared counts of a valid buffer are the lengths of its lists.
pub proof fn lemma_counts(b: Seq<u8>)
    requires
        layout_ok(b),
    ensures
        0 <= authority_count(b) <= u32::MAX,
        0 <= system_count(b) <= u32::MAX,
        model_of(b).authorities.len() == authority_count(b),
        model_of(b).systems.len() == system_count(b),
        b.len() == record_size(model_of(b)),
        flag_at(b) == 28 + 32 * model_of(b).authorities.len(),
{
    lemma_u32_le_inverse(b.subrange(24, 28));
    lemma_u32_le_inverse(b.subrange(flag_at(b) + 1, flag_at(b) + 5));
}

/// The bytes left by cutting the authority at `i` out of a valid buffer and
/// lowering the count hold the record without that authority.
#[verifier::rlimit(40)]
proof fn lemma_authority_removed(b0: Seq<u8>, i: int, b1: Seq<u8>, b2: Seq<u8>)
    requires
        world_valid(b0),
        0 <= i < model_of(b0).authorities.len(),
        b1 == b0.subrange(0, 28 + 32 * i) + b0.subrange(28 + 32 * i + 32, b0.len() as int),
        b2 == b1.subrange(0, 24) + le_bytes((model_of(b0).authorities.len() - 1) as u32)
            + b1.subrange(28, b1.len() as int),
    ensures
        world_valid(b2),
        model_of(b2) == (WorldModel {
            authorities: model_of(b0).authorities.remove(i),
            ..model_of(b0)
        }),
        b2.len() + 32 == b0.len(),
{
    let m = model_of(b0);
    let a = m.authorities;
    let na = a.len();
    lemma_counts(b0);
    lemma_layout_is_encoding(b0);
    lemma_encoding_parts(m);
    lemma_le_bytes_round_trip(na as u32);
    lemma_le_bytes_round_trip((na - 1) as u32);
    lemma_concat_keys_remove(a, i);
    assert(all_keys(a.take(i)));
    assert(all_keys(a.skip(i + 1)));
    lemma_concat_keys_len(a.take(i));
    lemma_concat_keys_len(a.skip(i + 1));
    let h = header_bytes(m);
    let t = after_authorities(m);
    let x = h + le_bytes(na as u32) + concat_keys(a.take(i));
    let y = concat_keys(a.skip(i + 1)) + t;
    assert(b0 =~= x + (a[i] + y));
    lemma_split_at_join(x, a[i] + y);
    lemma_split_at_join(a[i], y);
    assert(b0.subrange(28 + 32 * i + 32, b0.len() as int) =~= y);
    assert(b1 == x + y);
    let m2 = WorldModel { authorities: a.remove(i), ..m };
    lemma_encoding_parts(m2);
    assert(b2 =~= h + le_bytes((na - 1) as u32) + (concat_keys(a.take(i)) + concat_keys(
        a.skip(i + 1),
    )) + t);
    assert(all_keys(m2.authorities)) by {
        assert forall|j: int| 0 <= j < m2.authorities.len() implies (#[trigger] m2.authorities[j]).len() == 32 by {
            if j >= i {
                assert(m2.authorities[j] == a[j + 1]);
            }
        }
    }
    lemma_encoding_round_trip(m2);
}

/// Inserting an identity between its neighbours keeps the list sorted.
pub proof fn lemma_sorted_insert(s: Seq<Seq<u8>>, p: int, k: Seq<u8>)
    requires
        sorted_keys(s),
        0 <= p <= s.len(),
        p > 0 ==> key_lt(s[p - 1], k),
        p < s.len() ==> key_lt(k, s[p]),
    ensures
        sorted_keys(s.insert(p, k)),
{
    let s2 = s.insert(p, k);
    assert forall|j: int| 0 <= j < s2.len() - 1 implies #[trigger] key_lt(s2[j], s2[j + 1]) by {
        if j + 1 < p {
            assert(key_lt(s[j], s[j + 1]));
        } else if j + 1 == p {
        } else if j == p {
        } else {
            assert(key_lt(s[j - 1], s[(j - 1) + 1]));
        }
    }
}

/// Removing any element of a sorted list leaves it sorted.
pub proof fn lemma_sorted_remove(s: Seq<Seq<u8>>, i: int)
    requires
        sorted_keys(s),
        0 <= i < s.len(),
    ensures
        sorted_keys(s.remove(i)),
{
    let s2 = s.remove(i);
    assert forall|j: int| 0 <= j < s2.len() - 1 implies #[trigger] key_lt(s2[j], s2[j + 1]) by {
        if j + 1 < i {
            assert(key_lt(s[j], s[j + 1]));
        } else if j + 1 == i {
            assert(key_lt(s[j], s[j + 1]));
            assert(key_lt(s[j + 1], s[j + 1 + 1]));
            lemma_key_lt_transitive(s[j], s[j + 1], s[j + 2]);
        } else {
            assert(key_lt(s[j + 1], s[(j + 1) + 1]));
        }
    }
}

/// The bytes left by opening a slot at system position `p`, writing `k` into
/// it and raising the count hold the record with `k` inserted there.
#[verifier::rlimit(40)]
proof fn lemma_system_inserted(b0: Seq<u8>, p: int, k: Seq<u8>, b1: Seq<u8>, b2: Seq<u8>)
    requires
        layout_valid(b0),
        0 <= p <= model_of(b0).systems.len(),
        model_of(b0).systems.len() < u32::MAX,
        k.len() == 32,
        b1 == b0.subrange(0, systems_at(b0) + 32 * p) + k + b0.subrange(
            systems_at(b0) + 32 * p,
            b0.len() as int,
        ),
        b2 == b1.subrange(0, flag_at(b0) + 1) + le_bytes((model_of(b0).systems.len() + 1) as u32)
            + b1.subrange(flag_at(b0) + 5, b1.len() as int),
    ensures
        layout_valid(b2),
        model_of(b2) == (WorldModel {
            systems: model_of(b0).systems.insert(p, k),
            ..model_of(b0)
        }),
        b2.len() == b0.len() + 32,
{
    let m = model_of(b0);
    let s = m.systems;
    let ns = s.len();
    lemma_counts(b0);
    lemma_layout_is_encoding(b0);
    lemma_encoding_parts(m);
    lemma_le_bytes_round_trip(ns as u32);
    lemma_le_bytes_round_trip((ns + 1) as u32);
    lemma_concat_keys_insert(s, p, k);
    assert(all_keys(s.take(p)));
    assert(all_keys(s.skip(p)));
    lemma_concat_keys_len(s.take(p));
    lemma_concat_keys_len(s.skip(p));
    let bs = before_system_count(m);
    let x = bs + le_bytes(ns as u32) + concat_keys(s.take(p));
    let y = concat_keys(s.skip(p));
    assert(b0 =~= x + y);
    lemma_split_at_join(x, y);
    assert(b1 == x + k + y);
    let m2 = WorldModel { systems: s.insert(p, k), ..m };
    lemma_encoding_parts(m2);
    assert(before_system_count(m2) == bs);
    assert(b2 =~= bs + le_bytes((ns + 1) as u32) + (concat_keys(s.take(p)) + k + y));
    assert(all_keys(m2.systems)) by {
        assert forall|j: int| 0 <= j < m2.systems.len() implies (#[trigger] m2.systems[j]).len()
            == 32 by {
            if j < p {
                assert(m2.systems[j] == s[j]);
            } else if j > p {
                assert(m2.systems[j] == s[j - 1]);
            }
        }
    }
    lemma_encoding_round_trip(m2);
}

/// The bytes left by cutting the system at `i` out of a valid buffer and
/// lowering the count hold the record without that system.
#[verifier::rlimit(40)]
proof fn lemma_system_removed(b0: Seq<u8>, i: int, b1: Seq<u8>, b2: Seq<u8>)
    requires
        layout_valid(b0),
        0 <= i < model_of(b0).systems.len(),
        b1 == b0.subrange(0, systems_at(b0) + 32 * i) + b0.subrange(
            systems_at(b0) + 32 * i + 32,
            b0.len() as int,
        ),
        b2 == b1.subrange(0, flag_at(b0) + 1) + le_bytes((model_of(b0).systems.len() - 1) as u32)
            + b1.subrange(flag_at(b0) + 5, b1.len() as int),
    ensures
        layout_valid(b2),
        model_of(b2) == (WorldModel { systems: model_of(b0).systems.remove(i), ..model_of(b0) }),
        b2.len() + 32 == b0.len(),
{
    let m = model_of(b0);
    let s = m.systems;
    let ns = s.len();
    lemma_counts(b0);
    lemma_layout_is_encoding(b0);
    lemma_encoding_parts(m);
    lemma_le_bytes_round_trip(ns as u32);
    lemma_le_bytes_round_trip((ns - 1) as u32);
    lemma_concat_keys_remove(s, i);
    assert(all_keys(s.take(i)));
    assert(all_keys(s.skip(i + 1)));
    lemma_concat_keys_len(s.take(i));
    lemma_concat_keys_len(s.skip(i + 1));
    let bs = before_system_count(m);
    let x = bs + le_bytes(ns as u32) + concat_keys(s.take(i));
    let y = concat_keys(s.skip(i + 1));
    assert(b0 =~= x + (s[i] + y));
    lemma_split_at_join(x, s[i] + y);
    lemma_split_at_join(s[i], y);
    assert(b0.subrange(systems_at(b0) + 32 * i + 32, b0.len() as int) =~= y);
    assert(b1 == x + y);
    let m2 = WorldModel { systems: s.remove(i), ..m };
    lemma_encoding_parts(m2);
    assert(before_system_count(m2) == bs);
    assert(b2 =~= bs + le_bytes((ns - 1) as u32) + (concat_keys(s.take(i)) + y));
    assert(all_keys(m2.systems)) by {
        assert forall|j: int| 0 <= j < m2.systems.len() implies (#[trigger] m2.systems[j]).len()
            == 32 by {
            if j >= i {
                assert(m2.systems[j] == s[j + 1]);
            }
        }
    }
    lemma_encoding_round_trip(m2);
}

/// Rewriting the entity count in the header of a valid buffer holds the record
/// with the new count.
#[verifier::rlimit(40)]
proof fn lemma_entities_rewritten(b0: Seq<u8>, n: u64, b1: Seq<u8>)
    requires
        layout_valid(b0),
        b1 == b0.subrange(0, 16) + le_bytes64(n) + b0.subrange(24, b0.len() as int),
    ensures
        layout_valid(b1),
        model_of(b1) == (WorldModel { entities: n, ..model_of(b0) }),
        b1.len() == b0.len(),
{
    let m = model_of(b0);
    let m2 = WorldModel { entities: n, ..m };
    lemma_counts(b0);
    lemma_layout_is_encoding(b0);
    lemma_encoding_parts(m);
    lemma_encoding_parts(m2);
    lemma_le_bytes64_round_trip(m.discriminator);
    lemma_le_bytes64_round_trip(m.id);
    lemma_le_bytes64_round_trip(m.entities);
    lemma_le_bytes64_round_trip(n);
    let rest = le_bytes(m.authorities.len() as u32) + concat_keys(m.authorities)
        + after_authorities(m);
    assert(b0 =~= le_bytes64(m.discriminator) + le_bytes64(m.id) + le_bytes64(m.entities) + rest);
    assert(b1 =~= le_bytes64(m.discriminator) + le_bytes64(m.id) + le_bytes64(n) + rest);
    assert(encoding(m2) =~= le_bytes64(m.discriminator) + le_bytes64(m.id) + le_bytes64(n)
        + rest);
    lemma_encoding_round_trip(m2);
}

/// Exclusive handle on a world record's bytes. Every view is computed from the
/// current counts; the only way to change the bytes is through its methods.
pub struct WorldMutate {
    data: Vec<u8>,
}

impl WorldMutate {
    /// The record's bytes.
    pub closed spec fn bytes(&self) -> Seq<u8> {
        self.data@
    }

    /// The record the bytes hold.
    pub open spec fn view(&self) -> WorldModel {
        model_of(self.bytes())
    }

    pub open spec fn well_formed(&self) -> bool {
        world_valid(self.bytes())
    }

    /// Validates a record buffer and takes ownership of it.
    pub fn from_bytes(bytes: Vec<u8>) -> (r: Result<WorldMutate, WorldError>)
        ensures
            r.is_ok() <==> world_valid(bytes@),
            match r {
                Ok(w) => w.bytes() == bytes@ && w.well_formed(),
                Err(e) => e == WorldError::LayoutCorruption,
            },
    {
        let len = bytes.len();
        if len < 28 {
            return Err(WorldError::LayoutCorruption);
        }
        let na = read_u32_le(&bytes, 24);
        if (len as u64) < 33 + 32 * (na as u64) {
            return Err(WorldError::LayoutCorruption);
        }
        let fa: usize = 28 + 32 * (na as usize);
        let ns = read_u32_le(&bytes, fa + 1);
        if len as u64 != fa as u64 + 5 + 32 * (ns as u64) {
            return Err(WorldError::LayoutCorruption);
        }
        if bytes[fa] > 1 {
            return Err(WorldError::LayoutCorruption);
        }
        let sa: usize = fa + 5;
        let ghost systems = model_of(bytes@).systems;
        assert(layout_valid(bytes@));
        let mut i: usize = 1;
        while i < ns as usize
            invariant
                1 <= i,
                ns == 0 || i <= ns,
                len == bytes@.len(),
                layout_valid(bytes@),
                systems == model_of(bytes@).systems,
                systems.len() == ns,
                sa == systems_at(bytes@),
                bytes@.len() == sa + 32 * ns,
                forall|j: int| 0 <= j < i - 1 ==> #[trigger] key_lt(systems[j], systems[j + 1]),
            decreases ns - i,
        {
            let a = key_at(&bytes, sa + 32 * (i - 1));
            let b = key_at(&bytes, sa + 32 * i);
            if compare_keys(&a, &b) >= 0 {
                proof {
                    assert(systems[i - 1] == a@);
                    assert(systems[(i - 1) + 1] == b@);
                }
                return Err(WorldError::LayoutCorruption);
            }
            i = i + 1;
        }
        Ok(WorldMutate { data: bytes })
    }

    /// A new world with the given id: no authorities, no systems, permissionless.
    pub fn init_new_world(id: u64) -> (w: WorldMutate)
        ensures
            w.well_formed(),
            w@ == new_world_model(id),
            w.bytes().len() == NEW_WORLD_SIZE,
    {
        let mut data: Vec<u8> = Vec::new();
        let mut i: usize = 0;
        while i < NEW_WORLD_SIZE
            invariant
                i <= NEW_WORLD_SIZE,
                data@.len() == i,
                forall|j: int| 0 <= j < i ==> data@[j] == 0,
            decreases NEW_WORLD_SIZE - i,
        {
            data.push(0u8);
            i = i + 1;
        }
        crate::bytes::write_u64_le(&mut data, 0, WORLD_DISCRIMINATOR);
        crate::bytes::write_u64_le(&mut data, 8, id);
        crate::bytes::write_u64_le(&mut data, 16, 0);
        write_u32_le(&mut data, 24, 0);
        data.set(28, 1u8);
        write_u32_le(&mut data, 29, 0);
        proof {
            let m = new_world_model(id);
            lemma_encoding_parts(m);
            crate::bytes::lemma_le_bytes64_round_trip(0);
            crate::bytes::lemma_le_bytes64_round_trip(id);
            lemma_le_bytes_round_trip(0);
            assert(concat_keys(m.authorities) =~= Seq::<u8>::empty());
            assert(concat_keys(m.systems) =~= Seq::<u8>::empty());
            assert(data@ =~= encoding(m));
            lemma_encoding_round_trip(m);
        }
        WorldMutate { data }
    }

    /// The record's bytes.
    pub fn as_bytes(&self) -> (r: &Vec<u8>)
        ensures
            r@ == self.bytes(),
    {
        &self.data
    }

    /// Gives the record's bytes back.
    pub fn into_bytes(self) -> (r: Vec<u8>)
        ensures
            r@ == self.bytes(),
    {
        self.data
    }

    /// Offset of the flag byte.
    fn flag_offset(&self) -> (r: usize)
        requires
            self.well_formed(),
        ensures
            r == flag_at(self.bytes()),
            r + 5 <= self.bytes().len(),
            r == 28 + 32 * self@.authorities.len(),
            self.bytes().len() <= usize::MAX,
            self.bytes().len() == record_size(self@),
            systems_at(self.bytes()) == r + 5,
    {
        proof {
            lemma_counts(self.bytes());
        }
        let _len = self.data.len();
        let na = read_u32_le(&self.data, 24);
        28 + 32 * (na as usize)
    }

    /// Number of authorities.
    pub fn authorities_len(&self) -> (r: u32)
        requires
            self.well_formed(),
        ensures
            r == self@.authorities.len(),
    {
        read_u32_le(&self.data, 24)
    }

    /// Number of approved systems.
    pub fn systems_len(&self) -> (r: u32)
        requires
            self.well_formed(),
        ensures
            r == self@.systems.len(),
    {
        let fa = self.flag_offset();
        read_u32_le(&self.data, fa + 1)
    }

    /// Bytes of the authority count and list.
    pub fn authority_size(&self) -> (r: usize)
        requires
            self.well_formed(),
        ensures
            r == 4 + 32 * self@.authorities.len(),
    {
        let fa = self.flag_offset();
        fa - 24
    }

    /// Bytes of the system count and list.
    pub fn systems_size(&self) -> (r: usize)
        requires
            self.well_formed(),
        ensures
            r == 4 + 32 * self@.systems.len(),
    {
        let fa = self.flag_offset();
        self.data.len() - fa - 1
    }

    /// Bytes of the permissionless flag.
    pub fn permissionless_len(&self) -> (r: usize)
        ensures
            r == 1,
    {
        1
    }

    /// The raw permissionless byte, 0 or 1.
    pub fn permissionless(&self) -> (r: u8)
        requires
            self.well_formed(),
        ensures
            r == flag_byte(self@.permissionless),
    {
        let fa = self.flag_offset();
        self.data[fa]
    }

    /// Whether any system may be applied without approval.
    pub fn is_permissionless(&self) -> (r: bool)
        requires
            self.well_formed(),
        ensures
            r == self@.permissionless,
    {
        self.permissionless() == 1
    }

    /// Total byte size of the record.
    pub fn size(&self) -> (r: usize)
        requires
            self.well_formed(),
        ensures
            r == self.bytes().len(),
            r == record_size(self@),
    {
        proof {
            lemma_counts(self.bytes());
        }
        self.data.len()
    }

    /// Sets the permissionless flag.
    pub fn set_permissionless(&mut self, value: bool)
        requires
            old(self).well_formed(),
        ensures
            final(self).well_formed(),
            final(self)@ == (WorldModel { permissionless: value, ..old(self)@ }),
            final(self).bytes().len() == old(self).bytes().len(),
    {
        let ghost m = self@;
        let ghost b0 = self.data@;
        let fa = self.flag_offset();
        let v: u8 = if value {
            1
        } else {
            0
        };
        self.data.set(fa, v);
        proof {
            let m2 = WorldModel { permissionless: value, ..m };
            lemma_layout_is_encoding(b0);
            lemma_encoding_parts(m);
            lemma_encoding_parts(m2);
            lemma_le_bytes_round_trip(m.authorities.len() as u32);
            assert(header_bytes(m2) == header_bytes(m));
            assert(self.data@ =~= encoding(m2));
            lemma_encoding_round_trip(m2);
        }
    }

    /// The authorities, in stored order.
    pub fn authorities(&self) -> (r: Vec<Pubkey>)
        requires
            self.well_formed(),
        ensures
            r@.len() == self@.authorities.len(),
            forall|i: int| 0 <= i < r@.len() ==> (#[trigger] r@[i])@ == self@.authorities[i],
    {
        let _fa = self.flag_offset();
        let na = self.authorities_len() as usize;
        let _len = self.data.len();
        let mut out: Vec<Pubkey> = Vec::new();
        let mut i: usize = 0;
        while i < na
            invariant
                i <= na,
                na == self@.authorities.len(),
                _fa == 28 + 32 * na,
                _fa + 5 <= _len,
                self.well_formed(),
                _len == self.bytes().len(),
                out@.len() == i,
                forall|j: int| 0 <= j < i ==> (#[trigger] out@[j])@ == self@.authorities[j],
            decreases na - i,
        {
            out.push(key_at(&self.data, 28 + 32 * i));
            i = i + 1;
        }
        out
    }

    /// The approved systems, in stored (ascending) order.
    pub fn systems_pubkey_slice(&self) -> (r: Vec<Pubkey>)
        requires
            self.well_formed(),
        ensures
            r@.len() == self@.systems.len(),
            forall|i: int| 0 <= i < r@.len() ==> (#[trigger] r@[i])@ == self@.systems[i],
    {
        let ns = self.systems_len() as usize;
        let sa = self.flag_offset() + 5;
        let _len = self.data.len();
        let mut out: Vec<Pubkey> = Vec::new();
        let mut i: usize = 0;
        while i < ns
            invariant
                i <= ns,
                ns == self@.systems.len(),
                sa == systems_at(self.bytes()),
                self.well_formed(),
                _len == self.bytes().len(),
                out@.len() == i,
                forall|j: int| 0 <= j < i ==> (#[trigger] out@[j])@ == self@.systems[j],
            decreases ns - i,
        {
            out.push(key_at(&self.data, sa + 32 * i));
            i = i + 1;
        }
        out
    }

    /// The bytes of the system list.
    pub fn systems_slice(&self) -> (r: Vec<u8>)
        requires
            self.well_formed(),
        ensures
            r@ == concat_keys(self@.systems),
    {
        let sa = self.flag_offset() + 5;
        let len = self.data.len();
        let mut out: Vec<u8> = Vec::new();
        let mut i: usize = sa;
        while i < len
            invariant
                sa <= i <= len,
                len == self.bytes().len(),
                out@ == self.bytes().subrange(sa as int, i as int),
            decreases len - i,
        {
            out.push(self.data[i]);
            proof {
                assert(out@ =~= self.bytes().subrange(sa as int, i + 1));
            }
            i = i + 1;
        }
        proof {
            crate::layout::lemma_concat_keys_from(self.bytes(), sa as int, self@.systems.len() as int);
        }
        out
    }

    /// Position of `key` in the authority list.
    pub fn find_authority(&self, key: &Pubkey) -> (r: Option<usize>)
        requires
            self.well_formed(),
        ensures
            match r {
                Some(i) => i < self@.authorities.len() && self@.authorities[i as int] == key@
                    && forall|j: int| 0 <= j < i ==> self@.authorities[j] != key@,
                None => !self@.authorities.contains(key@),
            },
    {
        let _fa = self.flag_offset();
        let na = self.authorities_len() as usize;
        let _len = self.data.len();
        let mut i: usize = 0;
        while i < na
            invariant
                i <= na,
                na == self@.authorities.len(),
                _fa == 28 + 32 * na,
                _fa + 5 <= _len,
                self.well_formed(),
                _len == self.bytes().len(),
                forall|j: int| 0 <= j < i ==> self@.authorities[j] != key@,
            decreases na - i,
        {
            let k = key_at(&self.data, 28 + 32 * i);
            if keys_equal(&k, key) {
                return Some(i);
            }
            i = i + 1;
        }
        None
    }

    /// Position of `key` in the sorted system list, found by binary search.
    pub fn find_system(&self, key: &Pubkey) -> (r: Option<usize>)
        requires
            self.well_formed(),
        ensures
            match r {
                Some(i) => i < self@.systems.len() && self@.systems[i as int] == key@
                    && forall|j: int| 0 <= j < i ==> self@.systems[j] != key@,
                None => !self@.systems.contains(key@),
            },
    {
        let ns = self.systems_len() as usize;
        let sa = self.flag_offset() + 5;
        let _len = self.data.len();
        let ghost s = self@.systems;
        let mut lo: usize = 0;
        let mut hi: usize = ns;
        while lo < hi
            invariant
                lo <= hi <= ns,
                ns == s.len(),
                s == self@.systems,
                sorted_keys(s),
                sa == systems_at(self.bytes()),
                self.well_formed(),
                _len == self.bytes().len(),
                forall|j: int| 0 <= j < lo ==> key_lt(#[trigger] s[j], key@),
                forall|j: int| hi <= j < ns ==> key_lt(key@, #[trigger] s[j]),
            decreases hi - lo,
        {
            let mid = lo + (hi - lo) / 2;
            let k = key_at(&self.data, sa + 32 * mid);
            let c = compare_keys(&k, key);
            if c == 0 {
                proof {
                    assert forall|j: int| 0 <= j < mid implies s[j] != key@ by {
                        lemma_sorted_pairwise(s, j, mid as int);
                        lemma_key_lt_irreflexive(key@);
                    }
                }
                return Some(mid);
            } else if c < 0 {
                proof {
                    assert forall|j: int| 0 <= j <= mid implies key_lt(#[trigger] s[j], key@) by {
                        if j < mid {
                            lemma_sorted_pairwise(s, j, mid as int);
                            lemma_key_lt_transitive(s[j], s[mid as int], key@);
                        }
                    }
                }
                lo = mid + 1;
            } else {
                proof {
                    assert forall|j: int| mid <= j < ns implies key_lt(key@, #[trigger] s[j]) by {
                        if j > mid {
                            lemma_sorted_pairwise(s, mid as int, j);
                            lemma_key_lt_transitive(key@, s[mid as int], s[j]);
                        }
                    }
                }
                hi = mid;
            }
        }
        proof {
            assert forall|j: int| 0 <= j < ns implies s[j] != key@ by {
                lemma_key_lt_irreflexive(key@);
            }
        }
        None
    }

    /// Appends `key` to the authority list, moving the flag and the system
    /// list forward by 32 bytes.
    pub fn add_new_authority(&mut self, key: &Pubkey)
        requires
            old(self).well_formed(),
            old(self)@.authorities.len() < u32::MAX,
            old(self).bytes().len() + 32 <= usize::MAX,
        ensures
            final(self).well_formed(),
            final(self)@ == (WorldModel {
                authorities: old(self)@.authorities.push(key@),
                ..old(self)@
            }),
            final(self).bytes().len() == old(self).bytes().len() + 32,
    {
        let ghost m = self@;
        let ghost b0 = self.data@;
        let fa = self.flag_offset();
        let na = self.authorities_len();
        proof {
            lemma_layout_is_encoding(b0);
            lemma_encoding_parts(m);
            lemma_le_bytes_round_trip(na);
            lemma_le_bytes_round_trip((na + 1) as u32);
            let x = header_bytes(m) + le_bytes(na) + concat_keys(m.authorities);
            lemma_split_at_join(x, after_authorities(m));
        }
        insert_key_at(&mut self.data, fa, key);
        let ghost b1 = self.data@;
        write_u32_le(&mut self.data, 24, na + 1);
        proof {
            let m2 = WorldModel { authorities: m.authorities.push(key@), ..m };
            let h = header_bytes(m);
            let ca = concat_keys(m.authorities);
            let t = after_authorities(m);
            assert(b1 == h + le_bytes(na) + ca + key@ + t);
            lemma_concat_keys_push(m.authorities, key@);
            lemma_encoding_parts(m2);
            assert(header_bytes(m2) == h);
            assert(after_authorities(m2) == t);
            assert(self.data@ =~= h + le_bytes((na + 1) as u32) + (ca + key@) + t);
            assert(all_keys(m2.authorities)) by {
                assert(forall|i: int| 0 <= i < m.authorities.len() ==> m2.authorities[i] == m.authorities[i]);
            }
            lemma_encoding_round_trip(m2);
        }
    }

    /// Removes the authority at `index`, moving every later byte back by 32.
    pub fn remove_authority(&mut self, index: usize)
        requires
            old(self).well_formed(),
            index < old(self)@.authorities.len(),
        ensures
            final(self).well_formed(),
            final(self)@ == (WorldModel {
                authorities: old(self)@.authorities.remove(index as int),
                ..old(self)@
            }),
            final(self).bytes().len() + 32 == old(self).bytes().len(),
    {
        let ghost b0 = self.data@;
        let _fa = self.flag_offset();
        let na = self.authorities_len();
        let at: usize = 28 + 32 * index;
        remove_bytes_at(&mut self.data, at, 32);
        let ghost b1 = self.data@;
        write_u32_le(&mut self.data, 24, na - 1);
        proof {
            lemma_authority_removed(b0, index as int, b1, self.data@);
        }
    }

    /// Adds `key` to the sorted system set, at the position that keeps it
    /// sorted. Returns the number of bytes the record grew by: 0 when `key`
    /// was already approved, 32 otherwise.
    pub fn add_system(&mut self, key: &Pubkey) -> (r: usize)
        requires
            old(self).well_formed(),
            old(self)@.systems.len() < u32::MAX,
            old(self).bytes().len() + 32 <= usize::MAX,
        ensures
            final(self).well_formed(),
            old(self)@.systems.contains(key@) ==> r == 0 && final(self)@ == old(self)@
                && final(self).bytes() == old(self).bytes(),
            !old(self)@.systems.contains(key@) ==> r == 32 && final(self).bytes().len()
                == old(self).bytes().len() + 32 && exists|p: int|
                0 <= p <= old(self)@.systems.len() && final(self)@ == (WorldModel {
                    systems: #[trigger] old(self)@.systems.insert(p, key@),
                    ..old(self)@
                }),
    {
        if self.find_system(key).is_some() {
            return 0;
        }
        let ghost b0 = self.data@;
        let ghost s = self@.systems;
        let fa = self.flag_offset();
        let ns = self.systems_len();
        let sa: usize = fa + 5;
        let _len = self.data.len();
        let mut p: usize = 0;
        let mut done = false;
        while p < ns as usize && !done
            invariant
                p <= ns,
                ns == s.len(),
                s == self@.systems,
                self.data@ == b0,
                sa == systems_at(b0),
                _len == b0.len(),
                b0.len() == sa + 32 * ns,
                !s.contains(key@),
                forall|j: int| 0 <= j < p ==> key_lt(#[trigger] s[j], key@),
                done ==> p < ns && key_lt(key@, s[p as int]),
            decreases ns - p + (if done { 0int } else { 1int }),
        {
            let k = key_at(&self.data, sa + 32 * p);
            if compare_keys(&k, key) > 0 {
                done = true;
            } else {
                proof {
                    assert(s[p as int] == k@);
                    assert(k@ != key@);
                }
                p = p + 1;
            }
        }
        insert_key_at(&mut self.data, sa + 32 * p, key);
        let ghost b1 = self.data@;
        write_u32_le(&mut self.data, fa + 1, ns + 1);
        proof {
            lemma_system_inserted(b0, p as int, key@, b1, self.data@);
            if p > 0 {
                assert(key_lt(s[p - 1], key@));
            }
            lemma_sorted_insert(s, p as int, key@);
        }
        32
    }

    /// Removes the system at `index`; the others keep their order.
    pub fn remove_system(&mut self, index: usize)
        requires
            old(self).well_formed(),
            index < old(self)@.systems.len(),
        ensures
            final(self).well_formed(),
            final(self)@ == (WorldModel {
                systems: old(self)@.systems.remove(index as int),
                ..old(self)@
            }),
            final(self).bytes().len() + 32 == old(self).bytes().len(),
    {
        let ghost b0 = self.data@;
        let ghost s = self@.systems;
        let fa = self.flag_offset();
        let ns = self.systems_len();
        let at: usize = fa + 5 + 32 * index;
        remove_bytes_at(&mut self.data, at, 32);
        let ghost b1 = self.data@;
        write_u32_le(&mut self.data, fa + 1, ns - 1);
        proof {
            lemma_system_removed(b0, index as int, b1, self.data@);
            lemma_sorted_remove(s, index as int);
        }
    }

    /// Counts one more entity; returns the number the new entity gets.
    pub fn add_entity(&mut self) -> (r: u64)
        requires
            old(self).well_formed(),
            old(self)@.entities < u64::MAX,
        ensures
            final(self).well_formed(),
            r == old(self)@.entities,
            final(self)@ == (WorldModel { entities: (old(self)@.entities + 1) as u64, ..old(self)@ }),
            final(self).bytes().len() == old(self).bytes().len(),
    {
        let ghost b0 = self.data@;
        let _fa = self.flag_offset();
        let n = read_u64_le(&self.data, 16);
        proof {
            crate::bytes::lemma_u64_le_inverse(b0.subrange(16, 24));
        }
        write_u64_le(&mut self.data, 16, n + 1);
        proof {
            lemma_entities_rewritten(b0, (n + 1) as u64, self.data@);
        }
        n
    }
}

} // verus!
