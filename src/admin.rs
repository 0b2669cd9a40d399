//! Authority and system set management: who may change a world, and how
//! each change shows in the record.

use vstd::prelude::*;

use crate::error::WorldError;
use crate::key::Pubkey;
use crate::layout::WorldModel;
use crate::fee::{balance_after, fee_action_spec, lemma_fee_round_trip};
use crate::world::{record_size, WorldMutate};

verus! {

/// `k` first occurs at position `i` of `s`.
pub open spec fn first_at(s: Seq<Seq<u8>>, k: Seq<u8>, i: int) -> bool {
    0 <= i < s.len() && s[i] == k && forall|j: int| 0 <= j < i ==> s[j] != k
}

/// What adding authority `k` on behalf of `caller` does. An empty list takes
/// anyone's first authority; otherwise only a member may add, and adding a
/// member again changes nothing.
pub open spec fn add_authority_outcome(
    before: WorldModel,
    caller: Seq<u8>,
    k: Seq<u8>,
    r: Result<bool, WorldError>,
    after: WorldModel,
) -> bool {
    let a = before.authorities;
    if a.len() == 0 || (a.contains(caller) && !a.contains(k)) {
        r == Ok::<bool, WorldError>(true) && after == (WorldModel {
            authorities: a.push(k),
            ..before
        })
    } else if !a.contains(caller) {
        r == Err::<bool, WorldError>(WorldError::AuthorizationFailure) && after == before
    } else {
        r == Ok::<bool, WorldError>(false) && after == before
    }
}

/// What removing authority `k` on behalf of `caller` does: a member removes
/// the first occurrence of `k`, if any.
pub open spec fn remove_authority_outcome(
    before: WorldModel,
    caller: Seq<u8>,
    k: Seq<u8>,
    r: Result<bool, WorldError>,
    after: WorldModel,
) -> bool {
    let a = before.authorities;
    if !a.contains(caller) {
        r == Err::<bool, WorldError>(WorldError::AuthorizationFailure) && after == before
    } else if a.contains(k) {
        r == Ok::<bool, WorldError>(true) && exists|i: int|
            first_at(a, k, i) && after == (WorldModel { authorities: #[trigger] a.remove(i), ..before })
    } else {
        r == Ok::<bool, WorldError>(false) && after == before
    }
}

/// What approving system `k` on behalf of `caller` does: a member clears the
/// permissionless flag and adds `k` to the sorted set unless it is there.
/// The result is the number of bytes the record grew by.
pub open spec fn approve_system_outcome(
    before: WorldModel,
    caller: Seq<u8>,
    k: Seq<u8>,
    r: Result<usize, WorldError>,
    after: WorldModel,
) -> bool {
    let s = before.systems;
    if !before.authorities.contains(caller) {
        r == Err::<usize, WorldError>(WorldError::AuthorizationFailure) && after == before
    } else if s.contains(k) {
        r == Ok::<usize, WorldError>(0) && after == (WorldModel { permissionless: false, ..before })
    } else {
        r == Ok::<usize, WorldError>(32) && exists|p: int|
            0 <= p <= s.len() && after == (WorldModel {
                systems: #[trigger] s.insert(p, k),
                permissionless: false,
                ..before
            })
    }
}

/// What removing system `k` on behalf of `caller` does.
pub open spec fn remove_system_outcome(
    before: WorldModel,
    caller: Seq<u8>,
    k: Seq<u8>,
    r: Result<bool, WorldError>,
    after: WorldModel,
) -> bool {
    let s = before.systems;
    if !before.authorities.contains(caller) {
        r == Err::<bool, WorldError>(WorldError::AuthorizationFailure) && after == before
    } else if s.contains(k) {
        r == Ok::<bool, WorldError>(true) && exists|i: int|
            first_at(s, k, i) && after == (WorldModel { systems: #[trigger] s.remove(i), ..before })
    } else {
        r == Ok::<bool, WorldError>(false) && after == before
    }
}

/// Adds `new_authority` to the world's authorities on behalf of `caller`.
/// Returns whether the record changed (and grew by 32 bytes).
pub fn add_authority(world: &mut WorldMutate, caller: &Pubkey, new_authority: &Pubkey) -> (r:
    Result<bool, WorldError>)
    requires
        old(world).well_formed(),
        old(world)@.authorities.len() < u32::MAX,
        old(world).bytes().len() + 32 <= usize::MAX,
    ensures
        final(world).well_formed(),
        add_authority_outcome(old(world)@, caller@, new_authority@, r, final(world)@),
{
    let n = world.authorities_len();
    if n == 0 {
        world.add_new_authority(new_authority);
        return Ok(true);
    }
    if world.find_authority(caller).is_none() {
        return Err(WorldError::AuthorizationFailure);
    }
    if world.find_authority(new_authority).is_some() {
        return Ok(false);
    }
    world.add_new_authority(new_authority);
    Ok(true)
}

/// Removes `target` from the world's authorities on behalf of `caller`.
/// Returns whether the record changed (and shrank by 32 bytes).
pub fn remove_authority(world: &mut WorldMutate, caller: &Pubkey, target: &Pubkey) -> (r: Result<
    bool,
    WorldError,
>)
    requires
        old(world).well_formed(),
    ensures
        final(world).well_formed(),
        remove_authority_outcome(old(world)@, caller@, target@, r, final(world)@),
{
    if world.find_authority(caller).is_none() {
        return Err(WorldError::AuthorizationFailure);
    }
    match world.find_authority(target) {
        Some(i) => {
            world.remove_authority(i);
            Ok(true)
        },
        None => Ok(false),
    }
}

/// Approves `system` on behalf of `caller`, which turns the world from
/// permissionless to approved-systems-only. Returns the bytes the record grew by.
pub fn approve_system(world: &mut WorldMutate, caller: &Pubkey, system: &Pubkey) -> (r: Result<
    usize,
    WorldError,
>)
    requires
        old(world).well_formed(),
        old(world)@.systems.len() < u32::MAX,
        old(world).bytes().len() + 32 <= usize::MAX,
    ensures
        final(world).well_formed(),
        approve_system_outcome(old(world)@, caller@, system@, r, final(world)@),
{
    if world.find_authority(caller).is_none() {
        return Err(WorldError::AuthorizationFailure);
    }
    world.set_permissionless(false);
    let added = world.add_system(system);
    Ok(added)
}

/// Removes `system` from the approved set on behalf of `caller`. Returns
/// whether the record changed (and shrank by 32 bytes).
pub fn remove_system(world: &mut WorldMutate, caller: &Pubkey, system: &Pubkey) -> (r: Result<
    bool,
    WorldError,
>)
    requires
        old(world).well_formed(),
    ensures
        final(world).well_formed(),
        remove_system_outcome(old(world)@, caller@, system@, r, final(world)@),
{
    if world.find_authority(caller).is_none() {
        return Err(WorldError::AuthorizationFailure);
    }
    match world.find_system(system) {
        Some(i) => {
            world.remove_system(i);
            Ok(true)
        },
        None => Ok(false),
    }
}

/// Adding an authority that was not there and then removing it restores the
/// record, its byte size, and a balance that sat at the minimum for that size.
pub proof fn lemma_add_then_remove_authority(
    m0: WorldModel,
    m1: WorldModel,
    m2: WorldModel,
    caller: Seq<u8>,
    k: Seq<u8>,
    r1: Result<bool, WorldError>,
    r2: Result<bool, WorldError>,
    balance: u64,
    min_grown: u64,
)
    requires
        add_authority_outcome(m0, caller, k, r1, m1),
        r1 == Ok::<bool, WorldError>(true),
        remove_authority_outcome(m1, caller, k, r2, m2),
        r2.is_ok(),
        !m0.authorities.contains(k),
    ensures
        m2 == m0,
        m2.authorities == m0.authorities,
        record_size(m2) == record_size(m0),
        record_size(m1) == record_size(m0) + 32,
        balance_after(
            min_grown,
            fee_action_spec(
                balance_after(balance, fee_action_spec(balance, min_grown)) as u64,
                balance,
            ),
        ) == balance,
{
    let a = m0.authorities;
    assert(m1.authorities == a.push(k));
    assert(a.push(k)[a.len() as int] == k);
    assert(m1.authorities.contains(k));
    let i = choose|i: int|
        first_at(m1.authorities, k, i) && m2 == (WorldModel {
            authorities: #[trigger] m1.authorities.remove(i),
            ..m1
        });
    if i < a.len() {
        assert(a.push(k)[i] == a[i]);
        assert(a.contains(k));
    }
    assert(a.push(k).remove(a.len() as int) =~= a);
    lemma_fee_round_trip(balance, min_grown, balance);
}

/// Approving the same system twice changes the system list at most once, and
/// leaves the world not permissionless from the first approval on.
pub proof fn lemma_approve_system_twice(
    m0: WorldModel,
    m1: WorldModel,
    m2: WorldModel,
    caller: Seq<u8>,
    k: Seq<u8>,
    r1: Result<usize, WorldError>,
    r2: Result<usize, WorldError>,
)
    requires
        approve_system_outcome(m0, caller, k, r1, m1),
        approve_system_outcome(m1, caller, k, r2, m2),
        r1.is_ok(),
    ensures
        m2 == m1,
        r2 == Ok::<usize, WorldError>(0),
        m1.systems.contains(k),
        m1.systems.len() == m0.systems.len() + (if m0.systems.contains(k) { 0int } else { 1int }),
        !m1.permissionless,
        !m2.permissionless,
{
    let s = m0.systems;
    if !s.contains(k) {
        let p = choose|p: int|
            0 <= p <= s.len() && m1 == (WorldModel {
                systems: #[trigger] s.insert(p, k),
                permissionless: false,
                ..m0
            });
        assert(s.insert(p, k)[p] == k);
    }
    assert(m1.systems.contains(k));
    assert(m1.authorities == m0.authorities);
}

} // verus!
