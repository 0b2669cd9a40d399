//! The apply protocol: checks, account partition, the relay call's payload,
//! and the untrusted parse of the system's output into update calls.

use vstd::prelude::*;

use crate::bytes::{le_bytes, lemma_le_bytes_round_trip, lemma_u32_le_inverse, read_u32_le, u32_le};
use crate::error::WorldError;
use crate::key::{key_views, keys_equal, Pubkey};

verus! {

/// Tag of the relay call made to a system.
pub open spec fn execute_tag() -> Seq<u8> {
    seq![130u8, 221u8, 242u8, 154u8, 13u8, 193u8, 189u8, 29u8]
}

/// Tag of the update call made to a component program.
pub open spec fn update_tag() -> Seq<u8> {
    seq![219u8, 200u8, 88u8, 176u8, 158u8, 63u8, 253u8, 127u8]
}

/// `id` occurs nowhere in `keys`.
pub open spec fn no_sentinel(keys: Seq<Seq<u8>>, id: Seq<u8>) -> bool {
    forall|j: int| 0 <= j < keys.len() ==> keys[j] != id
}

/// `id` occurs in `keys` once, at the odd position `s`.
pub open spec fn sole_sentinel_at(keys: Seq<Seq<u8>>, id: Seq<u8>, s: int) -> bool {
    &&& 0 <= s < keys.len()
    &&& s % 2 == 1
    &&& keys[s] == id
    &&& forall|j: int| 0 <= j < keys.len() && j != s ==> keys[j] != id
}

/// The even positions below `n`.
pub open spec fn evens_below(n: int) -> Seq<usize> {
    Seq::new(((n + 1) / 2) as nat, |i: int| (2 * i) as usize)
}

/// The positions from `lo` up to `hi`, `hi` excluded.
pub open spec fn positions(lo: int, hi: int) -> Seq<usize> {
    Seq::new((hi - lo) as nat, |i: int| (lo + i) as usize)
}

/// How the trailing accounts of an apply call split: even positions before
/// the separator name components, positions after it are passed through.
pub struct AccountSplit {
    /// Positions collected as component accounts.
    pub components: Vec<usize>,
    /// Position of the separator, if there is one.
    pub separator: Option<usize>,
    /// Positions after the separator.
    pub extras: Vec<usize>,
}

impl AccountSplit {
    /// Where the component pairs end.
    pub open spec fn pairs_end(&self, n: int) -> int {
        match self.separator {
            Some(s) => s as int,
            None => n,
        }
    }
}

/// The separator occurs nowhere, or once at an odd position.
pub open spec fn split_possible(keys: Seq<Seq<u8>>, id: Seq<u8>) -> bool {
    no_sentinel(keys, id) || exists|s: int| #[trigger] sole_sentinel_at(keys, id, s)
}

/// `sp` is how `keys` split at the separator `id`.
pub open spec fn split_matches(keys: Seq<Seq<u8>>, id: Seq<u8>, sp: AccountSplit) -> bool {
    &&& sp.separator.is_none() ==> no_sentinel(keys, id)
    &&& sp.separator.is_some() ==> sole_sentinel_at(keys, id, sp.separator.unwrap() as int)
    &&& sp.components@ == evens_below(sp.pairs_end(keys.len() as int))
    &&& sp.separator.is_none() ==> sp.extras@.len() == 0
    &&& sp.separator.is_some() ==> sp.extras@ == positions(
        sp.separator.unwrap() + 1,
        keys.len() as int,
    )
}

/// Splits the trailing accounts at the separator `program_id`. The separator
/// must stand at an odd position and at most once.
pub fn init_execute_cpi_accounts(keys: &Vec<Pubkey>, program_id: &Pubkey) -> (r: Result<
    AccountSplit,
    WorldError,
>)
    ensures
        r.is_ok() <==> split_possible(key_views(keys@), program_id@),
        match r {
            Ok(sp) => split_matches(key_views(keys@), program_id@, sp),
            Err(e) => e == WorldError::InstructionDecodeFailure,
        },
{
    let ghost ks = key_views(keys@);
    let n = keys.len();
    let mut components: Vec<usize> = Vec::new();
    let mut extras: Vec<usize> = Vec::new();
    let mut separator: Option<usize> = None;
    let mut i: usize = 0;
    while i < n
        invariant
            i <= n,
            n == keys@.len(),
            ks == key_views(keys@),
            separator.is_none() ==> forall|j: int| 0 <= j < i ==> ks[j] != program_id@,
            separator.is_none() ==> components@ == evens_below(i as int),
            separator.is_none() ==> extras@.len() == 0,
            separator.is_some() ==> {
                let s = separator.unwrap() as int;
                &&& s < i
                &&& s % 2 == 1
                &&& ks[s] == program_id@
                &&& forall|j: int| 0 <= j < i && j != s ==> ks[j] != program_id@
                &&& components@ == evens_below(s)
                &&& extras@ == positions(s + 1, i as int)
            },
        decreases n - i,
    {
        let hit = keys_equal(&keys[i], program_id);
        if hit {
            if separator.is_some() || i % 2 == 0 {
                proof {
                    assert(ks[i as int] == program_id@);
                    assert(!no_sentinel(ks, program_id@));
                    assert forall|s: int| !sole_sentinel_at(ks, program_id@, s) by {
                        if sole_sentinel_at(ks, program_id@, s) {
                            if s != i {
                            } else {
                                if separator.is_some() {
                                    let t = separator.unwrap() as int;
                                    assert(ks[t] == program_id@);
                                }
                            }
                        }
                    }
                }
                return Err(WorldError::InstructionDecodeFailure);
            }
            separator = Some(i);
            proof {
                assert(evens_below(i as int) =~= evens_below(i as int));
                assert(extras@ =~= positions(i + 1, i + 1));
            }
        } else if separator.is_some() {
            extras.push(i);
            proof {
                let s = separator.unwrap() as int;
                assert(extras@ =~= positions(s + 1, i + 1));
            }
        } else {
            if i % 2 == 0 {
                components.push(i);
            }
            proof {
                assert(components@ =~= evens_below(i + 1));
            }
        }
        i = i + 1;
    }
    proof {
        match separator {
            Some(s) => {
                assert(sole_sentinel_at(ks, program_id@, s as int));
            },
            None => {
                assert(no_sentinel(ks, program_id@));
            },
        }
    }
    Ok(AccountSplit { components, separator, extras })
}

/// The byte ranges of `n` length-framed segments read from `cursor` on, each
/// range covering its 4-byte length and its payload; `None` when a declared
/// length runs past the end or bytes are left over after the last segment.
pub open spec fn segments(out: Seq<u8>, cursor: int, n: nat) -> Option<Seq<(int, int)>>
    decreases n,
{
    if n == 0 {
        if cursor == out.len() {
            Some(Seq::empty())
        } else {
            None
        }
    } else if cursor < 0 || cursor + 4 > out.len() {
        None
    } else {
        let end = cursor + 4 + u32_le(out.subrange(cursor, cursor + 4));
        if end > out.len() {
            None
        } else {
            match segments(out, end, (n - 1) as nat) {
                Some(rest) => Some(seq![(cursor, end)] + rest),
                None => None,
            }
        }
    }
}

/// The segment count a result buffer declares.
pub open spec fn declared_count(out: Seq<u8>) -> int {
    u32_le(out.subrange(0, 4))
}

/// What reading a system's result buffer for `pairs` component pairs gives:
/// the segments' byte ranges, or the error that stops the call.
pub open spec fn relay_output_spec(out: Seq<u8>, pairs: nat, strict: bool) -> Result<
    Seq<(int, int)>,
    WorldError,
> {
    if out.len() < 4 {
        Err(WorldError::LayoutCorruption)
    } else if strict && declared_count(out) != pairs {
        Err(WorldError::InvalidOutputCount)
    } else {
        match segments(out, 4, pairs) {
            Some(sg) => Ok(sg),
            None => Err(WorldError::LayoutCorruption),
        }
    }
}

/// The byte ranges held by a list of pairs.
pub open spec fn ranges_of(v: Seq<(usize, usize)>) -> Seq<(int, int)> {
    v.map_values(|p: (usize, usize)| (p.0 as int, p.1 as int))
}

/// `acc` followed by what `rest` holds, if it holds anything.
pub open spec fn prepend(acc: Seq<(int, int)>, rest: Option<Seq<(int, int)>>) -> Option<
    Seq<(int, int)>,
> {
    match rest {
        Some(r) => Some(acc + r),
        None => None,
    }
}

/// Reads the segment framing of a system's result buffer without trusting
/// it: every declared length is checked against the bytes that remain. In
/// the strict variant the declared count must equal `pairs`.
pub fn parse_relay_output(out: &Vec<u8>, pairs: usize, strict: bool) -> (r: Result<
    Vec<(usize, usize)>,
    WorldError,
>)
    ensures
        match (r, relay_output_spec(out@, pairs as nat, strict)) {
            (Ok(v), Ok(sg)) => ranges_of(v@) == sg,
            (Err(e), Err(e2)) => e == e2,
            _ => false,
        },
{
    let len = out.len();
    if len < 4 {
        return Err(WorldError::LayoutCorruption);
    }
    let count = read_u32_le(out, 0);
    if strict && count as usize != pairs {
        return Err(WorldError::InvalidOutputCount);
    }
    let mut v: Vec<(usize, usize)> = Vec::new();
    let mut cursor: usize = 4;
    let mut i: usize = 0;
    while i < pairs
        invariant
            4 <= cursor <= len,
            len == out@.len(),
            i <= pairs,
            !(strict && declared_count(out@) != pairs),
            segments(out@, 4, pairs as nat) == prepend(
                ranges_of(v@),
                segments(out@, cursor as int, (pairs - i) as nat),
            ),
        decreases pairs - i,
    {
        if len - cursor < 4 {
            proof {
                assert(segments(out@, cursor as int, (pairs - i) as nat) is None);
            }
            return Err(WorldError::LayoutCorruption);
        }
        let seg_len = read_u32_le(out, cursor) as usize;
        if len - cursor - 4 < seg_len {
            proof {
                assert(segments(out@, cursor as int, (pairs - i) as nat) is None);
            }
            return Err(WorldError::LayoutCorruption);
        }
        let end = cursor + 4 + seg_len;
        let ghost before = ranges_of(v@);
        v.push((cursor, end));
        proof {
            let rest = segments(out@, end as int, (pairs - i - 1) as nat);
            assert((pairs - i) as nat - 1 == (pairs - i - 1) as nat);
            assert(ranges_of(v@) =~= before.push((cursor as int, end as int)));
            match rest {
                Some(rr) => {
                    assert(before + (seq![(cursor as int, end as int)] + rr) =~= before.push(
                        (cursor as int, end as int),
                    ) + rr);
                },
                None => {},
            }
        }
        cursor = end;
        i = i + 1;
    }
    if cursor != len {
        return Err(WorldError::LayoutCorruption);
    }
    proof {
        assert(ranges_of(v@) + Seq::<(int, int)>::empty() =~= ranges_of(v@));
    }
    Ok(v)
}

/// A segment list holds one range per segment asked for, each inside the
/// buffer and at least as long as its length field.
pub proof fn lemma_segments_len(out: Seq<u8>, cursor: int, n: nat)
    requires
        segments(out, cursor, n) is Some,
    ensures
        segments(out, cursor, n).unwrap().len() == n,
        cursor + 4 * n <= out.len(),
        forall|i: int|
            0 <= i < n ==> cursor <= (#[trigger] segments(out, cursor, n).unwrap()[i]).0 && segments(
                out,
                cursor,
                n,
            ).unwrap()[i].0 + 4 <= segments(out, cursor, n).unwrap()[i].1 <= out.len(),
    decreases n,
{
    if n > 0 {
        lemma_u32_le_inverse(out.subrange(cursor, cursor + 4));
        let end = cursor + 4 + u32_le(out.subrange(cursor, cursor + 4));
        lemma_segments_len(out, end, (n - 1) as nat);
        let sg = segments(out, cursor, n).unwrap();
        let rest = segments(out, end, (n - 1) as nat).unwrap();
        assert forall|i: int| 0 < i < n implies sg[i] == rest[i - 1] by {}
    }
}

/// The bytes that precede an update call's segment: the update tag, except in
/// the session variant.
pub open spec fn update_prefix(session: bool) -> Seq<u8> {
    if session {
        Seq::empty()
    } else {
        update_tag()
    }
}

/// The payload of the relay call: the execute tag and the caller's bytes,
/// except in the session variant, which passes the caller's bytes alone.
pub open spec fn relay_payload(data: Seq<u8>, session: bool) -> Seq<u8> {
    if session {
        data
    } else {
        execute_tag() + data
    }
}

fn push_bytes(v: &mut Vec<u8>, b: &Vec<u8>, lo: usize, hi: usize)
    requires
        lo <= hi <= b@.len(),
    ensures
        final(v)@ == old(v)@ + b@.subrange(lo as int, hi as int),
{
    let ghost start = v@;
    let mut i: usize = lo;
    while i < hi
        invariant
            lo <= i <= hi,
            hi <= b@.len(),
            v@ == start + b@.subrange(lo as int, i as int),
        decreases hi - i,
    {
        v.push(b[i]);
        proof {
            assert(v@ =~= start + b@.subrange(lo as int, i + 1));
        }
        i = i + 1;
    }
}

fn execute_tag_bytes() -> (r: Vec<u8>)
    ensures
        r@ == execute_tag(),
{
    let mut r: Vec<u8> = Vec::new();
    r.push(130u8);
    r.push(221u8);
    r.push(242u8);
    r.push(154u8);
    r.push(13u8);
    r.push(193u8);
    r.push(189u8);
    r.push(29u8);
    assert(r@ =~= execute_tag());
    r
}

fn update_prefix_bytes(session: bool) -> (r: Vec<u8>)
    ensures
        r@ == update_prefix(session),
{
    let mut r: Vec<u8> = Vec::new();
    if !session {
        r.push(219u8);
        r.push(200u8);
        r.push(88u8);
        r.push(176u8);
        r.push(158u8);
        r.push(63u8);
        r.push(253u8);
        r.push(127u8);
    }
    assert(r@ =~= update_prefix(session));
    r
}

/// Builds the payload of the relay call.
pub fn relay_instruction_data(data: &Vec<u8>, session: bool) -> (r: Vec<u8>)
    ensures
        r@ == relay_payload(data@, session),
{
    let mut r: Vec<u8> = if session {
        Vec::new()
    } else {
        execute_tag_bytes()
    };
    push_bytes(&mut r, data, 0, data.len());
    assert(data@.subrange(0, data@.len() as int) =~= data@);
    if session {
        assert(r@ =~= data@);
    }
    r
}

/// The one relay call an apply makes, and what its fan-out needs. Positions
/// count from `offset`, the first account after the fixed ones.
pub struct RelayCall {
    /// Position of the first trailing account in the inbound account list.
    pub offset: usize,
    /// How the trailing accounts split.
    pub split: AccountSplit,
    /// Number of (component program, component) pairs.
    pub pairs: usize,
    /// Payload of the relay call.
    pub instruction_data: Vec<u8>,
    /// Whether a session credential accompanies the call.
    pub session: bool,
}

/// One outbound update call. Positions count from the relay call's offset.
pub struct UpdateCall {
    /// Position of the component's owning program.
    pub program: usize,
    /// Position of the component account.
    pub component: usize,
    /// Payload: the update prefix and the framed segment.
    pub instruction_data: Vec<u8>,
}

/// Accounts that precede the trailing ones: system, authority, instruction
/// sysvar, world, and in the session variant the session credential.
pub open spec fn fixed_accounts(session: bool) -> int {
    if session {
        5
    } else {
        4
    }
}

/// Checks an apply call and prepares its relay call. `accounts` are the
/// inbound accounts' identities: system, authority, instruction sysvar,
/// world, the session credential in the session variant, then the trailing
/// accounts. The authority must have signed or be the program itself, and
/// the system must be approved unless the world is permissionless.
pub fn apply_system(
    world: &crate::world::WorldMutate,
    accounts: &Vec<Pubkey>,
    authority_is_signer: bool,
    program_id: &Pubkey,
    data: &Vec<u8>,
    session: bool,
) -> (r: Result<RelayCall, WorldError>)
    requires
        world.well_formed(),
    ensures
        accounts@.len() < fixed_accounts(session) ==> r == Err::<RelayCall, WorldError>(
            WorldError::AccountShortage,
        ),
        accounts@.len() >= fixed_accounts(session) && !authority_is_signer && accounts@[1]@
            != program_id@ ==> r == Err::<RelayCall, WorldError>(WorldError::AuthorizationFailure),
        accounts@.len() >= fixed_accounts(session) && (authority_is_signer || accounts@[1]@
            == program_id@) && !world@.permissionless && !world@.systems.contains(accounts@[0]@)
            ==> r == Err::<RelayCall, WorldError>(WorldError::SystemNotApproved),
        r.is_ok() <==> accounts@.len() >= fixed_accounts(session) && (authority_is_signer
            || accounts@[1]@ == program_id@) && (world@.permissionless || world@.systems.contains(
            accounts@[0]@,
        )) && split_possible(
            key_views(accounts@.skip(fixed_accounts(session))),
            program_id@,
        ),
        match r {
            Ok(call) => {
                let keys = key_views(accounts@.skip(fixed_accounts(session)));
                &&& call.offset == fixed_accounts(session)
                &&& call.session == session
                &&& split_matches(keys, program_id@, call.split)
                &&& call.pairs == call.split.pairs_end(keys.len() as int) / 2
                &&& call.instruction_data@ == relay_payload(data@, session)
            },
            Err(_) => true,
        },
        accounts@.len() >= fixed_accounts(session) && (authority_is_signer || accounts@[1]@
            == program_id@) && (world@.permissionless || world@.systems.contains(accounts@[0]@))
            && !split_possible(key_views(accounts@.skip(fixed_accounts(session))), program_id@)
            ==> r == Err::<RelayCall, WorldError>(WorldError::InstructionDecodeFailure),
{
    let fixed: usize = if session {
        5
    } else {
        4
    };
    let n = accounts.len();
    if n < fixed {
        return Err(WorldError::AccountShortage);
    }
    if !authority_is_signer && !keys_equal(&accounts[1], program_id) {
        return Err(WorldError::AuthorizationFailure);
    }
    if !world.is_permissionless() && world.find_system(&accounts[0]).is_none() {
        return Err(WorldError::SystemNotApproved);
    }
    let mut trailing: Vec<Pubkey> = Vec::new();
    let mut i: usize = fixed;
    while i < n
        invariant
            fixed <= i <= n,
            n == accounts@.len(),
            trailing@ == accounts@.subrange(fixed as int, i as int),
        decreases n - i,
    {
        trailing.push(accounts[i]);
        proof {
            assert(trailing@ =~= accounts@.subrange(fixed as int, i + 1));
        }
        i = i + 1;
    }
    assert(trailing@ =~= accounts@.skip(fixed as int));
    let split = init_execute_cpi_accounts(&trailing, program_id)?;
    let end = match split.separator {
        Some(s) => s,
        None => trailing.len(),
    };
    let instruction_data = relay_instruction_data(data, session);
    Ok(RelayCall { offset: fixed, split, pairs: end / 2, instruction_data, session })
}

/// Turns a system's result buffer into the update calls, one per component
/// pair and in pair order. The session variant is strict about the declared
/// count.
pub fn fan_out(call: &RelayCall, out: &Vec<u8>) -> (r: Result<Vec<UpdateCall>, WorldError>)
    ensures
        match relay_output_spec(out@, call.pairs as nat, call.session) {
            Err(e) => r == Err::<Vec<UpdateCall>, WorldError>(e),
            Ok(sg) => match r {
                Ok(calls) => {
                    &&& calls@.len() == call.pairs
                    &&& sg.len() == call.pairs
                    &&& forall|i: int|
                        0 <= i < calls@.len() ==> {
                            &&& (#[trigger] calls@[i]).program == 2 * i
                            &&& calls@[i].component == 2 * i + 1
                            &&& calls@[i].instruction_data@ == update_prefix(call.session)
                                + out@.subrange(sg[i].0, sg[i].1)
                        }
                },
                Err(_) => false,
            },
        },
{
    let ranges = parse_relay_output(out, call.pairs, call.session)?;
    let ghost sg = ranges_of(ranges@);
    proof {
        lemma_segments_len(out@, 4, call.pairs as nat);
        assert forall|j: int| 0 <= j < ranges@.len() implies 4 <= (#[trigger] ranges@[j]).0
            <= ranges@[j].1 <= out@.len() by {
            assert(sg[j] == (ranges@[j].0 as int, ranges@[j].1 as int));
        }
    }
    let olen = out.len();
    let mut calls: Vec<UpdateCall> = Vec::new();
    let mut i: usize = 0;
    while i < ranges.len()
        invariant
            i <= ranges@.len(),
            olen == out@.len(),
            sg == ranges_of(ranges@),
            ranges@.len() == call.pairs,
            relay_output_spec(out@, call.pairs as nat, call.session) == Ok::<
                Seq<(int, int)>,
                WorldError,
            >(sg),
            forall|j: int|
                0 <= j < ranges@.len() ==> 4 <= (#[trigger] ranges@[j]).0 <= ranges@[j].1
                    <= out@.len(),
            4 + 4 * ranges@.len() <= out@.len(),
            calls@.len() == i,
            forall|j: int|
                0 <= j < i ==> {
                    &&& (#[trigger] calls@[j]).program == 2 * j
                    &&& calls@[j].component == 2 * j + 1
                    &&& calls@[j].instruction_data@ == update_prefix(call.session) + out@.subrange(
                        sg[j].0,
                        sg[j].1,
                    )
                },
        decreases ranges@.len() - i,
    {
        let (lo, hi) = ranges[i];
        let mut payload = update_prefix_bytes(call.session);
        push_bytes(&mut payload, out, lo, hi);
        calls.push(UpdateCall { program: 2 * i, component: 2 * i + 1, instruction_data: payload });
        i = i + 1;
    }
    Ok(calls)
}

/// Segments, each framed by its 4-byte little-endian length.
pub open spec fn frame_segments(ps: Seq<Seq<u8>>) -> Seq<u8>
    decreases ps.len(),
{
    if ps.len() == 0 {
        Seq::empty()
    } else {
        le_bytes(ps[0].len() as u32) + ps[0] + frame_segments(ps.drop_first())
    }
}

/// A well-formed result buffer: the segment count, then the framed segments.
pub open spec fn framed_output(ps: Seq<Seq<u8>>) -> Seq<u8> {
    le_bytes(ps.len() as u32) + frame_segments(ps)
}

/// Every segment's length fits its 4-byte field.
pub open spec fn segments_fit(ps: Seq<Seq<u8>>) -> bool {
    ps.len() <= u32::MAX && forall|i: int| 0 <= i < ps.len() ==> (#[trigger] ps[i]).len() <= u32::MAX
}

proof fn lemma_frame_segments_read(pre: Seq<u8>, ps: Seq<Seq<u8>>)
    requires
        segments_fit(ps),
    ensures
        segments(pre + frame_segments(ps), pre.len() as int, ps.len()) is Some,
        forall|i: int|
            0 <= i < ps.len() ==> (pre + frame_segments(ps)).subrange(
                (#[trigger] segments(pre + frame_segments(ps), pre.len() as int, ps.len()).unwrap()[i]).0,
                segments(pre + frame_segments(ps), pre.len() as int, ps.len()).unwrap()[i].1,
            ) == le_bytes(ps[i].len() as u32) + ps[i],
    decreases ps.len(),
{
    let out = pre + frame_segments(ps);
    let c = pre.len() as int;
    if ps.len() == 0 {
        assert(out =~= pre);
    } else {
        let l = ps[0].len() as u32;
        lemma_le_bytes_round_trip(l);
        let rest = ps.drop_first();
        assert(segments_fit(rest)) by {
            assert forall|i: int| 0 <= i < rest.len() implies (#[trigger] rest[i]).len() <= u32::MAX by {
                assert(rest[i] == ps[i + 1]);
            }
        }
        let pre2 = pre + le_bytes(l) + ps[0];
        assert(out =~= pre2 + frame_segments(rest));
        assert(out.subrange(c, c + 4) =~= le_bytes(l));
        let end = c + 4 + l;
        assert(pre2.len() == end);
        lemma_frame_segments_read(pre2, rest);
        let sg = segments(out, c, ps.len()).unwrap();
        let sr = segments(out, end, rest.len()).unwrap();
        lemma_segments_len(out, end, rest.len());
        assert(ps.len() - 1 == rest.len());
        assert(sg == seq![(c, end)] + sr);
        assert forall|i: int| 0 <= i < ps.len() implies out.subrange(
            (#[trigger] sg[i]).0,
            sg[i].1,
        ) == le_bytes(ps[i].len() as u32) + ps[i] by {
            if i == 0 {
                assert(out.subrange(c, end) =~= le_bytes(l) + ps[0]);
            } else {
                assert(sg[i] == sr[i - 1]);
                assert(rest[i - 1] == ps[i]);
            }
        }
    }
}

/// A result buffer framing `N` segments for `N` component pairs yields `N`
/// update payloads carrying those segments in order, in either variant.
pub proof fn lemma_framed_output_fans_out(ps: Seq<Seq<u8>>, strict: bool)
    requires
        segments_fit(ps),
    ensures
        relay_output_spec(framed_output(ps), ps.len(), strict) is Ok,
        relay_output_spec(framed_output(ps), ps.len(), strict).unwrap().len() == ps.len(),
        forall|i: int|
            0 <= i < ps.len() ==> framed_output(ps).subrange(
                (#[trigger] relay_output_spec(framed_output(ps), ps.len(), strict).unwrap()[i]).0,
                relay_output_spec(framed_output(ps), ps.len(), strict).unwrap()[i].1,
            ) == le_bytes(ps[i].len() as u32) + ps[i],
{
    let n = ps.len() as u32;
    lemma_le_bytes_round_trip(n);
    let out = framed_output(ps);
    assert(out.subrange(0, 4) =~= le_bytes(n));
    lemma_frame_segments_read(le_bytes(n), ps);
    lemma_segments_len(out, 4, ps.len());
}

/// In the strict variant a declared count other than the number of pairs is
/// refused before any segment is read.
pub proof fn lemma_count_mismatch(out: Seq<u8>, pairs: nat)
    requires
        out.len() >= 4,
        declared_count(out) != pairs,
    ensures
        relay_output_spec(out, pairs, true) == Err::<Seq<(int, int)>, WorldError>(
            WorldError::InvalidOutputCount,
        ),
{
}

/// A segment whose declared length runs past the end of the buffer is refused
/// as layout corruption, whatever follows.
pub proof fn lemma_overlong_segment(out: Seq<u8>, cursor: int, n: nat)
    requires
        n > 0,
        0 <= cursor,
        cursor + 4 <= out.len(),
        cursor + 4 + u32_le(out.subrange(cursor, cursor + 4)) > out.len(),
    ensures
        segments(out, cursor, n) is None,
{
}

} // verus!
