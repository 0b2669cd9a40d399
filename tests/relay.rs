use world::admin::{add_authority, approve_system};
use world::error::WorldError;
use world::relay::{
    apply_system, fan_out, init_execute_cpi_accounts, parse_relay_output, relay_instruction_data,
};
use world::world::WorldMutate;

const EXECUTE_TAG: [u8; 8] = [130, 221, 242, 154, 13, 193, 189, 29];
const UPDATE_TAG: [u8; 8] = [219, 200, 88, 176, 158, 63, 253, 127];

fn key(b: u8) -> [u8; 32] {
    [b; 32]
}

fn program_id() -> [u8; 32] {
    key(0xEE)
}

fn framed(count: u32, segments: &[&[u8]]) -> Vec<u8> {
    let mut out = count.to_le_bytes().to_vec();
    for s in segments {
        out.extend((s.len() as u32).to_le_bytes());
        out.extend_from_slice(s);
    }
    out
}

#[test]
fn parses_well_formed_output() {
    let out = framed(2, &[&[1, 2, 3], &[]]);
    assert_eq!(parse_relay_output(&out, 2, true), Ok(vec![(4, 11), (11, 15)]));
    assert_eq!(parse_relay_output(&out, 2, false), Ok(vec![(4, 11), (11, 15)]));
}

#[test]
fn strict_count_mismatch() {
    let out = framed(3, &[&[1], &[2]]);
    assert_eq!(parse_relay_output(&out, 2, true), Err(WorldError::InvalidOutputCount));
    assert_eq!(parse_relay_output(&out, 2, false), Ok(vec![(4, 9), (9, 14)]));
}

#[test]
fn segment_past_end_is_layout_corruption() {
    let mut out = framed(1, &[&[1, 2]]);
    out[4] = 200;
    assert_eq!(parse_relay_output(&out, 1, true), Err(WorldError::LayoutCorruption));
    let out = vec![1, 0, 0, 0, 5, 0];
    assert_eq!(parse_relay_output(&out, 1, true), Err(WorldError::LayoutCorruption));
    let out = vec![1, 0, 0, 0, 0xFF, 0xFF, 0xFF, 0xFF, 1];
    assert_eq!(parse_relay_output(&out, 1, false), Err(WorldError::LayoutCorruption));
}

#[test]
fn short_or_trailing_output_is_layout_corruption() {
    assert_eq!(parse_relay_output(&vec![0, 0, 0], 0, false), Err(WorldError::LayoutCorruption));
    let mut out = framed(1, &[&[7]]);
    out.push(0);
    assert_eq!(parse_relay_output(&out, 1, true), Err(WorldError::LayoutCorruption));
    assert_eq!(parse_relay_output(&framed(0, &[]), 0, true), Ok(vec![]));
}

#[test]
fn partition_without_separator() {
    let keys = vec![key(1), key(2), key(3), key(4), key(5)];
    let split = init_execute_cpi_accounts(&keys, &program_id()).unwrap();
    assert_eq!(split.components, vec![0, 2, 4]);
    assert_eq!(split.separator, None);
    assert!(split.extras.is_empty());
}

#[test]
fn partition_with_separator() {
    let keys = vec![key(1), key(2), key(3), program_id(), key(7), key(8)];
    let split = init_execute_cpi_accounts(&keys, &program_id()).unwrap();
    assert_eq!(split.components, vec![0, 2]);
    assert_eq!(split.separator, Some(3));
    assert_eq!(split.extras, vec![4, 5]);
}

#[test]
fn partition_rejects_misplaced_or_repeated_separator() {
    let even = vec![key(1), key(2), program_id(), key(4)];
    assert_eq!(
        init_execute_cpi_accounts(&even, &program_id()).err(),
        Some(WorldError::InstructionDecodeFailure)
    );
    let twice = vec![key(1), program_id(), key(3), program_id()];
    assert_eq!(
        init_execute_cpi_accounts(&twice, &program_id()).err(),
        Some(WorldError::InstructionDecodeFailure)
    );
}

#[test]
fn relay_payloads() {
    let data = vec![5u8, 6];
    let mut expected = EXECUTE_TAG.to_vec();
    expected.extend([5, 6]);
    assert_eq!(relay_instruction_data(&data, false), expected);
    assert_eq!(relay_instruction_data(&data, true), vec![5, 6]);
}

fn accounts(system: u8, authority: [u8; 32], session: bool, trailing: &[[u8; 32]]) -> Vec<[u8; 32]> {
    let mut a = vec![key(system), authority, key(0x51), key(0x57)];
    if session {
        a.push(key(0x5E));
    }
    a.extend_from_slice(trailing);
    a
}

#[test]
fn apply_checks_accounts_and_authority() {
    let w = WorldMutate::init_new_world(1);
    let short = vec![key(1), key(2), key(3)];
    assert_eq!(apply_system(&w, &short, true, &program_id(), &vec![], false).err(), Some(WorldError::AccountShortage));
    let four = accounts(1, key(2), false, &[]);
    assert_eq!(apply_system(&w, &four, true, &program_id(), &vec![], true).err(), Some(WorldError::AccountShortage));
    assert_eq!(
        apply_system(&w, &four, false, &program_id(), &vec![], false).err(),
        Some(WorldError::AuthorizationFailure)
    );
    let self_call = accounts(1, program_id(), false, &[]);
    assert!(apply_system(&w, &self_call, false, &program_id(), &vec![], false).is_ok());
}

#[test]
fn session_fan_out_has_no_update_tag() {
    let w = WorldMutate::init_new_world(1);
    let acc = accounts(9, key(2), true, &[key(0x70), key(0x71)]);
    let call = apply_system(&w, &acc, true, &program_id(), &vec![1, 2, 3], true).unwrap();
    assert_eq!(call.offset, 5);
    assert_eq!(call.pairs, 1);
    assert_eq!(call.instruction_data, vec![1, 2, 3]);
    let out = framed(1, &[&[4, 5]]);
    let calls = fan_out(&call, &out).unwrap();
    assert_eq!(calls.len(), 1);
    assert_eq!(calls[0].instruction_data, vec![2, 0, 0, 0, 4, 5]);
    let wrong = framed(2, &[&[4, 5], &[6]]);
    assert_eq!(fan_out(&call, &wrong).err(), Some(WorldError::InvalidOutputCount));
}

#[test]
fn end_to_end_scenario() {
    let a = key(0xA1);
    let s = key(0x33);
    let s2 = key(0x34);
    let mut w = WorldMutate::init_new_world(0);
    assert_eq!(w.authorities_len(), 0);
    assert!(w.is_permissionless());

    assert_eq!(add_authority(&mut w, &a, &a), Ok(true));
    assert!(w.is_permissionless());

    assert_eq!(approve_system(&mut w, &a, &s), Ok(32));
    assert!(!w.is_permissionless());
    assert_eq!(w.systems_pubkey_slice(), vec![s]);

    let trailing = [key(0xC0), key(0xC1), key(0xD0), key(0xD1)];
    let mut acc = vec![s2, a, key(0x51), key(0x57)];
    acc.extend_from_slice(&trailing);
    assert_eq!(
        apply_system(&w, &acc, true, &program_id(), &vec![42], false).err(),
        Some(WorldError::SystemNotApproved)
    );

    acc[0] = s;
    let call = apply_system(&w, &acc, true, &program_id(), &vec![42], false).unwrap();
    assert_eq!(call.pairs, 2);
    let mut relay = EXECUTE_TAG.to_vec();
    relay.push(42);
    assert_eq!(call.instruction_data, relay);
    assert_eq!(call.split.components, vec![0, 2]);

    let out = framed(2, &[&[1, 2, 3], &[9]]);
    let calls = fan_out(&call, &out).unwrap();
    assert_eq!(calls.len(), 2);
    assert_eq!((calls[0].program, calls[0].component), (0, 1));
    assert_eq!((calls[1].program, calls[1].component), (2, 3));
    let mut first = UPDATE_TAG.to_vec();
    first.extend([3, 0, 0, 0, 1, 2, 3]);
    let mut second = UPDATE_TAG.to_vec();
    second.extend([1, 0, 0, 0, 9]);
    assert_eq!(calls[0].instruction_data, first);
    assert_eq!(calls[1].instruction_data, second);
}

#[test]
fn apply_on_permissionless_world_needs_no_approval() {
    let w = WorldMutate::init_new_world(1);
    let acc = accounts(0x44, key(2), false, &[key(0x70), key(0x71), key(0x72), key(0x73)]);
    let call = apply_system(&w, &acc, true, &program_id(), &vec![], false).unwrap();
    assert_eq!(call.offset, 4);
    assert_eq!(call.pairs, 2);
    assert_eq!(call.split.components, vec![0, 2]);
    assert!(call.split.extras.is_empty());
}

#[test]
fn apply_with_misplaced_separator_fails() {
    let w = WorldMutate::init_new_world(1);
    let acc = accounts(0x44, key(2), false, &[program_id(), key(0x71)]);
    assert_eq!(
        apply_system(&w, &acc, true, &program_id(), &vec![], false).err(),
        Some(WorldError::InstructionDecodeFailure)
    );
}

#[test]
fn apply_passes_extras_after_separator() {
    let w = WorldMutate::init_new_world(1);
    let acc = accounts(0x44, key(2), false, &[key(0x70), key(0x71), key(0x72), program_id(), key(0x80)]);
    let call = apply_system(&w, &acc, true, &program_id(), &vec![], false).unwrap();
    assert_eq!(call.split.separator, Some(3));
    assert_eq!(call.split.extras, vec![4]);
    assert_eq!(call.pairs, 1);
    let out = framed(7, &[&[5]]);
    let calls = fan_out(&call, &out).unwrap();
    assert_eq!(calls.len(), 1);
    let mut expected = UPDATE_TAG.to_vec();
    expected.extend([1, 0, 0, 0, 5]);
    assert_eq!(calls[0].instruction_data, expected);
}
