use world::admin::{add_authority, approve_system, remove_authority, remove_system};
use world::bytes::{insert_key_at, read_u32_le, read_u64_le, remove_bytes_at, write_u32_le, write_u64_le};
use world::error::WorldError;
use world::fee::{apply_fee_action, reconcile_fee, FeeAction};
use world::key::{compare_keys, keys_equal};
use world::state::{
    authorities_size, decode_instruction, get_instruction, systems_size, world_seed, world_size,
    Entity, Registry, WorldInstruction, WorldMetadata,
};
use world::world::WorldMutate;

fn key(b: u8) -> [u8; 32] {
    [b; 32]
}

fn world_with(auths: &[u8], systems: &[u8]) -> WorldMutate {
    let mut w = WorldMutate::init_new_world(3);
    let first = key(auths[0]);
    for a in auths {
        assert_eq!(add_authority(&mut w, &first, &key(*a)), Ok(true));
    }
    for s in systems {
        approve_system(&mut w, &first, &key(*s)).unwrap();
    }
    w
}

#[test]
fn new_world_layout() {
    let w = WorldMutate::init_new_world(7);
    assert_eq!(w.size(), 33);
    assert_eq!(w.size(), world_size());
    assert_eq!(w.authorities_len(), 0);
    assert_eq!(w.systems_len(), 0);
    assert!(w.is_permissionless());
    assert_eq!(w.permissionless(), 1);
    assert_eq!(w.permissionless_len(), 1);
    assert_eq!(w.authority_size(), 4);
    assert_eq!(w.systems_size(), 4);
    let m = w.metadata();
    assert_eq!(m.discriminator, 0);
    assert_eq!(m.id, 7);
    assert_eq!(m.entities, 0);
    let mut expected = vec![0u8; 33];
    expected[8] = 7;
    expected[28] = 1;
    assert_eq!(w.as_bytes(), &expected);
}

#[test]
fn decode_of_encode_is_identity() {
    for na in 1..4u8 {
        for ns in 0..4u8 {
            let auths: Vec<u8> = (1..=na).collect();
            let systems: Vec<u8> = (10..10 + ns).rev().collect();
            let w = world_with(&auths, &systems);
            let bytes = w.as_bytes().clone();
            assert_eq!(bytes.len(), 33 + 32 * (na as usize + ns as usize));
            let back = WorldMutate::from_bytes(bytes.clone()).unwrap();
            assert_eq!(back.as_bytes(), &bytes);
            assert_eq!(back.authorities(), w.authorities());
            assert_eq!(back.systems_pubkey_slice(), w.systems_pubkey_slice());
            assert_eq!(back.metadata(), w.metadata());
            assert_eq!(back.is_permissionless(), ns == 0);
        }
    }
    let empty = WorldMutate::init_new_world(1).into_bytes();
    let back = WorldMutate::from_bytes(empty.clone()).unwrap();
    assert_eq!(back.into_bytes(), empty);
}

#[test]
fn from_bytes_rejects_short_buffer() {
    assert_eq!(WorldMutate::from_bytes(vec![0u8; 27]).err(), Some(WorldError::LayoutCorruption));
    assert_eq!(WorldMutate::from_bytes(vec![0u8; 32]).err(), Some(WorldError::LayoutCorruption));
}

#[test]
fn from_bytes_rejects_count_past_end() {
    let mut b = WorldMutate::init_new_world(1).into_bytes();
    b[24] = 1;
    assert_eq!(WorldMutate::from_bytes(b).err(), Some(WorldError::LayoutCorruption));
    let mut b = WorldMutate::init_new_world(1).into_bytes();
    b.push(0);
    assert_eq!(WorldMutate::from_bytes(b).err(), Some(WorldError::LayoutCorruption));
}

#[test]
fn from_bytes_rejects_bad_flag() {
    let mut b = WorldMutate::init_new_world(1).into_bytes();
    b[28] = 2;
    assert_eq!(WorldMutate::from_bytes(b).err(), Some(WorldError::LayoutCorruption));
}

#[test]
fn from_bytes_rejects_unsorted_systems() {
    let w = world_with(&[1], &[4, 9]);
    let mut b = w.into_bytes();
    let sa = 33 + 32;
    for i in 0..32 {
        b.swap(sa + i, sa + 32 + i);
    }
    assert_eq!(WorldMutate::from_bytes(b).err(), Some(WorldError::LayoutCorruption));
}

#[test]
fn add_then_remove_authority_restores_record_and_balance() {
    let mut w = world_with(&[1, 2], &[5]);
    let before = w.as_bytes().clone();
    let min_before = 1000u64;
    let balance = min_before;
    assert_eq!(add_authority(&mut w, &key(1), &key(3)), Ok(true));
    assert_eq!(w.size(), before.len() + 32);
    let grown = reconcile_fee(balance, 1300);
    assert_eq!(grown, FeeAction::TopUp(300));
    let balance = apply_fee_action(balance, grown).unwrap();
    assert_eq!(remove_authority(&mut w, &key(1), &key(3)), Ok(true));
    assert_eq!(w.as_bytes(), &before);
    let shrunk = reconcile_fee(balance, min_before);
    assert_eq!(shrunk, FeeAction::Refund(300));
    assert_eq!(apply_fee_action(balance, shrunk), Some(min_before));
}

#[test]
fn add_authority_policy() {
    let mut w = WorldMutate::init_new_world(1);
    assert_eq!(add_authority(&mut w, &key(9), &key(1)), Ok(true));
    assert_eq!(w.authorities(), vec![key(1)]);
    assert_eq!(add_authority(&mut w, &key(9), &key(2)), Err(WorldError::AuthorizationFailure));
    assert_eq!(add_authority(&mut w, &key(1), &key(1)), Ok(false));
    assert_eq!(add_authority(&mut w, &key(1), &key(2)), Ok(true));
    assert_eq!(w.authorities(), vec![key(1), key(2)]);
    assert!(w.is_permissionless());
}

#[test]
fn remove_authority_policy() {
    let mut w = world_with(&[1, 2, 3], &[]);
    assert_eq!(remove_authority(&mut w, &key(7), &key(2)), Err(WorldError::AuthorizationFailure));
    assert_eq!(remove_authority(&mut w, &key(1), &key(8)), Ok(false));
    assert_eq!(remove_authority(&mut w, &key(1), &key(2)), Ok(true));
    assert_eq!(w.authorities(), vec![key(1), key(3)]);
    assert_eq!(w.size(), 33 + 64);
}

#[test]
fn approve_system_twice_is_idempotent() {
    let mut w = world_with(&[1], &[]);
    assert!(w.is_permissionless());
    assert_eq!(approve_system(&mut w, &key(1), &key(40)), Ok(32));
    assert!(!w.is_permissionless());
    assert_eq!(w.systems_len(), 1);
    let after_first = w.as_bytes().clone();
    assert_eq!(approve_system(&mut w, &key(1), &key(40)), Ok(0));
    assert_eq!(w.systems_len(), 1);
    assert!(!w.is_permissionless());
    assert_eq!(w.as_bytes(), &after_first);
}

#[test]
fn approve_system_requires_authority() {
    let mut w = world_with(&[1], &[]);
    assert_eq!(approve_system(&mut w, &key(2), &key(40)), Err(WorldError::AuthorizationFailure));
    assert!(w.is_permissionless());
    assert_eq!(remove_system(&mut w, &key(2), &key(40)), Err(WorldError::AuthorizationFailure));
}

#[test]
fn approved_systems_stay_sorted() {
    let w = world_with(&[1], &[50, 10, 30, 20, 40]);
    assert_eq!(w.systems_pubkey_slice(), vec![key(10), key(20), key(30), key(40), key(50)]);
    let slice = w.systems_slice();
    assert_eq!(slice.len(), 5 * 32);
    assert_eq!(slice[0], 10);
    assert_eq!(slice[32 * 4], 50);
}

#[test]
fn remove_system_keeps_order_at_every_position() {
    for (target, rest) in [
        (10u8, [20u8, 30, 40]),
        (30u8, [10u8, 20, 40]),
        (40u8, [10u8, 20, 30]),
    ] {
        let mut w = world_with(&[1], &[40, 10, 30, 20]);
        assert_eq!(remove_system(&mut w, &key(1), &key(target)), Ok(true));
        let expected: Vec<[u8; 32]> = rest.iter().map(|b| key(*b)).collect();
        assert_eq!(w.systems_pubkey_slice(), expected);
        assert_eq!(w.find_system(&key(target)), None);
        assert!(WorldMutate::from_bytes(w.into_bytes()).is_ok());
    }
    let mut w = world_with(&[1], &[10]);
    assert_eq!(remove_system(&mut w, &key(1), &key(99)), Ok(false));
    assert_eq!(w.systems_len(), 1);
}

#[test]
fn ordering_of_keys() {
    let mut a = key(1);
    let b = key(1);
    assert_eq!(compare_keys(&a, &b), 0);
    assert!(keys_equal(&a, &b));
    a[31] = 2;
    assert_eq!(compare_keys(&a, &b), 1);
    assert_eq!(compare_keys(&b, &a), -1);
    a[0] = 0;
    assert_eq!(compare_keys(&a, &b), -1);
    assert!(!keys_equal(&a, &b));
}

#[test]
fn entity_counter() {
    let mut w = world_with(&[1], &[2]);
    let before = w.as_bytes().clone();
    assert_eq!(w.add_entity(), 0);
    assert_eq!(w.add_entity(), 1);
    assert_eq!(w.metadata().entities, 2);
    assert_eq!(w.as_bytes().len(), before.len());
    assert_eq!(w.authorities(), vec![key(1)]);
    assert_eq!(Entity::new(5), Entity { discriminator: 0, id: 5 });
}

#[test]
fn find_authority_reports_position() {
    let w = world_with(&[4, 5, 6], &[]);
    assert_eq!(w.find_authority(&key(6)), Some(2));
    assert_eq!(w.find_authority(&key(7)), None);
}

#[test]
fn fee_reconciliation() {
    assert_eq!(reconcile_fee(100, 150), FeeAction::TopUp(50));
    assert_eq!(reconcile_fee(150, 100), FeeAction::Refund(50));
    assert_eq!(reconcile_fee(100, 100), FeeAction::Settled);
    assert_eq!(apply_fee_action(100, FeeAction::TopUp(50)), Some(150));
    assert_eq!(apply_fee_action(u64::MAX, FeeAction::TopUp(1)), None);
    assert_eq!(apply_fee_action(1, FeeAction::Refund(2)), None);
}

#[test]
fn shift_forward_with_overlap() {
    let mut b: Vec<u8> = (0..40).collect();
    insert_key_at(&mut b, 4, &[0xAA; 32]);
    assert_eq!(b.len(), 72);
    assert_eq!(&b[0..4], &[0, 1, 2, 3]);
    assert!(b[4..36].iter().all(|x| *x == 0xAA));
    let tail: Vec<u8> = (4..40).collect();
    assert_eq!(&b[36..], &tail[..]);
}

#[test]
fn shift_backward_with_overlap() {
    let mut b: Vec<u8> = (0..80).collect();
    remove_bytes_at(&mut b, 8, 32);
    assert_eq!(b.len(), 48);
    let mut expected: Vec<u8> = (0..8).collect();
    expected.extend(40..80u8);
    assert_eq!(b, expected);
}

#[test]
fn little_endian_fields() {
    let mut b = vec![0u8; 12];
    write_u32_le(&mut b, 1, 0x0403_0201);
    assert_eq!(&b[0..6], &[0, 1, 2, 3, 4, 0]);
    assert_eq!(read_u32_le(&b, 1), 0x0403_0201);
    write_u64_le(&mut b, 4, 0x0102_0304_0506_0708);
    assert_eq!(&b[4..12], &[8, 7, 6, 5, 4, 3, 2, 1]);
    assert_eq!(read_u64_le(&b, 4), 0x0102_0304_0506_0708);
}

#[test]
fn registry_and_sizes() {
    assert_eq!(Registry::seeds(), b"registry".to_vec());
    assert_eq!(world_seed(), b"world".to_vec());
    let mut r = Registry::init();
    assert_eq!(r.worlds, 0);
    assert_eq!(r.discriminator, [47, 174, 110, 246, 184, 182, 252, 218]);
    assert_eq!(r.add_world(), 0);
    assert_eq!(r.add_world(), 1);
    assert_eq!(r.worlds, 2);
    let bytes = r.into_bytes();
    assert_eq!(&bytes[..8], &[47, 174, 110, 246, 184, 182, 252, 218]);
    assert_eq!(&bytes[8..], &[2, 0, 0, 0, 0, 0, 0, 0]);
    let back = Registry::from_bytes(&bytes).unwrap();
    assert_eq!(back.worlds, 2);
    assert_eq!(back.discriminator, r.discriminator);
    assert_eq!(Registry::from_bytes(&vec![0u8; 15]).err(), Some(WorldError::LayoutCorruption));
    assert_eq!(Entity::new(3).into_bytes(), vec![0, 0, 0, 0, 0, 0, 0, 0, 3, 0, 0, 0, 0, 0, 0, 0]);
    assert_eq!(systems_size(2), 68);
    assert_eq!(authorities_size(3), 100);
    let m = WorldMetadata::new();
    assert_eq!(m.into_bytes(), vec![0u8; 24]);
    let m = WorldMetadata { discriminator: 1, id: 2, entities: 258 };
    let b = m.into_bytes();
    assert_eq!(b[0], 1);
    assert_eq!(b[8], 2);
    assert_eq!(&b[16..18], &[2, 1]);
}

#[test]
fn opcodes() {
    assert_eq!(get_instruction(1000), Ok(WorldInstruction::InitializeRegistry));
    assert_eq!(get_instruction(1004), Ok(WorldInstruction::ApproveSystem));
    assert_eq!(get_instruction(1008), Ok(WorldInstruction::Apply));
    assert_eq!(get_instruction(1009), Ok(WorldInstruction::ApplyWithSession));
    assert_eq!(get_instruction(999), Err(WorldError::InstructionDecodeFailure));
    assert_eq!(get_instruction(1010), Err(WorldError::InstructionDecodeFailure));
    let mut data = 1002u64.to_le_bytes().to_vec();
    data.extend([9, 9]);
    assert_eq!(decode_instruction(&data), Ok((WorldInstruction::AddAuthority, 8)));
    assert_eq!(decode_instruction(&vec![1, 2, 3]), Err(WorldError::InstructionDecodeFailure));
}
