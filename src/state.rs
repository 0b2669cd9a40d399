//! The registry, entity and header records, seeds, sizes, and opcodes.

use vstd::prelude::*;

use crate::bytes::{le_bytes64, lemma_le_bytes64_round_trip, read_u64_le, u64_le};
use crate::error::WorldError;
use crate::world::WorldMutate;

verus! {

/// Seed of a world's derived address.
pub fn world_seed() -> (r: Vec<u8>)
    ensures
        r@ == seq![119u8, 111u8, 114u8, 108u8, 100u8],
{
    let mut r: Vec<u8> = Vec::new();
    r.push(119u8);
    r.push(111u8);
    r.push(114u8);
    r.push(108u8);
    r.push(100u8);
    assert(r@ =~= seq![119u8, 111u8, 114u8, 108u8, 100u8]);
    r
}

/// Byte size of a freshly created world.
pub fn world_size() -> (r: usize)
    ensures
        r == 33,
{
    16 + 8 + 1 + 8
}

/// Bytes of a system count followed by `count` systems.
pub fn systems_size(count: usize) -> (r: usize)
    requires
        4 + 32 * count <= usize::MAX,
    ensures
        r == 4 + 32 * count,
{
    4 + 32 * count
}

/// Bytes of an authority count followed by `count` authorities.
pub fn authorities_size(count: usize) -> (r: usize)
    requires
        4 + 32 * count <= usize::MAX,
    ensures
        r == 4 + 32 * count,
{
    4 + 32 * count
}

/// The fixed header of a world record.
#[derive(Debug, Clone, Copy, PartialEq, Eq, Structural)]
pub struct WorldMetadata {
    pub discriminator: u64,
    pub id: u64,
    pub entities: u64,
}

impl WorldMetadata {
    /// The header of a new world: world discriminator, id 0, no entities.
    pub fn new() -> (r: WorldMetadata)
        ensures
            r.discriminator == crate::world::WORLD_DISCRIMINATOR,
            r.id == 0,
            r.entities == 0,
    {
        WorldMetadata { discriminator: crate::world::WORLD_DISCRIMINATOR, id: 0, entities: 0 }
    }

    /// The header's 24 little-endian bytes.
    pub fn into_bytes(&self) -> (r: Vec<u8>)
        ensures
            r@ == le_bytes64(self.discriminator) + le_bytes64(self.id) + le_bytes64(self.entities),
    {
        let mut r: Vec<u8> = Vec::new();
        let mut i: usize = 0;
        while i < 24
            invariant
                i <= 24,
                r@.len() == i,
            decreases 24 - i,
        {
            r.push(0u8);
            i = i + 1;
        }
        let ghost r0 = r@;
        crate::bytes::write_u64_le(&mut r, 0, self.discriminator);
        crate::bytes::write_u64_le(&mut r, 8, self.id);
        crate::bytes::write_u64_le(&mut r, 16, self.entities);
        proof {
            lemma_le_bytes64_round_trip(self.discriminator);
            lemma_le_bytes64_round_trip(self.id);
            lemma_le_bytes64_round_trip(self.entities);
            assert(r@ =~= le_bytes64(self.discriminator) + le_bytes64(self.id) + le_bytes64(
                self.entities,
            ));
        }
        r
    }
}

impl WorldMutate {
    /// The record's header.
    pub fn metadata(&self) -> (r: WorldMetadata)
        requires
            self.well_formed(),
        ensures
            r.discriminator == self@.discriminator,
            r.id == self@.id,
            r.entities == self@.entities,
    {
        let b = self.as_bytes();
        proof {
            crate::world::lemma_counts(self.bytes());
        }
        let discriminator = read_u64_le(b, 0);
        let id = read_u64_le(b, 8);
        let entities = read_u64_le(b, 16);
        WorldMetadata { discriminator, id, entities }
    }
}

/// Discriminator of the registry record.
pub open spec fn registry_discriminator() -> Seq<u8> {
    seq![47u8, 174u8, 110u8, 246u8, 184u8, 182u8, 252u8, 218u8]
}

/// The registry: counts the worlds created so far.
#[derive(Debug, Clone, Copy)]
pub struct Registry {
    pub discriminator: [u8; 8],
    pub worlds: u64,
}

impl Registry {
    /// Seed of the registry's derived address.
    pub fn seeds() -> (r: Vec<u8>)
        ensures
            r@ == seq![114u8, 101u8, 103u8, 105u8, 115u8, 116u8, 114u8, 121u8],
    {
        let mut r: Vec<u8> = Vec::new();
        r.push(114u8);
        r.push(101u8);
        r.push(103u8);
        r.push(105u8);
        r.push(115u8);
        r.push(116u8);
        r.push(114u8);
        r.push(121u8);
        assert(r@ =~= seq![114u8, 101u8, 103u8, 105u8, 115u8, 116u8, 114u8, 121u8]);
        r
    }

    /// A new registry: its discriminator and no worlds.
    pub fn init() -> (r: Registry)
        ensures
            r.discriminator@ == registry_discriminator(),
            r.worlds == 0,
    {
        let r = Registry { discriminator: [47u8, 174u8, 110u8, 246u8, 184u8, 182u8, 252u8, 218u8], worlds: 0 };
        assert(r.discriminator@ =~= registry_discriminator());
        r
    }

    /// Reads a registry from its 16 bytes: discriminator, then the world count
    /// in little-endian order.
    pub fn from_bytes(bytes: &Vec<u8>) -> (r: Result<Registry, WorldError>)
        ensures
            bytes@.len() < 16 ==> r == Err::<Registry, WorldError>(WorldError::LayoutCorruption),
            bytes@.len() >= 16 ==> r is Ok && r.unwrap().discriminator@ == bytes@.subrange(0, 8)
                && r.unwrap().worlds == u64_le(bytes@.subrange(8, 16)),
    {
        if bytes.len() < 16 {
            return Err(WorldError::LayoutCorruption);
        }
        let mut discriminator: [u8; 8] = [0u8; 8];
        let mut i: usize = 0;
        while i < 8
            invariant
                i <= 8,
                bytes@.len() >= 16,
                discriminator@.len() == 8,
                forall|j: int| 0 <= j < i ==> discriminator@[j] == bytes@[j],
            decreases 8 - i,
        {
            discriminator[i] = bytes[i];
            i = i + 1;
        }
        assert(discriminator@ =~= bytes@.subrange(0, 8));
        let worlds = read_u64_le(bytes, 8);
        Ok(Registry { discriminator, worlds })
    }

    /// The registry's 16 bytes.
    pub fn into_bytes(&self) -> (r: Vec<u8>)
        ensures
            r@ == self.discriminator@ + le_bytes64(self.worlds),
    {
        let mut r: Vec<u8> = Vec::new();
        let mut i: usize = 0;
        while i < 8
            invariant
                i <= 8,
                self.discriminator@.len() == 8,
                r@ == self.discriminator@.subrange(0, i as int),
            decreases 8 - i,
        {
            r.push(self.discriminator[i]);
            assert(r@ =~= self.discriminator@.subrange(0, i + 1));
            i = i + 1;
        }
        let ghost head = r@;
        let mut j: usize = 0;
        while j < 8
            invariant
                j <= 8,
                head == self.discriminator@,
                r@.len() == 8 + j,
                r@.subrange(0, 8) == head,
            decreases 8 - j,
        {
            r.push(0u8);
            assert(r@.subrange(0, 8) =~= head);
            j = j + 1;
        }
        crate::bytes::write_u64_le(&mut r, 8, self.worlds);
        proof {
            lemma_le_bytes64_round_trip(self.worlds);
            assert(r@ =~= self.discriminator@ + le_bytes64(self.worlds));
        }
        r
    }

    /// Counts one more world; returns the id the new world gets.
    pub fn add_world(&mut self) -> (r: u64)
        requires
            old(self).worlds < u64::MAX,
        ensures
            r == old(self).worlds,
            final(self).worlds == old(self).worlds + 1,
            final(self).discriminator == old(self).discriminator,
    {
        let id = self.worlds;
        self.worlds = id + 1;
        id
    }
}

/// An entity record.
#[derive(Debug, Clone, Copy, PartialEq, Eq, Structural)]
pub struct Entity {
    pub discriminator: u64,
    pub id: u64,
}

impl Entity {
    /// The record of the entity numbered `id`.
    pub fn new(id: u64) -> (r: Entity)
        ensures
            r.discriminator == 0,
            r.id == id,
    {
        Entity { discriminator: 0, id }
    }

    /// The entity's 16 little-endian bytes.
    pub fn into_bytes(&self) -> (r: Vec<u8>)
        ensures
            r@ == le_bytes64(self.discriminator) + le_bytes64(self.id),
    {
        let mut r: Vec<u8> = Vec::new();
        let mut i: usize = 0;
        while i < 16
            invariant
                i <= 16,
                r@.len() == i,
            decreases 16 - i,
        {
            r.push(0u8);
            i = i + 1;
        }
        crate::bytes::write_u64_le(&mut r, 0, self.discriminator);
        crate::bytes::write_u64_le(&mut r, 8, self.id);
        proof {
            lemma_le_bytes64_round_trip(self.discriminator);
            lemma_le_bytes64_round_trip(self.id);
            assert(r@ =~= le_bytes64(self.discriminator) + le_bytes64(self.id));
        }
        r
    }
}

/// Opcode of the first instruction; the others follow in order.
pub const INITIALIZE_REGISTRY_DISCRIMINATOR: u64 = 1000;

/// The operations of the world program.
#[derive(Debug, Clone, Copy, PartialEq, Eq, Structural)]
pub enum WorldInstruction {
    InitializeRegistry,
    InitializeNewWorld,
    AddAuthority,
    RemoveAuthority,
    ApproveSystem,
    RemoveSystem,
    AddEntity,
    InitializeComponent,
    Apply,
    ApplyWithSession,
}

/// The operation an opcode names, in order from the base opcode.
pub open spec fn instruction_of(raw: u64) -> Option<WorldInstruction> {
    if raw == 1000 {
        Some(WorldInstruction::InitializeRegistry)
    } else if raw == 1001 {
        Some(WorldInstruction::InitializeNewWorld)
    } else if raw == 1002 {
        Some(WorldInstruction::AddAuthority)
    } else if raw == 1003 {
        Some(WorldInstruction::RemoveAuthority)
    } else if raw == 1004 {
        Some(WorldInstruction::ApproveSystem)
    } else if raw == 1005 {
        Some(WorldInstruction::RemoveSystem)
    } else if raw == 1006 {
        Some(WorldInstruction::AddEntity)
    } else if raw == 1007 {
        Some(WorldInstruction::InitializeComponent)
    } else if raw == 1008 {
        Some(WorldInstruction::Apply)
    } else if raw == 1009 {
        Some(WorldInstruction::ApplyWithSession)
    } else {
        None
    }
}

/// Maps an opcode to its operation; unknown opcodes are refused.
pub fn get_instruction(raw: u64) -> (r: Result<WorldInstruction, WorldError>)
    ensures
        match instruction_of(raw) {
            Some(ins) => r == Ok::<WorldInstruction, WorldError>(ins),
            None => r == Err::<WorldInstruction, WorldError>(WorldError::InstructionDecodeFailure),
        },
{
    match raw {
        1000 => Ok(WorldInstruction::InitializeRegistry),
        1001 => Ok(WorldInstruction::InitializeNewWorld),
        1002 => Ok(WorldInstruction::AddAuthority),
        1003 => Ok(WorldInstruction::RemoveAuthority),
        1004 => Ok(WorldInstruction::ApproveSystem),
        1005 => Ok(WorldInstruction::RemoveSystem),
        1006 => Ok(WorldInstruction::AddEntity),
        1007 => Ok(WorldInstruction::InitializeComponent),
        1008 => Ok(WorldInstruction::Apply),
        1009 => Ok(WorldInstruction::ApplyWithSession),
        _ => Err(WorldError::InstructionDecodeFailure),
    }
}

/// Splits an instruction into its operation (the first eight bytes, little
/// endian) and the position where its payload starts.
pub fn decode_instruction(data: &Vec<u8>) -> (r: Result<(WorldInstruction, usize), WorldError>)
    ensures
        data@.len() < 8 ==> r == Err::<(WorldInstruction, usize), WorldError>(
            WorldError::InstructionDecodeFailure,
        ),
        data@.len() >= 8 ==> match instruction_of(u64_le(data@.subrange(0, 8)) as u64) {
            Some(ins) => r == Ok::<(WorldInstruction, usize), WorldError>((ins, 8usize)),
            None => r == Err::<(WorldInstruction, usize), WorldError>(
                WorldError::InstructionDecodeFailure,
            ),
        },
{
    if data.len() < 8 {
        return Err(WorldError::InstructionDecodeFailure);
    }
    let raw = read_u64_le(data, 0);
    let ins = get_instruction(raw)?;
    Ok((ins, 8))
}

} // verus!
