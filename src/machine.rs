//! The `e_machine` field: the architecture that an image was built for.

use vstd::prelude::*;

use crate::codec::{
    field_in_bounds, field_value, lemma_field_value_bound, lemma_non_interference, lemma_round_trip,
    pow256, read_field, store_field, with_field,
};
use crate::header::{identify, lemma_identify_same_ident_bytes, validate, ElfError, EI_DATA};

verus! {

/// Offset of `e_machine`, the same in 32-bit and 64-bit images.
pub const E_MACHINE_OFFSET: usize = 0x12;

/// Width of `e_machine` in bytes (an `Elf32_Half` or `Elf64_Half`).
pub const E_MACHINE_WIDTH: usize = 2;

/// What `get_machine` reports for the bytes `b`.
pub open spec fn machine_of(b: Seq<u8>) -> Result<u16, ElfError> {
    match identify(b) {
        Err(e) => Err(e),
        Ok(id) => if field_in_bounds(b.len(), E_MACHINE_OFFSET as nat, E_MACHINE_WIDTH as nat) {
            Ok(field_value(b, E_MACHINE_OFFSET as nat, E_MACHINE_WIDTH as nat, id.endianness) as u16)
        } else {
            Err(
                ElfError::BufferTooShort {
                    offset: E_MACHINE_OFFSET,
                    width: E_MACHINE_WIDTH,
                    len: b.len() as usize,
                },
            )
        },
    }
}

/// Validates `payload` and reads its `e_machine` field.
pub fn get_machine(payload: &[u8]) -> (r: Result<u16, ElfError>)
    ensures
        r == machine_of(payload@),
{
    let id = validate(payload)?;
    match read_field(payload, id, E_MACHINE_OFFSET, E_MACHINE_WIDTH) {
        Ok(v) => {
            proof {
                lemma_field_value_bound(
                    payload@,
                    E_MACHINE_OFFSET as nat,
                    E_MACHINE_WIDTH as nat,
                    id.endianness,
                );
                assert(pow256(2) == 0x1_0000) by {
                    reveal_with_fuel(pow256, 3);
                }
            }
            Ok(v as u16)
        },
        Err(e) => Err(e),
    }
}

/// Validates `payload`, writes `value` into its `e_machine` field in the
/// byte order that it declares, reads the field back and returns the
/// updated bytes. A read-back that differed from `value` would be reported
/// as `RoundTripMismatch`; it cannot happen.
pub fn update_machine(payload: Vec<u8>, value: u16) -> (r: Result<Vec<u8>, ElfError>)
    ensures
        identify(payload@) matches Err(e) ==> r == Err::<Vec<u8>, ElfError>(e),
        identify(payload@) matches Ok(_) && !field_in_bounds(
            payload@.len(),
            E_MACHINE_OFFSET as nat,
            E_MACHINE_WIDTH as nat,
        ) ==> r == Err::<Vec<u8>, ElfError>(
            ElfError::BufferTooShort {
                offset: E_MACHINE_OFFSET,
                width: E_MACHINE_WIDTH,
                len: payload@.len() as usize,
            },
        ),
        identify(payload@) matches Ok(id) ==> (field_in_bounds(
            payload@.len(),
            E_MACHINE_OFFSET as nat,
            E_MACHINE_WIDTH as nat,
        ) ==> (r matches Ok(out) && out@ == with_field(
            payload@,
            E_MACHINE_OFFSET as nat,
            E_MACHINE_WIDTH as nat,
            value as nat,
            id.endianness,
        ))),
        r matches Ok(out) ==> machine_of(out@) == Ok::<u16, ElfError>(value),
{
    let id = validate(&payload)?;
    let offset = E_MACHINE_OFFSET;
    let width = E_MACHINE_WIDTH;
    if width > payload.len() || offset > payload.len() - width {
        return Err(ElfError::BufferTooShort { offset, width, len: payload.len() });
    }
    let ghost before = payload@;
    let mut payload = payload;
    store_field(&mut payload, offset, width, value as u64, id.endianness);
    proof {
        assert(pow256(2) == 0x1_0000) by {
            reveal_with_fuel(pow256, 3);
        }
        lemma_non_interference(before, offset as nat, width as nat, value as nat, id.endianness);
        lemma_round_trip(before, offset as nat, width as nat, value as nat, id);
        assert forall|j: int| 0 <= j <= EI_DATA && j < before.len() implies before[j] == payload@[j] by {
            assert(with_field(before, offset as nat, width as nat, value as nat, id.endianness)[j] == before[j]);
        }
        lemma_identify_same_ident_bytes(before, payload@);
    }
    let read_back = read_field(payload.as_slice(), id, offset, width);
    match read_back {
        Ok(v) => if v == value as u64 {
            Ok(payload)
        } else {
            Err(ElfError::RoundTripMismatch { expected: value as u64, actual: v })
        },
        Err(e) => Err(e),
    }
}

} // verus!
