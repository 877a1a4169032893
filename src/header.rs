//! The identification bytes at the start of an ELF image.

use vstd::prelude::*;

verus! {

/// First magic byte, `EI_MAG0`.
pub const ELF_MAG0: u8 = 0x7F;

/// Second magic byte, `EI_MAG1`: `'E'`.
pub const ELF_MAG1: u8 = 0x45;

/// Third magic byte, `EI_MAG2`: `'L'`.
pub const ELF_MAG2: u8 = 0x4C;

/// Fourth magic byte, `EI_MAG3`: `'F'`.
pub const ELF_MAG3: u8 = 0x46;

/// Number of magic bytes at the start of every ELF image.
pub const MAGIC_LEN: usize = 4;

/// Offset of the data-encoding byte, `EI_DATA`.
pub const EI_DATA: usize = 5;

/// `ELFDATA2LSB`: least-significant byte first.
pub const ELFDATA2LSB: u8 = 0x01;

/// `ELFDATA2MSB`: most-significant byte first.
pub const ELFDATA2MSB: u8 = 0x02;

/// The magic sequence `0x7F 'E' 'L' 'F'`.
pub open spec fn elf_magic() -> Seq<u8> {
    seq![ELF_MAG0, ELF_MAG1, ELF_MAG2, ELF_MAG3]
}

/// Byte order of the multi-byte fields of an image.
#[derive(Clone, Copy, Debug, PartialEq, Eq, Structural)]
pub enum Endianness {
    Little,
    Big,
}

/// Why a buffer was refused or a field could not be read or written.
#[derive(Clone, Copy, Debug, PartialEq, Eq, Structural)]
pub enum ElfError {
    /// The byte at `position` is not the magic byte expected there.
    InvalidMagic { position: usize, found: u8 },
    /// The data-encoding byte is neither `ELFDATA2LSB` nor `ELFDATA2MSB`.
    UnknownEndianness { found: u8 },
    /// The `width` bytes at `offset` do not lie within the `len` bytes given.
    BufferTooShort { offset: usize, width: usize, len: usize },
    /// `value` has no representation in `width` bytes.
    ValueOutOfRange { value: u64, width: usize },
    /// A field read back after a write did not hold the value written.
    RoundTripMismatch { expected: u64, actual: u64 },
}

/// The identification of a buffer that `validate` accepted: its byte order.
#[derive(Clone, Copy, Debug, PartialEq, Eq, Structural)]
pub struct ElfIdentification {
    pub endianness: Endianness,
}

impl ElfIdentification {
    pub open spec fn spec_endianness(&self) -> Endianness {
        self.endianness
    }

    /// The byte order that the header declares.
    pub fn endianness(&self) -> (r: Endianness)
        ensures
            r == self.spec_endianness(),
    {
        self.endianness
    }
}

/// Position of the first byte among the magic positions from `i` on that is
/// present in `b` and differs from the magic sequence; `MAGIC_LEN` if none.
pub open spec fn magic_mismatch_from(b: Seq<u8>, i: nat) -> nat
    decreases MAGIC_LEN - i,
{
    if i >= MAGIC_LEN || i >= b.len() {
        MAGIC_LEN as nat
    } else if b[i as int] != elf_magic()[i as int] {
        i
    } else {
        magic_mismatch_from(b, i + 1)
    }
}

/// Whether every magic position that `b` holds carries the right byte.
pub open spec fn magic_ok(b: Seq<u8>) -> bool {
    forall|j: int| 0 <= j < MAGIC_LEN && j < b.len() ==> b[j] == elf_magic()[j]
}

/// What `validate` makes of the bytes `b`.
pub open spec fn identify(b: Seq<u8>) -> Result<ElfIdentification, ElfError> {
    let p = magic_mismatch_from(b, 0);
    if p < MAGIC_LEN {
        Err(ElfError::InvalidMagic { position: p as usize, found: b[p as int] })
    } else if b.len() <= EI_DATA {
        Err(ElfError::BufferTooShort { offset: EI_DATA, width: 1, len: b.len() as usize })
    } else if b[EI_DATA as int] == ELFDATA2LSB {
        Ok(ElfIdentification { endianness: Endianness::Little })
    } else if b[EI_DATA as int] == ELFDATA2MSB {
        Ok(ElfIdentification { endianness: Endianness::Big })
    } else {
        Err(ElfError::UnknownEndianness { found: b[EI_DATA as int] })
    }
}

proof fn lemma_magic_mismatch_from(b: Seq<u8>, i: nat)
    requires
        i <= MAGIC_LEN,
        forall|j: int| 0 <= j < i && j < b.len() ==> b[j] == elf_magic()[j],
    ensures
        ({
            let p = magic_mismatch_from(b, i);
            &&& p <= MAGIC_LEN
            &&& p < MAGIC_LEN <==> !magic_ok(b)
            &&& p < MAGIC_LEN ==> p < b.len() && b[p as int] != elf_magic()[p as int]
            &&& forall|j: int| 0 <= j < p && j < b.len() ==> b[j] == elf_magic()[j]
        }),
    decreases MAGIC_LEN - i,
{
    if i < MAGIC_LEN && i < b.len() && b[i as int] == elf_magic()[i as int] {
        lemma_magic_mismatch_from(b, i + 1);
    }
}

proof fn lemma_magic_mismatch_same(b: Seq<u8>, c: Seq<u8>, i: nat)
    requires
        b.len() == c.len(),
        forall|j: int| 0 <= j < MAGIC_LEN && j < b.len() ==> b[j] == c[j],
    ensures
        magic_mismatch_from(b, i) == magic_mismatch_from(c, i),
    decreases MAGIC_LEN - i,
{
    if i < MAGIC_LEN && i < b.len() {
        lemma_magic_mismatch_same(b, c, i + 1);
    }
}

proof fn lemma_magic_mismatch_extend(b: Seq<u8>, c: Seq<u8>, i: nat)
    requires
        b.len() <= c.len(),
        b == c.subrange(0, b.len() as int),
        magic_mismatch_from(b, i) < MAGIC_LEN,
    ensures
        magic_mismatch_from(c, i) == magic_mismatch_from(b, i),
    decreases MAGIC_LEN - i,
{
    assert(b[i as int] == c[i as int]);
    if b[i as int] == elf_magic()[i as int] {
        lemma_magic_mismatch_extend(b, c, i + 1);
    }
}

/// Two buffers of one length that agree up to and including the
/// data-encoding byte are identified alike: nothing past it is read.
pub proof fn lemma_identify_same_ident_bytes(b: Seq<u8>, c: Seq<u8>)
    requires
        b.len() == c.len(),
        forall|j: int| 0 <= j <= EI_DATA && j < b.len() ==> b[j] == c[j],
    ensures
        identify(b) == identify(c),
{
    lemma_magic_mismatch_same(b, c, 0);
    lemma_magic_mismatch_from(b, 0);
}

/// A buffer whose magic is wrong is refused as `InvalidMagic` whatever
/// follows it: appending bytes changes neither the verdict nor the byte
/// reported.
pub proof fn lemma_bad_magic_ignores_rest(b: Seq<u8>, rest: Seq<u8>)
    requires
        !magic_ok(b),
    ensures
        identify(b) matches Err(ElfError::InvalidMagic { .. }),
        identify(b + rest) == identify(b),
{
    lemma_magic_mismatch_from(b, 0);
    let c = b + rest;
    assert(b =~= c.subrange(0, b.len() as int));
    lemma_magic_mismatch_extend(b, c, 0);
}

/// The magic byte at position `i`.
fn magic_byte(i: usize) -> (r: u8)
    requires
        i < MAGIC_LEN,
    ensures
        r == elf_magic()[i as int],
{
    if i == 0 {
        ELF_MAG0
    } else if i == 1 {
        ELF_MAG1
    } else if i == 2 {
        ELF_MAG2
    } else {
        ELF_MAG3
    }
}

/// Checks that `bytes` starts with the ELF magic sequence and declares a
/// known byte order, and returns that byte order.
///
/// The magic bytes are checked first, each one that `bytes` holds, and the
/// first wrong one is reported; then a buffer too short to hold the
/// data-encoding byte is refused; then that byte is read. Nothing past it
/// is read.
pub fn validate(bytes: &[u8]) -> (r: Result<ElfIdentification, ElfError>)
    ensures
        r == identify(bytes@),
        !magic_ok(bytes@) <==> (r matches Err(ElfError::InvalidMagic { .. })),
        r matches Err(ElfError::InvalidMagic { position, found }) ==> {
            &&& position < MAGIC_LEN
            &&& position < bytes@.len()
            &&& found == bytes@[position as int]
            &&& found != elf_magic()[position as int]
            &&& forall|j: int| 0 <= j < position ==> bytes@[j] == elf_magic()[j]
        },
        magic_ok(bytes@) && bytes@.len() > EI_DATA && bytes@[EI_DATA as int] == ELFDATA2LSB
            ==> (r matches Ok(id) && id.spec_endianness() == Endianness::Little),
        magic_ok(bytes@) && bytes@.len() > EI_DATA && bytes@[EI_DATA as int] == ELFDATA2MSB
            ==> (r matches Ok(id) && id.spec_endianness() == Endianness::Big),
{
    proof {
        lemma_magic_mismatch_from(bytes@, 0);
    }
    let mut i: usize = 0;
    while i < MAGIC_LEN && i < bytes.len()
        invariant
            i <= MAGIC_LEN,
            magic_mismatch_from(bytes@, 0) == magic_mismatch_from(bytes@, i as nat),
            forall|j: int| 0 <= j < i && j < bytes@.len() ==> bytes@[j] == elf_magic()[j],
        decreases MAGIC_LEN - i,
    {
        let found = bytes[i];
        if found != magic_byte(i) {
            return Err(ElfError::InvalidMagic { position: i, found });
        }
        i = i + 1;
    }
    if bytes.len() <= EI_DATA {
        return Err(ElfError::BufferTooShort { offset: EI_DATA, width: 1, len: bytes.len() });
    }
    let data = bytes[EI_DATA];
    if data == ELFDATA2LSB {
        Ok(ElfIdentification { endianness: Endianness::Little })
    } else if data == ELFDATA2MSB {
        Ok(ElfIdentification { endianness: Endianness::Big })
    } else {
        Err(ElfError::UnknownEndianness { found: data })
    }
}

} // verus!
