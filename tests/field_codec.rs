use elf_machine::codec::{read_field, write_field, MAX_FIELD_WIDTH};
use elf_machine::header::{validate, ElfError, ElfIdentification, Endianness, EI_DATA};
use elf_machine::machine::{get_machine, update_machine, E_MACHINE_OFFSET, E_MACHINE_WIDTH};

/// A 64-byte header with the given data-encoding byte, distinct filler in
/// every other position, and `machine` at the `e_machine` offset.
fn header(data: u8, machine: [u8; 2]) -> Vec<u8> {
    let mut b: Vec<u8> = (0..64u32).map(|i| (i * 7 + 3) as u8).collect();
    b[0] = 0x7F;
    b[1] = b'E';
    b[2] = b'L';
    b[3] = b'F';
    b[EI_DATA] = data;
    b[E_MACHINE_OFFSET] = machine[0];
    b[E_MACHINE_OFFSET + 1] = machine[1];
    b
}

fn little() -> ElfIdentification {
    validate(&header(0x01, [0, 0])).unwrap()
}

fn big() -> ElfIdentification {
    validate(&header(0x02, [0, 0])).unwrap()
}

#[test]
fn validate_reports_little_endian() {
    let id = validate(&header(0x01, [0x3E, 0x00])).unwrap();
    assert_eq!(id.endianness(), Endianness::Little);
}

#[test]
fn validate_reports_big_endian() {
    let id = validate(&header(0x02, [0x00, 0x3E])).unwrap();
    assert_eq!(id.endianness(), Endianness::Big);
}

#[test]
fn validate_accepts_the_shortest_identification() {
    let id = validate(&[0x7F, b'E', b'L', b'F', 0x02, 0x01]).unwrap();
    assert_eq!(id.endianness(), Endianness::Little);
}

#[test]
fn validate_reports_first_wrong_magic_byte() {
    for position in 0..4 {
        let mut b = header(0x01, [0x3E, 0x00]);
        b[position] = 0x00;
        assert_eq!(
            validate(&b),
            Err(ElfError::InvalidMagic { position, found: 0x00 })
        );
    }
    let mut b = header(0x01, [0x3E, 0x00]);
    b[1] = b'X';
    b[3] = b'X';
    assert_eq!(validate(&b), Err(ElfError::InvalidMagic { position: 1, found: b'X' }));
}

#[test]
fn validate_bad_magic_in_short_buffer() {
    assert_eq!(validate(&[0x7E]), Err(ElfError::InvalidMagic { position: 0, found: 0x7E }));
    assert_eq!(
        validate(&[0x7F, b'E', b'X']),
        Err(ElfError::InvalidMagic { position: 2, found: b'X' })
    );
}

#[test]
fn validate_bad_magic_ignores_what_follows() {
    let short = vec![0x7F, b'e'];
    let mut long = short.clone();
    long.extend_from_slice(&header(0x01, [0x3E, 0x00])[2..]);
    assert_eq!(validate(&short), validate(&long));
    assert_eq!(validate(&long), Err(ElfError::InvalidMagic { position: 1, found: b'e' }));
}

#[test]
fn validate_buffer_too_short_for_data_byte() {
    assert_eq!(validate(&[]), Err(ElfError::BufferTooShort { offset: 5, width: 1, len: 0 }));
    assert_eq!(
        validate(&[0x7F, b'E', b'L', b'F', 0x02]),
        Err(ElfError::BufferTooShort { offset: 5, width: 1, len: 5 })
    );
}

#[test]
fn validate_unknown_endianness() {
    assert_eq!(
        validate(&header(0x00, [0x3E, 0x00])),
        Err(ElfError::UnknownEndianness { found: 0x00 })
    );
    assert_eq!(
        validate(&header(0x03, [0x3E, 0x00])),
        Err(ElfError::UnknownEndianness { found: 0x03 })
    );
}

#[test]
fn decode_machine_bytes_little_endian() {
    let b = header(0x01, [0x3E, 0x00]);
    assert_eq!(read_field(&b, little(), E_MACHINE_OFFSET, E_MACHINE_WIDTH), Ok(62));
}

#[test]
fn decode_machine_bytes_big_endian() {
    let b = header(0x02, [0x3E, 0x00]);
    assert_eq!(read_field(&b, big(), E_MACHINE_OFFSET, E_MACHINE_WIDTH), Ok(15872));
}

#[test]
fn decode_other_widths() {
    let b = vec![0x01, 0x02, 0x03, 0x04, 0x05, 0x06, 0x07, 0x08];
    assert_eq!(read_field(&b, little(), 0, 0), Ok(0));
    assert_eq!(read_field(&b, little(), 2, 1), Ok(3));
    assert_eq!(read_field(&b, little(), 0, 4), Ok(0x0403_0201));
    assert_eq!(read_field(&b, big(), 0, 4), Ok(0x0102_0304));
    assert_eq!(read_field(&b, little(), 0, MAX_FIELD_WIDTH), Ok(0x0807_0605_0403_0201));
    assert_eq!(read_field(&b, big(), 0, MAX_FIELD_WIDTH), Ok(0x0102_0304_0506_0708));
    let ones = vec![0xFF; 8];
    assert_eq!(read_field(&ones, big(), 0, 8), Ok(u64::MAX));
}

#[test]
fn read_field_buffer_too_short() {
    let b = vec![0x7F, b'E', b'L', b'F', 0x02, 0x01];
    assert_eq!(
        read_field(&b, little(), E_MACHINE_OFFSET, E_MACHINE_WIDTH),
        Err(ElfError::BufferTooShort { offset: 0x12, width: 2, len: 6 })
    );
    assert_eq!(
        read_field(&b, little(), 5, 2),
        Err(ElfError::BufferTooShort { offset: 5, width: 2, len: 6 })
    );
    assert_eq!(read_field(&b, little(), 4, 2), Ok(0x0102));
    assert_eq!(
        read_field(&b, little(), usize::MAX, 2),
        Err(ElfError::BufferTooShort { offset: usize::MAX, width: 2, len: 6 })
    );
}

#[test]
fn write_field_buffer_too_short() {
    let b = vec![0x7F, b'E', b'L', b'F', 0x02, 0x01];
    assert_eq!(
        write_field(&b, little(), E_MACHINE_OFFSET, E_MACHINE_WIDTH, 3),
        Err(ElfError::BufferTooShort { offset: 0x12, width: 2, len: 6 })
    );
    assert_eq!(
        write_field(&b, little(), 5, 2, 70000),
        Err(ElfError::BufferTooShort { offset: 5, width: 2, len: 6 })
    );
}

#[test]
fn write_field_value_out_of_range() {
    let b = header(0x01, [0x3E, 0x00]);
    let before = b.clone();
    assert_eq!(
        write_field(&b, little(), E_MACHINE_OFFSET, E_MACHINE_WIDTH, 70000),
        Err(ElfError::ValueOutOfRange { value: 70000, width: 2 })
    );
    assert_eq!(
        write_field(&b, little(), E_MACHINE_OFFSET, E_MACHINE_WIDTH, 65536),
        Err(ElfError::ValueOutOfRange { value: 65536, width: 2 })
    );
    assert_eq!(
        write_field(&b, big(), 0, 1, 256),
        Err(ElfError::ValueOutOfRange { value: 256, width: 1 })
    );
    assert_eq!(
        write_field(&b, big(), 0, 0, 1),
        Err(ElfError::ValueOutOfRange { value: 1, width: 0 })
    );
    assert_eq!(b, before);
}

#[test]
fn write_field_encodes_in_declared_order() {
    let b = header(0x01, [0x3E, 0x00]);
    let out = write_field(&b, little(), E_MACHINE_OFFSET, 2, 0xB7AA).unwrap();
    assert_eq!(&out[0x12..0x14], &[0xAA, 0xB7]);
    let out = write_field(&b, big(), E_MACHINE_OFFSET, 2, 0xB7AA).unwrap();
    assert_eq!(&out[0x12..0x14], &[0xB7, 0xAA]);
    let out = write_field(&b, big(), 8, 8, u64::MAX).unwrap();
    assert_eq!(&out[8..16], &[0xFF; 8]);
    let out = write_field(&b, little(), 8, 4, 0x0102_0304).unwrap();
    assert_eq!(&out[8..12], &[0x04, 0x03, 0x02, 0x01]);
}

#[test]
fn round_trip_all_two_byte_values() {
    for data in [0x01u8, 0x02] {
        let b = header(data, [0x3E, 0x00]);
        let id = validate(&b).unwrap();
        for v in 0..=65535u64 {
            let out = write_field(&b, id, E_MACHINE_OFFSET, E_MACHINE_WIDTH, v).unwrap();
            assert_eq!(read_field(&out, id, E_MACHINE_OFFSET, E_MACHINE_WIDTH), Ok(v));
        }
    }
}

#[test]
fn write_field_leaves_other_bytes_alone() {
    for id in [little(), big()] {
        let b = header(0x01, [0x3E, 0x00]);
        for (offset, width, value) in [(0x12usize, 2usize, 0xFFFFu64), (0, 4, 0), (60, 4, 7), (5, 8, 1 << 60)] {
            let out = write_field(&b, id, offset, width, value).unwrap();
            assert_eq!(out.len(), b.len());
            for k in 0..b.len() {
                if k < offset || k >= offset + width {
                    assert_eq!(out[k], b[k], "byte {} changed", k);
                }
            }
            assert_eq!(read_field(&out, id, offset, width), Ok(value));
        }
    }
}

#[test]
fn get_machine_reads_little_and_big() {
    assert_eq!(get_machine(&header(0x01, [0x3E, 0x00])), Ok(62));
    assert_eq!(get_machine(&header(0x02, [0x00, 0x3E])), Ok(62));
    assert_eq!(get_machine(&header(0x02, [0x3E, 0x00])), Ok(15872));
}

#[test]
fn get_machine_errors() {
    let mut b = header(0x01, [0x3E, 0x00]);
    b[0] = 0x7E;
    assert_eq!(get_machine(&b), Err(ElfError::InvalidMagic { position: 0, found: 0x7E }));
    assert_eq!(
        get_machine(&header(0x05, [0x3E, 0x00])),
        Err(ElfError::UnknownEndianness { found: 0x05 })
    );
    let short = header(0x01, [0x3E, 0x00])[..0x13].to_vec();
    assert_eq!(
        get_machine(&short),
        Err(ElfError::BufferTooShort { offset: 0x12, width: 2, len: 0x13 })
    );
}

#[test]
fn update_machine_x86_64_to_x86() {
    let b = header(0x01, [0x3E, 0x00]);
    assert_eq!(get_machine(&b), Ok(62));
    let out = update_machine(b.clone(), 0x03).unwrap();
    let mut expected = b.clone();
    expected[0x12] = 0x03;
    expected[0x13] = 0x00;
    assert_eq!(out, expected);
    assert_eq!(get_machine(&out), Ok(3));
}

#[test]
fn update_machine_big_endian() {
    let b = header(0x02, [0x00, 0x3E]);
    let out = update_machine(b.clone(), 0xB7).unwrap();
    let mut expected = b.clone();
    expected[0x12] = 0x00;
    expected[0x13] = 0xB7;
    assert_eq!(out, expected);
    assert_eq!(get_machine(&out), Ok(0xB7));
}

#[test]
fn update_machine_errors() {
    let mut b = header(0x01, [0x3E, 0x00]);
    b[3] = b'G';
    assert_eq!(update_machine(b, 3), Err(ElfError::InvalidMagic { position: 3, found: b'G' }));
    assert_eq!(
        update_machine(header(0x00, [0x3E, 0x00]), 3),
        Err(ElfError::UnknownEndianness { found: 0x00 })
    );
    let short = header(0x01, [0x3E, 0x00])[..0x12].to_vec();
    assert_eq!(
        update_machine(short, 3),
        Err(ElfError::BufferTooShort { offset: 0x12, width: 2, len: 0x12 })
    );
}
