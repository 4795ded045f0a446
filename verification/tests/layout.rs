use flip_link::memory::{end_region, round_down_to_nearest_multiple, MemoryEntry};
use flip_link::sections::{
    compute_span_of_ram_sections, region_for_object, region_for_program, region_for_sections,
    RegionError, Section,
};

const RAM: MemoryEntry = MemoryEntry {
    line: 3,
    origin: 0x2000_0000,
    length: 0x1_0000,
};

fn section(flags: u64, address: u64, size: u64, align: u64) -> Section {
    Section {
        elf_flags: Some(flags),
        address,
        size,
        align,
    }
}

fn put(elf: &mut Vec<u8>, fields: &[u32]) {
    for field in fields {
        elf.extend_from_slice(&field.to_le_bytes());
    }
}

/// A 32-bit little endian ELF file with a null section, the given sections of type `NOBITS`, each
/// by its flags, address, size and alignment, and an empty string table.
fn elf_file(sections: &[[u32; 4]]) -> Vec<u8> {
    let count = sections.len() as u16 + 2;
    let mut elf = vec![0x7f, b'E', b'L', b'F', 1, 1, 1, 0, 0, 0, 0, 0, 0, 0, 0, 0];
    elf.extend_from_slice(&2u16.to_le_bytes());
    elf.extend_from_slice(&40u16.to_le_bytes());
    put(&mut elf, &[1, 0, 0, 52, 0]);
    for half in [52u16, 32, 0, 40, count, count - 1] {
        elf.extend_from_slice(&half.to_le_bytes());
    }
    put(&mut elf, &[0; 10]);
    for s in sections {
        put(&mut elf, &[0, 8, s[0], s[1], 0, s[2], 0, 0, s[3], 0]);
    }
    put(&mut elf, &[0, 3, 0, 0, 52, 0, 0, 0, 1, 0]);
    elf
}

#[test]
fn end_and_span_of_a_region() {
    assert_eq!(RAM.end(), 0x2001_0000);
    assert_eq!(RAM.span(), 0x2000_0000..=0x2001_0000);
    assert!(RAM.span().contains(&0x2001_0000));
}

#[test]
fn multiples_are_rounded_down() {
    assert_eq!(round_down_to_nearest_multiple(17, 8), 16);
    assert_eq!(round_down_to_nearest_multiple(16, 8), 16);
    assert_eq!(round_down_to_nearest_multiple(7, 8), 0);
    assert_eq!(round_down_to_nearest_multiple(u64::MAX, 1), u64::MAX);
}

#[test]
fn used_part_moves_to_the_end() {
    assert_eq!(end_region(RAM, 0, 0), (0x2001_0000, 0));
    assert_eq!(end_region(RAM, 1, 1), (0x2000_fff8, 8));
    assert_eq!(end_region(RAM, 0x101, 16), (0x2000_fef0, 0x110));
    assert_eq!(end_region(RAM, 0x1_0000, 4), (0x2000_0000, 0x1_0000));
    let odd = MemoryEntry {
        line: 0,
        origin: 0x1001,
        length: 0x10,
    };
    assert_eq!(end_region(odd, 0x10, 4), (0x1000, 0x11));
    assert_eq!(end_region(odd, 4, 12), (0x1008, 9));
}

#[test]
fn span_of_resident_sections() {
    assert_eq!(compute_span_of_ram_sections(RAM, &[]), (0, 0));
    let sections = [
        section(2, 0x2000_0100, 0x20, 4),
        section(3, 0x2000_0010, 0x08, 8),
        section(1, 0x2000_0000, 0x1000, 64),
        section(2, 0x0800_0000, 0x1000, 64),
        section(2, 0x2000_ffff, 2, 64),
        section(2, 0x1fff_ffff, 2, 64),
        Section {
            elf_flags: None,
            ..section(2, 0x2000_0000, 4, 64)
        },
    ];
    assert_eq!(compute_span_of_ram_sections(RAM, &sections), (0x110, 8));
    let whole = [section(2, 0x2001_0000, 0, 1), section(2, 0x2000_0000, 0, 2)];
    assert_eq!(compute_span_of_ram_sections(RAM, &whole), (0x1_0000, 2));
}

#[test]
fn region_for_given_sections() {
    let sections = [section(2, 0x2000_0000, 0x101, 16)];
    assert_eq!(region_for_sections(RAM, &sections), Some((0x2000_fef0, 0x110)));
    assert_eq!(region_for_sections(RAM, &[section(2, u64::MAX, 1, 1)]), None);
    assert_eq!(
        region_for_sections(RAM, &[section(1, u64::MAX, 1, 1)]),
        Some((0x2001_0000, 0))
    );
    let wide = MemoryEntry {
        line: 0,
        origin: u64::MAX,
        length: 1,
    };
    assert_eq!(region_for_sections(wide, &[]), None);
}

#[test]
fn region_for_what_was_read() {
    let sections = vec![section(2, 0x2000_0000, 0x101, 16)];
    assert!(matches!(region_for_object(RAM, Ok(sections)), Ok((0x2000_fef0, 0x110))));
    assert!(matches!(
        region_for_object(RAM, Ok(vec![section(2, u64::MAX, 1, 1)])),
        Err(RegionError::AddressOverflow)
    ));
    match region_for_object(RAM, Err(String::from("torn file"))) {
        Err(RegionError::Object(message)) => assert_eq!(message, "torn file"),
        _ => panic!("no error"),
    }
}

#[test]
fn region_for_a_program() {
    let elf = elf_file(&[
        [3, 0x2000_0000, 0x40, 4],
        [3, 0x2000_0040, 0xc1, 32],
        [2, 0x0800_0000, 0x1000, 128],
        [0, 0x2000_8000, 0x10, 128],
    ]);
    match region_for_program(RAM, &elf) {
        Ok(region) => assert_eq!(region, (0x2000_fee0, 0x120)),
        Err(_) => panic!("no region"),
    }
    match region_for_program(RAM, &elf_file(&[])) {
        Ok(region) => assert_eq!(region, (0x2001_0000, 0)),
        Err(_) => panic!("no region"),
    }
}

#[test]
fn programs_that_cannot_be_read() {
    match region_for_program(RAM, b"short") {
        Err(RegionError::Object(message)) => assert_eq!(message, "Could not read file magic"),
        _ => panic!("no error"),
    }
    match region_for_program(RAM, b"neither an ELF file nor another") {
        Err(RegionError::Object(message)) => assert_eq!(message, "Unknown file magic"),
        _ => panic!("no error"),
    }
    let wide = MemoryEntry {
        line: 0,
        origin: u64::MAX,
        length: 1,
    };
    assert!(matches!(
        region_for_program(wide, &elf_file(&[])),
        Err(RegionError::AddressOverflow)
    ));
}
