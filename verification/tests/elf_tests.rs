use abo_builder::elf::{parse_elf, ElfError, ElfSegment};

/// (p_type, p_flags, p_offset, p_vaddr, p_filesz, p_memsz)
type Phdr = (u32, u32, u64, u64, u64, u64);

fn put(out: &mut [u8], off: usize, v: u64, n: usize) {
    for i in 0..n {
        out[off + i] = (v >> (8 * i)) as u8;
    }
}

fn make_elf(e_type: u16, machine: u16, entry: u64, phentsize: u16, phdrs: &[Phdr], len: usize) -> Vec<u8> {
    let mut d = vec![0u8; len];
    d[0..4].copy_from_slice(&[0x7f, b'E', b'L', b'F']);
    d[4] = 2;
    d[5] = 1;
    put(&mut d, 16, e_type as u64, 2);
    put(&mut d, 18, machine as u64, 2);
    put(&mut d, 24, entry, 8);
    put(&mut d, 32, 64, 8);
    put(&mut d, 54, phentsize as u64, 2);
    put(&mut d, 56, phdrs.len() as u64, 2);
    for (i, p) in phdrs.iter().enumerate() {
        let o = 64 + i * phentsize as usize;
        put(&mut d, o, p.0 as u64, 4);
        put(&mut d, o + 4, p.1 as u64, 4);
        put(&mut d, o + 8, p.2, 8);
        put(&mut d, o + 16, p.3, 8);
        put(&mut d, o + 32, p.4, 8);
        put(&mut d, o + 40, p.5, 8);
    }
    d
}

fn sample() -> Vec<u8> {
    make_elf(
        2,
        62,
        0x401010,
        56,
        &[
            (6, 4, 64, 0x400040, 112, 112),
            (1, 5, 0x100, 0x401000, 0x20, 0x20),
            (1, 6, 0x120, 0x402000, 0x10, 0x40),
            (1, 4, 0x130, 0x403000, 0, 0),
        ],
        0x200,
    )
}

#[test]
fn parses_the_loadable_segments() {
    let info = parse_elf(&sample()).unwrap();
    assert_eq!(info.e_type, 2);
    assert_eq!(info.e_entry, 0x401010);
    assert_eq!(
        info.segments,
        vec![
            ElfSegment { p_flags: 5, p_offset: 0x100, p_vaddr: 0x401000, p_filesz: 0x20, p_memsz: 0x20 },
            ElfSegment { p_flags: 6, p_offset: 0x120, p_vaddr: 0x402000, p_filesz: 0x10, p_memsz: 0x40 },
        ]
    );
}

#[test]
fn accepts_position_independent_executables() {
    let d = make_elf(3, 62, 0x1000, 56, &[(1, 5, 0, 0, 0x40, 0x40)], 0x100);
    let info = parse_elf(&d).unwrap();
    assert_eq!(info.e_type, 3);
    assert_eq!(info.segments.len(), 1);
}

#[test]
fn larger_program_header_entries_are_stepped_over() {
    let d = make_elf(2, 62, 0x1000, 64, &[(1, 1, 0, 0x1000, 8, 8), (1, 2, 8, 0x2000, 8, 8)], 0x200);
    let info = parse_elf(&d).unwrap();
    assert_eq!(info.segments.len(), 2);
    assert_eq!(info.segments[1].p_vaddr, 0x2000);
}

#[test]
fn too_small() {
    assert_eq!(parse_elf(&[0u8; 63]).unwrap_err(), ElfError::TooSmall);
    assert_eq!(parse_elf(&[]).unwrap_err(), ElfError::TooSmall);
}

#[test]
fn bad_magic() {
    let mut d = sample();
    d[1] = b'X';
    assert_eq!(parse_elf(&d).unwrap_err(), ElfError::BadMagic(0x7f, b'X', b'L', b'F'));
}

#[test]
fn not_elf64_and_not_little_endian() {
    let mut d = sample();
    d[4] = 1;
    assert_eq!(parse_elf(&d).unwrap_err(), ElfError::NotElf64);
    let mut d = sample();
    d[5] = 2;
    assert_eq!(parse_elf(&d).unwrap_err(), ElfError::NotLittleEndian);
}

#[test]
fn not_executable_and_not_x86_64() {
    let d = make_elf(1, 62, 0x1000, 56, &[(1, 5, 0, 0, 0x40, 0x40)], 0x100);
    assert_eq!(parse_elf(&d).unwrap_err(), ElfError::NotExecutable(1));
    let d = make_elf(2, 183, 0x1000, 56, &[(1, 5, 0, 0, 0x40, 0x40)], 0x100);
    assert_eq!(parse_elf(&d).unwrap_err(), ElfError::NotX86_64(183));
}

#[test]
fn program_header_too_small() {
    let d = make_elf(2, 62, 0x1000, 55, &[], 0x100);
    assert_eq!(parse_elf(&d).unwrap_err(), ElfError::ProgramHeaderTooSmall);
}

#[test]
fn program_header_out_of_file() {
    let d = make_elf(2, 62, 0x1000, 56, &[(1, 5, 0, 0, 0x10, 0x10), (1, 5, 0, 0, 0x10, 0x10)], 64 + 56 + 55);
    assert_eq!(parse_elf(&d).unwrap_err(), ElfError::ProgramHeaderOutOfFile(1));
    let mut d = sample();
    put(&mut d, 32, u64::MAX - 10, 8);
    assert_eq!(parse_elf(&d).unwrap_err(), ElfError::ProgramHeaderOutOfFile(0));
}

#[test]
fn segment_out_of_file() {
    let d = make_elf(2, 62, 0x1000, 56, &[(1, 5, 0x80, 0, 0x81, 0x100)], 0x100);
    assert_eq!(parse_elf(&d).unwrap_err(), ElfError::SegmentOutOfFile(0));
    let d = make_elf(2, 62, 0x1000, 56, &[(1, 5, u64::MAX, 0, 2, 0x100)], 0x100);
    assert_eq!(parse_elf(&d).unwrap_err(), ElfError::SegmentOutOfFile(0));
    // A segment that ends exactly at the end of the file is accepted.
    let d = make_elf(2, 62, 0x1000, 56, &[(1, 5, 0x80, 0, 0x80, 0x100)], 0x100);
    assert!(parse_elf(&d).is_ok());
}

#[test]
fn no_load_segments() {
    let d = make_elf(2, 62, 0x1000, 56, &[(6, 4, 0, 0, 0, 0), (1, 5, 0, 0, 0x10, 0)], 0x100);
    assert_eq!(parse_elf(&d).unwrap_err(), ElfError::NoLoadSegments);
    let d = make_elf(2, 62, 0x1000, 56, &[], 0x100);
    assert_eq!(parse_elf(&d).unwrap_err(), ElfError::NoLoadSegments);
}

#[test]
fn empty_memory_images_are_skipped_before_the_file_check() {
    // The second load segment lies outside the file but has no memory image.
    let d = make_elf(2, 62, 0x1000, 56, &[(1, 5, 0, 0, 0x10, 0x10), (1, 5, 0x1000, 0, 0x1000, 0)], 0x100);
    assert_eq!(parse_elf(&d).unwrap().segments.len(), 1);
}
