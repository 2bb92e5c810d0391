use abo_builder::abo::{
    entry_offset,
    abo_manifest, build_abo, check_abo, parse_abo_header, read_abo_segments, AboError,
    AboFormatError, AboTableEntry,
};
use abo_builder::elf::{parse_elf, ElfInfo, ElfSegment};
use abo_builder::manifest::Manifest;
use abo_builder::uuid::name_to_uuid;

fn u16_at(d: &[u8], o: usize) -> u16 {
    u16::from_le_bytes(d[o..o + 2].try_into().unwrap())
}
fn u32_at(d: &[u8], o: usize) -> u32 {
    u32::from_le_bytes(d[o..o + 4].try_into().unwrap())
}
fn u64_at(d: &[u8], o: usize) -> u64 {
    u64::from_le_bytes(d[o..o + 8].try_into().unwrap())
}

fn seg(p_flags: u32, p_offset: u64, p_vaddr: u64, p_filesz: u64, p_memsz: u64) -> ElfSegment {
    ElfSegment { p_flags, p_offset, p_vaddr, p_filesz, p_memsz }
}

fn file_bytes() -> Vec<u8> {
    (0..64u32).map(|i| i as u8 + 1).collect()
}

fn manifest() -> Manifest {
    Manifest {
        name: "init".to_string(),
        version: "0.1.0".to_string(),
        caps_req: vec!["IpcEndpoint:SEND".to_string()],
        caps_exp: vec![],
        sandbox: vec![],
    }
}

fn exec_elf() -> ElfInfo {
    ElfInfo {
        e_type: 2,
        e_entry: 0x401008,
        segments: vec![seg(4, 0, 0x400000, 16, 16), seg(5, 16, 0x401000, 32, 32), seg(6, 48, 0x402000, 8, 0x100)],
    }
}

#[test]
fn builds_the_documented_layout() {
    let data = file_bytes();
    let m = manifest();
    let uuid = name_to_uuid("init");
    let b = build_abo(&data, &exec_elf(), &m, uuid).unwrap();
    let mb = m.serialize();
    let ms = mb.len();
    assert_eq!(ms, "NAME=init\nVERSION=0.1.0\nCAP_REQ=IpcEndpoint:SEND\n".len());
    let tab = 64 + ms;
    let data_off = tab + 3 * 32;
    assert_eq!(b.len(), data_off + 16 + 32 + 8);
    assert_eq!(&b[0..4], b"ABO\0");
    assert_eq!(u16_at(&b, 4), 0);
    assert_eq!(u16_at(&b, 6), 0);
    assert_eq!(&b[8..24], &uuid);
    assert_eq!(u32_at(&b, 24), 1);
    assert_eq!(u32_at(&b, 28), 64);
    assert_eq!(u32_at(&b, 32) as usize, ms);
    assert_eq!(u32_at(&b, 36) as usize, tab);
    assert_eq!(u32_at(&b, 40), 3);
    assert_eq!(u32_at(&b, 44), 8);
    assert_eq!(&b[48..64], &[0u8; 16]);
    assert_eq!(&b[64..64 + ms], &mb[..]);
    // The segment table.
    let expect = [
        (0x400000u64, 16u64, data_off as u64, 16u32, 1u32),
        (0x401000, 32, data_off as u64 + 16, 32, 1 | 4),
        (0x402000, 0x100, data_off as u64 + 48, 8, 1 | 2),
    ];
    for (i, e) in expect.iter().enumerate() {
        let o = tab + 32 * i;
        assert_eq!(u64_at(&b, o), e.0);
        assert_eq!(u64_at(&b, o + 8), e.1);
        assert_eq!(u64_at(&b, o + 16), e.2);
        assert_eq!(u32_at(&b, o + 24), e.3);
        assert_eq!(u32_at(&b, o + 28), e.4);
    }
    // The segment bytes, in order.
    assert_eq!(&b[data_off..data_off + 16], &data[0..16]);
    assert_eq!(&b[data_off + 16..data_off + 48], &data[16..48]);
    assert_eq!(&b[data_off + 48..], &data[48..56]);
}

#[test]
fn position_independent_executables_are_placed_at_the_load_base() {
    let data = file_bytes();
    let elf = ElfInfo { e_type: 3, e_entry: 0x20, segments: vec![seg(5, 0, 0x10, 32, 32)] };
    let b = build_abo(&data, &elf, &Manifest::default(), [0; 16]).unwrap();
    assert_eq!(u32_at(&b, 32), 0);
    assert_eq!(u32_at(&b, 36), 64);
    assert_eq!(u32_at(&b, 44), 0x10);
    assert_eq!(u64_at(&b, 64), 0x40_0010);
    assert_eq!(u64_at(&b, 64 + 16), 96);
    assert_eq!(b.len(), 96 + 32);
}

#[test]
fn addresses_wrap_around() {
    let data = file_bytes();
    let elf = ElfInfo {
        e_type: 3,
        e_entry: u64::MAX - 0xf,
        segments: vec![seg(1, 0, u64::MAX - 0x1f, 8, 8)],
    };
    let b = build_abo(&data, &elf, &Manifest::default(), [0; 16]).unwrap();
    assert_eq!(u64_at(&b, 64), 0x40_0000 - 0x20);
    assert_eq!(u32_at(&b, 44), 0x10);
}

#[test]
fn entry_offset_keeps_its_low_32_bits() {
    let data = file_bytes();
    let elf = ElfInfo { e_type: 2, e_entry: 0x1_0000_1000, segments: vec![seg(1, 0, 0x1000, 8, 8)] };
    let b = build_abo(&data, &elf, &Manifest::default(), [0; 16]).unwrap();
    assert_eq!(u32_at(&b, 44), 0);
}

#[test]
fn entry_null() {
    let data = file_bytes();
    let elf = ElfInfo { e_type: 2, e_entry: 0, segments: vec![seg(5, 0, 0x1000, 8, 8)] };
    assert_eq!(build_abo(&data, &elf, &manifest(), [0; 16]).unwrap_err(), AboError::EntryNull);
    // The load base of a position-independent executable makes a zero entry point valid.
    let elf = ElfInfo { e_type: 3, e_entry: 0, segments: vec![seg(5, 0, 0, 8, 8)] };
    assert!(build_abo(&data, &elf, &manifest(), [0; 16]).is_ok());
}

#[test]
fn no_exec_segment() {
    let data = file_bytes();
    let elf = ElfInfo { e_type: 2, e_entry: 0x1000, segments: vec![seg(6, 0, 0x1000, 8, 8)] };
    assert_eq!(build_abo(&data, &elf, &manifest(), [0; 16]).unwrap_err(), AboError::NoExecSegment);
}

#[test]
fn entry_before_the_first_exec_segment() {
    let data = file_bytes();
    let elf = ElfInfo {
        e_type: 2,
        e_entry: 0x1800,
        segments: vec![seg(4, 0, 0x1000, 8, 8), seg(5, 8, 0x2000, 8, 8), seg(5, 16, 0x1000, 8, 8)],
    };
    assert_eq!(
        build_abo(&data, &elf, &manifest(), [0; 16]).unwrap_err(),
        AboError::EntryBeforeExec(0x1800, 0x2000)
    );
}

#[test]
fn a_built_bundle_passes_the_check_and_reads_back() {
    let data = file_bytes();
    let m = manifest();
    let uuid = name_to_uuid(&m.name);
    let b = build_abo(&data, &exec_elf(), &m, uuid).unwrap();
    assert_eq!(check_abo(&b), Ok(()));
    let h = parse_abo_header(&b).unwrap();
    assert_eq!(h.version_major, 0);
    assert_eq!(h.version_minor, 0);
    assert_eq!(h.uuid, uuid);
    assert_eq!(h.flags, 1);
    assert_eq!(h.manifest_off, 64);
    assert_eq!(h.segments_count, 3);
    assert_eq!(h.entry_off, 8);
    let mb = abo_manifest(&b, &h).unwrap();
    assert_eq!(mb, &m.serialize()[..]);
    let back = Manifest::parse(std::str::from_utf8(mb).unwrap());
    assert_eq!(back.name, m.name);
    assert_eq!(back.caps_req, m.caps_req);
    let table = read_abo_segments(&b, &h);
    assert_eq!(table.len(), 3);
    let data_off = h.segments_off as u64 + 96;
    assert_eq!(table[0], AboTableEntry { vaddr: 0x400000, mem_size: 16, file_off: data_off, file_size: 16, flags: 1 });
    assert_eq!(table[2], AboTableEntry { vaddr: 0x402000, mem_size: 0x100, file_off: data_off + 48, file_size: 8, flags: 3 });
    for (t, s) in table.iter().zip(exec_elf().segments.iter()) {
        let o = t.file_off as usize;
        assert_eq!(&b[o..o + t.file_size as usize], &data[s.p_offset as usize..(s.p_offset + s.p_filesz) as usize]);
    }
}

#[test]
fn converts_a_parsed_elf_file() {
    // A small executable: one header, one loadable executable segment at offset 0x80.
    let mut d = vec![0u8; 0xa0];
    d[0..4].copy_from_slice(&[0x7f, b'E', b'L', b'F']);
    d[4] = 2;
    d[5] = 1;
    d[16] = 2;
    d[18] = 62;
    d[24..32].copy_from_slice(&0x401004u64.to_le_bytes());
    d[32..40].copy_from_slice(&64u64.to_le_bytes());
    d[54] = 56;
    d[56] = 1;
    d[64] = 1;
    d[68] = 5;
    d[72..80].copy_from_slice(&0x80u64.to_le_bytes());
    d[80..88].copy_from_slice(&0x401000u64.to_le_bytes());
    d[96..104].copy_from_slice(&0x20u64.to_le_bytes());
    d[104..112].copy_from_slice(&0x20u64.to_le_bytes());
    for i in 0x80..0xa0 {
        d[i] = i as u8;
    }
    let elf = parse_elf(&d).unwrap();
    let b = build_abo(&d, &elf, &Manifest::default(), name_to_uuid("init")).unwrap();
    assert_eq!(b.len(), 64 + 32 + 0x20);
    assert_eq!(u32_at(&b, 44), 4);
    assert_eq!(&b[96..], &d[0x80..0xa0]);
}

#[test]
fn check_errors() {
    assert_eq!(check_abo(&[0u8; 63]), Err(AboFormatError::TooSmall));
    let mut b = vec![0u8; 64];
    b[0..4].copy_from_slice(b"ELF\0");
    assert_eq!(check_abo(&b), Err(AboFormatError::BadMagic(b'E', b'L', b'F', 0)));
    b[0..4].copy_from_slice(b"ABO\0");
    assert_eq!(check_abo(&b), Ok(()));
    b[4] = 1;
    assert_eq!(check_abo(&b), Err(AboFormatError::UnsupportedVersion(1)));
    // Reading the header does not look at the version.
    assert_eq!(parse_abo_header(&b).unwrap().version_major, 1);
}

#[test]
fn manifest_outside_the_file_is_not_read() {
    let mut b = vec![0u8; 80];
    b[0..4].copy_from_slice(b"ABO\0");
    b[28] = 64;
    b[32] = 17;
    let h = parse_abo_header(&b).unwrap();
    assert_eq!(abo_manifest(&b, &h), None);
    b[32] = 16;
    let h = parse_abo_header(&b).unwrap();
    assert_eq!(abo_manifest(&b, &h).unwrap().len(), 16);
    b[32] = 0;
    let h = parse_abo_header(&b).unwrap();
    assert_eq!(abo_manifest(&b, &h), None);
}

#[test]
fn table_reading_stops_at_the_end_of_the_file() {
    let mut b = vec![0u8; 64 + 32 + 31];
    b[0..4].copy_from_slice(b"ABO\0");
    b[36] = 64;
    b[40..44].copy_from_slice(&u32::MAX.to_le_bytes());
    b[64] = 7;
    b[64 + 28] = 5;
    let h = parse_abo_header(&b).unwrap();
    let t = read_abo_segments(&b, &h);
    assert_eq!(t, vec![AboTableEntry { vaddr: 7, mem_size: 0, file_off: 0, file_size: 0, flags: 5 }]);
}

#[test]
fn entry_offset_decides_before_any_segment_is_read() {
    // Segments of 4 GiB and more: the decision needs none of their bytes.
    let big = seg(4, 0, 0x1000, 0x1_0000_0000, 0x1_0000_0000);
    let elf = ElfInfo { e_type: 2, e_entry: 0, segments: vec![big] };
    assert_eq!(entry_offset(&elf), Err(AboError::EntryNull));
    let elf = ElfInfo { e_type: 2, e_entry: 0x2000, segments: vec![big] };
    assert_eq!(entry_offset(&elf), Err(AboError::NoExecSegment));
    let elf = ElfInfo { e_type: 2, e_entry: 0x2000, segments: vec![seg(5, 0, 0x3000, 0x1_0000_0000, 1), seg(1, 0, 0x1000, 8, 8)] };
    assert_eq!(entry_offset(&elf), Err(AboError::EntryBeforeExec(0x2000, 0x3000)));
    let elf = ElfInfo { e_type: 3, e_entry: 0x10, segments: vec![seg(1, 0, 0x8, 8, 8)] };
    assert_eq!(entry_offset(&elf), Ok(8));
    let elf = ElfInfo { e_type: 2, e_entry: 0x1_0000_1000, segments: vec![seg(1, 0, 0x1000, 8, 8)] };
    assert_eq!(entry_offset(&elf), Ok(0x1_0000_0000));
}

#[test]
fn a_pie_bundle_differs_only_in_its_addresses() {
    let data = file_bytes();
    let m = manifest();
    let exec = exec_elf();
    let pie = ElfInfo { e_type: 3, e_entry: exec.e_entry, segments: exec.segments.clone() };
    let v1 = build_abo(&data, &exec, &m, [7; 16]).unwrap();
    let v2 = build_abo(&data, &pie, &m, [7; 16]).unwrap();
    assert_eq!(v1.len(), v2.len());
    let t = 64 + m.serialize().len();
    let n = exec.segments.len();
    for k in 0..v1.len() {
        let in_vaddr = k >= t && k < t + 32 * n && (k - t) % 32 < 8;
        if !in_vaddr {
            assert_eq!(v1[k], v2[k], "byte {}", k);
        }
    }
    for i in 0..n {
        assert_eq!(u64_at(&v2, t + 32 * i), u64_at(&v1, t + 32 * i) + 0x40_0000);
    }
}

#[test]
fn the_id_changes_only_header_bytes_8_to_24() {
    let data = file_bytes();
    let m = manifest();
    let v1 = build_abo(&data, &exec_elf(), &m, [1; 16]).unwrap();
    let u2 = name_to_uuid("other");
    let v2 = build_abo(&data, &exec_elf(), &m, u2).unwrap();
    assert_eq!(v1.len(), v2.len());
    assert_eq!(&v2[8..24], &u2);
    for k in (0..8).chain(24..v1.len()) {
        assert_eq!(v1[k], v2[k]);
    }
}
