//! Whole conversions checked against the format written out step by step.
use abo_builder::abo::build_abo;
use abo_builder::elf::parse_elf;
use abo_builder::manifest::Manifest;
use abo_builder::uuid::name_to_uuid;

struct Seg {
    p_flags: u32,
    p_offset: u64,
    p_vaddr: u64,
    p_filesz: u64,
    p_memsz: u64,
}

fn rd16(d: &[u8], o: usize) -> u16 {
    u16::from_le_bytes(d[o..o + 2].try_into().unwrap())
}
fn rd32(d: &[u8], o: usize) -> u32 {
    u32::from_le_bytes(d[o..o + 4].try_into().unwrap())
}
fn rd64(d: &[u8], o: usize) -> u64 {
    u64::from_le_bytes(d[o..o + 8].try_into().unwrap())
}

/// Reads the ELF file the way the format describes; `None` where it is refused.
fn expected_elf(data: &[u8]) -> Option<(u16, u64, Vec<Seg>)> {
    if data.len() < 64 || data[0..4] != [0x7f, b'E', b'L', b'F'] || data[4] != 2 || data[5] != 1 {
        return None;
    }
    let e_type = rd16(data, 16);
    let e_phoff = rd64(data, 32) as usize;
    let e_phnum = rd16(data, 56) as usize;
    let e_phentsize = rd16(data, 54) as usize;
    if (e_type != 2 && e_type != 3) || rd16(data, 18) != 62 || e_phentsize < 56 {
        return None;
    }
    let mut segs = vec![];
    for i in 0..e_phnum {
        let off = e_phoff + i * e_phentsize;
        if off + 56 > data.len() {
            return None;
        }
        let s = Seg {
            p_flags: rd32(data, off + 4),
            p_offset: rd64(data, off + 8),
            p_vaddr: rd64(data, off + 16),
            p_filesz: rd64(data, off + 32),
            p_memsz: rd64(data, off + 40),
        };
        if rd32(data, off) != 1 || s.p_memsz == 0 {
            continue;
        }
        if s.p_offset as usize + s.p_filesz as usize > data.len() {
            return None;
        }
        segs.push(s);
    }
    if segs.is_empty() {
        return None;
    }
    Some((e_type, rd64(data, 24), segs))
}

/// The bundle as the format describes it; `None` where the conversion is refused.
fn expected_abo(data: &[u8], e_type: u16, e_entry: u64, segs: &[Seg], manifest: &[u8], uuid: [u8; 16]) -> Option<Vec<u8>> {
    let bias: u64 = if e_type == 3 { 0x40_0000 } else { 0 };
    let entry = e_entry.wrapping_add(bias);
    if entry == 0 {
        return None;
    }
    let first = segs.iter().position(|s| s.p_flags & 1 != 0)?;
    let first_vaddr = segs[first].p_vaddr.wrapping_add(bias);
    if entry < first_vaddr {
        return None;
    }
    let tab = 64 + manifest.len();
    let mut out = vec![];
    out.extend_from_slice(b"ABO\0");
    out.extend_from_slice(&[0, 0, 0, 0]);
    out.extend_from_slice(&uuid);
    out.extend_from_slice(&1u32.to_le_bytes());
    out.extend_from_slice(&64u32.to_le_bytes());
    out.extend_from_slice(&(manifest.len() as u32).to_le_bytes());
    out.extend_from_slice(&(tab as u32).to_le_bytes());
    out.extend_from_slice(&(segs.len() as u32).to_le_bytes());
    out.extend_from_slice(&((entry - first_vaddr) as u32).to_le_bytes());
    out.extend_from_slice(&[0; 16]);
    out.extend_from_slice(manifest);
    let mut cursor = (tab + 32 * segs.len()) as u64;
    for s in segs {
        let flags = 1 | if s.p_flags & 2 != 0 { 2 } else { 0 } | if s.p_flags & 1 != 0 { 4 } else { 0 };
        out.extend_from_slice(&s.p_vaddr.wrapping_add(bias).to_le_bytes());
        out.extend_from_slice(&s.p_memsz.to_le_bytes());
        out.extend_from_slice(&cursor.to_le_bytes());
        out.extend_from_slice(&(s.p_filesz as u32).to_le_bytes());
        out.extend_from_slice(&(flags as u32).to_le_bytes());
        cursor += s.p_filesz;
    }
    for s in segs {
        out.extend_from_slice(&data[s.p_offset as usize..(s.p_offset + s.p_filesz) as usize]);
    }
    Some(out)
}

/// A pseudo-random ELF file: a header and program headers that are mostly sensible.
fn random_elf(seed: &mut u64) -> Vec<u8> {
    let mut next = || {
        *seed = seed.wrapping_mul(6364136223846793005).wrapping_add(1442695040888963407);
        *seed >> 33
    };
    let len = 64 + (next() % 600) as usize;
    let mut d: Vec<u8> = (0..len).map(|i| (i * 7) as u8).collect();
    d[0..4].copy_from_slice(&[0x7f, b'E', b'L', b'F']);
    d[4] = if next() % 20 == 0 { 1 } else { 2 };
    d[5] = 1;
    let e_type: u16 = [2, 3, 3, 2, 1][(next() % 5) as usize];
    d[16..18].copy_from_slice(&e_type.to_le_bytes());
    d[18..20].copy_from_slice(&(if next() % 20 == 0 { 3u16 } else { 62 }).to_le_bytes());
    let entry = [0u64, 0x1000, 0x1010, 0x401000, 0x400fff][(next() % 5) as usize];
    d[24..32].copy_from_slice(&entry.to_le_bytes());
    d[32..40].copy_from_slice(&64u64.to_le_bytes());
    let phentsize: u16 = [56, 56, 64, 40][(next() % 4) as usize];
    d[54..56].copy_from_slice(&phentsize.to_le_bytes());
    let phnum = (next() % 5) as u16;
    d[56..58].copy_from_slice(&phnum.to_le_bytes());
    for i in 0..phnum as usize {
        let o = 64 + i * phentsize as usize;
        if o + 56 > d.len() {
            break;
        }
        let p_type: u32 = [1, 1, 1, 6][(next() % 4) as usize];
        d[o..o + 4].copy_from_slice(&p_type.to_le_bytes());
        d[o + 4..o + 8].copy_from_slice(&((next() % 8) as u32).to_le_bytes());
        d[o + 8..o + 16].copy_from_slice(&(next() % 300).to_le_bytes());
        d[o + 16..o + 24].copy_from_slice(&([0x1000u64, 0x2000, 0x401000, 0][(next() % 4) as usize]).to_le_bytes());
        d[o + 32..o + 40].copy_from_slice(&(next() % 200).to_le_bytes());
        d[o + 40..o + 48].copy_from_slice(&(next() % 300).to_le_bytes());
    }
    d
}

#[test]
fn conversions_match_the_format() {
    let mut seed = 42u64;
    let mut converted = 0;
    for round in 0..3000 {
        let d = random_elf(&mut seed);
        let parsed = parse_elf(&d);
        let expected = expected_elf(&d);
        assert_eq!(parsed.is_ok(), expected.is_some(), "round {}", round);
        if let (Ok(info), Some((e_type, e_entry, segs))) = (parsed, expected) {
            assert_eq!(info.e_type, e_type);
            assert_eq!(info.e_entry, e_entry);
            assert_eq!(info.segments.len(), segs.len());
            let m = Manifest::parse(if round % 2 == 0 { "NAME=svc\nCAP_REQ=Memory:MAP\n" } else { "" });
            let uuid = name_to_uuid(&m.name);
            let built = build_abo(&d, &info, &m, uuid).ok();
            let want = expected_abo(&d, e_type, e_entry, &segs, &m.serialize(), uuid);
            assert_eq!(built, want, "round {}", round);
            if built.is_some() {
                converted += 1;
            }
        }
    }
    assert!(converted > 50);
}
